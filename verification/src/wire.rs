//! The primitives of the self-describing binary container format
//! (MessagePack): every value starts with a type tag, lengths and counts are
//! prefixes, integers are big-endian.

use vstd::prelude::*;
use vstd::utf8::encode_utf8;
use crate::error::EncodeError;

verus! {

pub const TAG_FIXMAP: u8 = 0x80;
pub const TAG_FIXARRAY: u8 = 0x90;
pub const TAG_FIXSTR: u8 = 0xa0;
pub const TAG_DOUBLE: u8 = 0xcb;
pub const TAG_U32: u8 = 0xce;
pub const TAG_U64: u8 = 0xcf;
pub const TAG_I32: u8 = 0xd2;
pub const TAG_I64: u8 = 0xd3;
pub const TAG_STR8: u8 = 0xd9;
pub const TAG_STR16: u8 = 0xda;
pub const TAG_STR32: u8 = 0xdb;
pub const TAG_ARRAY16: u8 = 0xdc;
pub const TAG_ARRAY32: u8 = 0xdd;
pub const TAG_MAP16: u8 = 0xde;
pub const TAG_MAP32: u8 = 0xdf;

/// The two bytes of `v`, most significant first.
pub open spec fn be_u16(v: u16) -> Seq<u8> {
    seq![(v / 0x100) as u8, (v % 0x100) as u8]
}

/// The four bytes of `v`, most significant first.
pub open spec fn be_u32(v: u32) -> Seq<u8> {
    seq![
        (v / 0x100_0000) as u8,
        (v / 0x1_0000 % 0x100) as u8,
        (v / 0x100 % 0x100) as u8,
        (v % 0x100) as u8,
    ]
}

/// The eight bytes of `v`, most significant first.
pub open spec fn be_u64(v: u64) -> Seq<u8> {
    be_u32((v / 0x1_0000_0000) as u32) + be_u32((v % 0x1_0000_0000) as u32)
}

/// The unsigned number with the same 32 bits as `v` in two's complement.
pub open spec fn twos_complement_32(v: i32) -> u32 {
    if v >= 0 {
        v as u32
    } else {
        (v + 0x1_0000_0000) as u32
    }
}

/// The unsigned number with the same 64 bits as `v` in two's complement.
pub open spec fn twos_complement_64(v: i64) -> u64 {
    if v >= 0 {
        v as u64
    } else {
        (v + 0x1_0000_0000_0000_0000) as u64
    }
}

/// A count prefix: the tag carries a count under `small`, else a 16-bit or a
/// 32-bit count follows its tag.
pub open spec fn count_prefix(fix: u8, small: u32, tag16: u8, tag32: u8, count: u32) -> Seq<u8> {
    if count < small {
        seq![(fix + count) as u8]
    } else if count <= 0xffff {
        seq![tag16] + be_u16(count as u16)
    } else {
        seq![tag32] + be_u32(count)
    }
}

/// The prefix of an array of `count` elements.
pub open spec fn array_header(count: u32) -> Seq<u8> {
    count_prefix(TAG_FIXARRAY, 16, TAG_ARRAY16, TAG_ARRAY32, count)
}

/// The prefix of a map of `count` entries.
pub open spec fn map_header(count: u32) -> Seq<u8> {
    count_prefix(TAG_FIXMAP, 16, TAG_MAP16, TAG_MAP32, count)
}

/// The prefix of a string of `len` bytes.
pub open spec fn str_header(len: u32) -> Seq<u8> {
    if len < 32 {
        seq![(TAG_FIXSTR + len) as u8]
    } else if len <= 0xff {
        seq![TAG_STR8, len as u8]
    } else if len <= 0xffff {
        seq![TAG_STR16] + be_u16(len as u16)
    } else {
        seq![TAG_STR32] + be_u32(len)
    }
}

/// Whether the format can carry `s`: its UTF-8 form has a 32-bit length.
pub open spec fn str_fits(s: Seq<char>) -> bool {
    encode_utf8(s).len() <= u32::MAX
}

/// A string: the length prefix, then its UTF-8 bytes.
pub open spec fn str_value(s: Seq<char>) -> Seq<u8> {
    str_header(encode_utf8(s).len() as u32) + encode_utf8(s)
}

/// An unsigned 32-bit integer at full width.
pub open spec fn u32_value(v: u32) -> Seq<u8> {
    seq![TAG_U32] + be_u32(v)
}

/// An unsigned 64-bit integer at full width.
pub open spec fn u64_value(v: u64) -> Seq<u8> {
    seq![TAG_U64] + be_u64(v)
}

/// A signed 32-bit integer at full width.
pub open spec fn i32_value(v: i32) -> Seq<u8> {
    seq![TAG_I32] + be_u32(twos_complement_32(v))
}

/// A signed 64-bit integer at full width.
pub open spec fn i64_value(v: i64) -> Seq<u8> {
    seq![TAG_I64] + be_u64(twos_complement_64(v))
}

/// A binary64 number, given by its 64 bits.
pub open spec fn double_value(bits: u64) -> Seq<u8> {
    seq![TAG_DOUBLE] + be_u64(bits)
}

fn push_be_u16(buf: &mut Vec<u8>, v: u16)
    ensures
        final(buf)@ == old(buf)@ + be_u16(v),
{
    buf.push((v / 0x100) as u8);
    buf.push((v % 0x100) as u8);
    assert(buf@ =~= old(buf)@ + be_u16(v));
}

fn push_be_u32(buf: &mut Vec<u8>, v: u32)
    ensures
        final(buf)@ == old(buf)@ + be_u32(v),
{
    buf.push((v / 0x100_0000) as u8);
    buf.push((v / 0x1_0000 % 0x100) as u8);
    buf.push((v / 0x100 % 0x100) as u8);
    buf.push((v % 0x100) as u8);
    assert(buf@ =~= old(buf)@ + be_u32(v));
}

fn push_be_u64(buf: &mut Vec<u8>, v: u64)
    ensures
        final(buf)@ == old(buf)@ + be_u64(v),
{
    push_be_u32(buf, (v / 0x1_0000_0000) as u32);
    push_be_u32(buf, (v % 0x1_0000_0000) as u32);
    assert(buf@ =~= old(buf)@ + be_u64(v));
}

fn push_count_prefix(buf: &mut Vec<u8>, fix: u8, small: u32, tag16: u8, tag32: u8, count: u32)
    requires
        fix + small <= 0x100,
    ensures
        final(buf)@ == old(buf)@ + count_prefix(fix, small, tag16, tag32, count),
{
    if count < small {
        buf.push(fix + count as u8);
    } else if count <= 0xffff {
        buf.push(tag16);
        push_be_u16(buf, count as u16);
    } else {
        buf.push(tag32);
        push_be_u32(buf, count);
    }
    assert(buf@ =~= old(buf)@ + count_prefix(fix, small, tag16, tag32, count));
}

/// Appends the prefix of an array of `count` elements.
pub fn write_array_len(buf: &mut Vec<u8>, count: u32)
    ensures
        final(buf)@ == old(buf)@ + array_header(count),
{
    push_count_prefix(buf, TAG_FIXARRAY, 16, TAG_ARRAY16, TAG_ARRAY32, count);
}

/// Appends the prefix of a map of `count` entries.
pub fn write_map_len(buf: &mut Vec<u8>, count: u32)
    ensures
        final(buf)@ == old(buf)@ + map_header(count),
{
    push_count_prefix(buf, TAG_FIXMAP, 16, TAG_MAP16, TAG_MAP32, count);
}

/// Appends the prefix of a string of `len` bytes.
pub fn write_str_len(buf: &mut Vec<u8>, len: u32)
    ensures
        final(buf)@ == old(buf)@ + str_header(len),
{
    if len < 32 {
        buf.push(TAG_FIXSTR + len as u8);
    } else if len <= 0xff {
        buf.push(TAG_STR8);
        buf.push(len as u8);
    } else if len <= 0xffff {
        buf.push(TAG_STR16);
        push_be_u16(buf, len as u16);
    } else {
        buf.push(TAG_STR32);
        push_be_u32(buf, len);
    }
    assert(buf@ =~= old(buf)@ + str_header(len));
}

/// Appends a string, or leaves the buffer as it is where the string is too
/// long for the format.
pub fn write_str(buf: &mut Vec<u8>, s: &str) -> (r: Result<(), EncodeError>)
    ensures
        r is Ok <==> str_fits(s@),
        r is Ok ==> final(buf)@ == old(buf)@ + str_value(s@),
        r is Err ==> final(buf)@ == old(buf)@,
        old(buf)@.is_prefix_of(final(buf)@),
{
    let bytes = s.as_bytes();
    let len = bytes.len();
    if len > u32::MAX as usize {
        return Err(EncodeError::LengthOverflow);
    }
    write_str_len(buf, len as u32);
    let ghost mid = buf@;
    buf.extend_from_slice(bytes);
    assert(buf@ =~= mid + bytes@);
    assert(buf@ =~= old(buf)@ + str_value(s@));
    proof {
        lemma_prefix_append(old(buf)@, str_value(s@));
    }
    Ok(())
}

/// The UTF-8 form of a string has at most four bytes for each character.
pub proof fn lemma_utf8_len(s: Seq<char>)
    ensures
        encode_utf8(s).len() <= 4 * s.len(),
    decreases s.len(),
{
    if s.len() > 0 {
        lemma_utf8_len(s.drop_first());
    }
}

/// The format can carry every string of up to 2 to the 30 characters.
pub proof fn lemma_short_fits(s: Seq<char>)
    requires
        s.len() <= 0x3fff_ffff,
    ensures
        str_fits(s),
{
    lemma_utf8_len(s);
}

/// Appends a short string, such as the name of a field.
pub(crate) fn write_label(buf: &mut Vec<u8>, label: &str)
    requires
        label@.len() < 0x100,
    ensures
        final(buf)@ == old(buf)@ + str_value(label@),
{
    proof {
        lemma_utf8_len(label@);
    }
    let _ = write_str(buf, label);
}

/// What a buffer held stays at its front when more is appended.
pub proof fn lemma_prefix_append<B>(held: Seq<B>, more: Seq<B>)
    ensures
        held.is_prefix_of(held + more),
{
    assert(held =~= (held + more).subrange(0, held.len() as int));
}

/// A buffer holds itself at its front.
pub proof fn lemma_prefix_self<B>(held: Seq<B>)
    ensures
        held.is_prefix_of(held),
{
    assert(held =~= held.subrange(0, held.len() as int));
}

/// What stands at the front of a buffer stays there when more is appended.
pub proof fn lemma_prefix_grows<B>(a: Seq<B>, b: Seq<B>, more: Seq<B>)
    requires
        a.is_prefix_of(b),
    ensures
        a.is_prefix_of(b + more),
{
    lemma_prefix_append(b, more);
    lemma_prefix_chain(a, b, b + more);
}

/// The front of the front of a buffer is at its front.
pub proof fn lemma_prefix_chain<B>(a: Seq<B>, b: Seq<B>, c: Seq<B>)
    requires
        a.is_prefix_of(b),
        b.is_prefix_of(c),
    ensures
        a.is_prefix_of(c),
{
    assert(a =~= c.subrange(0, a.len() as int)) by {
        assert forall|i: int| 0 <= i < a.len() implies a[i] == c.subrange(0, a.len() as int)[i] by {
            assert(a[i] == b.subrange(0, a.len() as int)[i]);
            assert(b[i] == c.subrange(0, b.len() as int)[i]);
        }
    }
}

/// What is appended to what was appended is appended in one.
pub proof fn lemma_append<B>(start: Seq<B>, acc: Seq<B>, piece: Seq<B>)
    ensures
        (start + acc) + piece == start + (acc + piece),
{
    assert((start + acc) + piece =~= start + (acc + piece));
}

/// The pieces of the items of `s`, one after the other.
pub open spec fn joined<A, B>(s: Seq<A>, piece: spec_fn(A) -> Seq<B>) -> Seq<B>
    decreases s.len(),
{
    if s.len() == 0 {
        Seq::empty()
    } else {
        joined(s.drop_last(), piece) + piece(s.last())
    }
}

/// The pieces of the first `i + 1` items are those of the first `i`, then
/// the piece of the next item.
pub proof fn lemma_joined_take<A, B>(s: Seq<A>, piece: spec_fn(A) -> Seq<B>, i: int)
    requires
        0 <= i < s.len(),
    ensures
        joined(s.take(i + 1), piece) == joined(s.take(i), piece) + piece(s[i]),
{
    assert(s.take(i + 1).drop_last() =~= s.take(i));
}

/// Two ways to make the pieces that agree on the items of `s` give the same
/// result.
pub proof fn lemma_joined_agree<A, B>(s: Seq<A>, f: spec_fn(A) -> Seq<B>, g: spec_fn(A) -> Seq<B>)
    requires
        forall|i: int| 0 <= i < s.len() ==> f(#[trigger] s[i]) == g(s[i]),
    ensures
        joined(s, f) == joined(s, g),
    decreases s.len(),
{
    if s.len() > 0 {
        let t = s.drop_last();
        assert forall|i: int| 0 <= i < t.len() implies f(#[trigger] t[i]) == g(t[i]) by {
            assert(t[i] == s[i]);
        }
        lemma_joined_agree(t, f, g);
        assert(s.last() == s[s.len() - 1]);
    }
}

/// What stands in the piece of an item stands in the whole.
pub proof fn lemma_joined_contains<A, B>(s: Seq<A>, piece: spec_fn(A) -> Seq<B>, i: int, j: int)
    requires
        0 <= i < s.len(),
        0 <= j < piece(s[i]).len(),
    ensures
        joined(s, piece).contains(piece(s[i])[j]),
    decreases s.len(),
{
    let whole = joined(s, piece);
    let front = joined(s.drop_last(), piece);
    if i == s.len() - 1 {
        assert(whole[front.len() + j] == piece(s[i])[j]);
    } else {
        lemma_joined_contains(s.drop_last(), piece, i, j);
        let k = choose|k: int| 0 <= k < front.len() && front[k] == piece(s[i])[j];
        assert(whole[k] == piece(s[i])[j]);
    }
}

/// The pieces of all items are those of the first `i`, then those of the
/// others.
pub proof fn lemma_joined_split<A, B>(s: Seq<A>, piece: spec_fn(A) -> Seq<B>, i: int)
    requires
        0 <= i <= s.len(),
    ensures
        joined(s, piece) == joined(s.take(i), piece) + joined(s.skip(i), piece),
    decreases s.len() - i,
{
    if i == s.len() {
        assert(s.take(i) =~= s);
        assert(s.skip(i) =~= Seq::empty());
        assert(joined(s, piece) =~= joined(s, piece) + Seq::empty());
    } else {
        lemma_joined_split(s, piece, i + 1);
        lemma_joined_take(s, piece, i);
        lemma_joined_first(s.skip(i), piece);
        assert(s.skip(i).drop_first() =~= s.skip(i + 1));
        assert(joined(s, piece) =~= joined(s.take(i), piece) + joined(s.skip(i), piece));
    }
}

/// The pieces of all items are the piece of the first, then those of the
/// others.
pub proof fn lemma_joined_first<A, B>(s: Seq<A>, piece: spec_fn(A) -> Seq<B>)
    requires
        s.len() > 0,
    ensures
        joined(s, piece) == piece(s[0]) + joined(s.drop_first(), piece),
    decreases s.len(),
{
    if s.len() == 1 {
        assert(s.drop_last() =~= Seq::empty());
        assert(s.drop_first() =~= Seq::empty());
        assert(joined(s, piece) =~= piece(s[0]) + joined(s.drop_first(), piece));
    } else {
        lemma_joined_first(s.drop_last(), piece);
        assert(s.drop_last().drop_first() =~= s.drop_first().drop_last());
        assert(s.drop_first().last() == s.last());
        assert(joined(s, piece) =~= piece(s[0]) + joined(s.drop_first(), piece));
    }
}

/// Appends an unsigned 32-bit integer at full width.
pub fn write_u32(buf: &mut Vec<u8>, v: u32)
    ensures
        final(buf)@ == old(buf)@ + u32_value(v),
{
    buf.push(TAG_U32);
    push_be_u32(buf, v);
    assert(buf@ =~= old(buf)@ + u32_value(v));
}

/// Appends an unsigned 64-bit integer at full width.
pub fn write_u64(buf: &mut Vec<u8>, v: u64)
    ensures
        final(buf)@ == old(buf)@ + u64_value(v),
{
    buf.push(TAG_U64);
    push_be_u64(buf, v);
    assert(buf@ =~= old(buf)@ + u64_value(v));
}

/// Appends a signed 32-bit integer at full width.
pub fn write_i32(buf: &mut Vec<u8>, v: i32)
    ensures
        final(buf)@ == old(buf)@ + i32_value(v),
{
    let bits: u32 = if v >= 0 {
        v as u32
    } else {
        ((v + 1) + i32::MAX) as u32 + 0x8000_0000u32
    };
    buf.push(TAG_I32);
    push_be_u32(buf, bits);
    assert(buf@ =~= old(buf)@ + i32_value(v));
}

/// Appends a signed 64-bit integer at full width.
pub fn write_i64(buf: &mut Vec<u8>, v: i64)
    ensures
        final(buf)@ == old(buf)@ + i64_value(v),
{
    let bits: u64 = if v >= 0 {
        v as u64
    } else {
        ((v + 1) + i64::MAX) as u64 + 0x8000_0000_0000_0000u64
    };
    buf.push(TAG_I64);
    push_be_u64(buf, bits);
    assert(buf@ =~= old(buf)@ + i64_value(v));
}

/// Appends a binary64 number, given by its 64 bits.
pub fn write_double(buf: &mut Vec<u8>, bits: u64)
    ensures
        final(buf)@ == old(buf)@ + double_value(bits),
{
    buf.push(TAG_DOUBLE);
    push_be_u64(buf, bits);
    assert(buf@ =~= old(buf)@ + double_value(bits));
}

} // verus!
