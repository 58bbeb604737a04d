//! How the compact payload reads: the table first, then the traces, whose
//! spans name their strings by index. Nothing here runs; it states what the
//! bytes of a payload mean, and that reading a payload gives back the batch
//! that it was written from.

use vstd::prelude::*;
use vstd::utf8::{decode_utf8, encode_utf8, encode_utf8_decode_utf8, encode_utf8_valid_utf8, valid_utf8};
use crate::grouping::{groups, trace_ids};
use crate::intern::TABLE_CAPACITY;
use crate::mapping::{mapped, MappedSpanView, PROVIDER_NAME};
use crate::seen::{covers, lemma_covered};
use crate::span::SpanView;
use crate::v05::{batch_strings, compact_batch_fits, compact_payload, compact_span, compact_trace,
    compact_traces, group_piece, group_strings, index_value, maps_fit, member_piece,
    member_strings, members_fit, meta_pair, meta_piece, meta_value, metric_key, metric_piece,
    metrics_value, name_values, number_values, span_strings, string_table, table_piece, table_value,
    trace_strings, type_string, VALUES};
use crate::wire::{lemma_append, lemma_joined_contains, array_header, be_u16, be_u32, be_u64, double_value, i32_value,
    i64_value, joined, lemma_joined_first, map_header, str_fits, str_header, str_value,
    twos_complement_32, twos_complement_64, u32_value, u64_value, TAG_ARRAY16, TAG_ARRAY32, TAG_DOUBLE,
    TAG_FIXARRAY, TAG_FIXMAP, TAG_FIXSTR, TAG_I32, TAG_I64, TAG_MAP16, TAG_MAP32, TAG_STR16, TAG_STR32,
    TAG_STR8, TAG_U32, TAG_U64};

verus! {

/// The number that two bytes say, most significant first.
pub open spec fn u16_of(b: Seq<u8>) -> u16 {
    (b[0] * 0x100 + b[1]) as u16
}

/// The number that four bytes say, most significant first.
pub open spec fn u32_of(b: Seq<u8>) -> u32 {
    (b[0] * 0x100_0000 + b[1] * 0x1_0000 + b[2] * 0x100 + b[3]) as u32
}

/// The number that eight bytes say, most significant first.
pub open spec fn u64_of(b: Seq<u8>) -> u64 {
    (u32_of(b.take(4)) * 0x1_0000_0000 + u32_of(b.skip(4))) as u64
}

/// The signed number with the same 32 bits as `v` in two's complement.
pub open spec fn signed_32(v: u32) -> i32 {
    if v < 0x8000_0000 {
        v as i32
    } else {
        (v - 0x1_0000_0000) as i32
    }
}

/// The signed number with the same 64 bits as `v` in two's complement.
pub open spec fn signed_64(v: u64) -> i64 {
    if v < 0x8000_0000_0000_0000 {
        v as i64
    } else {
        (v - 0x1_0000_0000_0000_0000) as i64
    }
}

/// The `n` bytes behind the tag `tag`, and what follows them.
pub open spec fn read_tagged(b: Seq<u8>, tag: u8, n: int) -> Option<(Seq<u8>, Seq<u8>)> {
    if b.len() >= 1 + n && b[0] == tag {
        Some((b.subrange(1, 1 + n), b.skip(1 + n)))
    } else {
        None
    }
}

/// An unsigned 32-bit integer at full width.
pub open spec fn read_u32(b: Seq<u8>) -> Option<(u32, Seq<u8>)> {
    match read_tagged(b, TAG_U32, 4) {
        Some((x, rest)) => Some((u32_of(x), rest)),
        None => None,
    }
}

/// An unsigned 64-bit integer at full width.
pub open spec fn read_u64(b: Seq<u8>) -> Option<(u64, Seq<u8>)> {
    match read_tagged(b, TAG_U64, 8) {
        Some((x, rest)) => Some((u64_of(x), rest)),
        None => None,
    }
}

/// A signed 32-bit integer at full width.
pub open spec fn read_i32(b: Seq<u8>) -> Option<(i32, Seq<u8>)> {
    match read_tagged(b, TAG_I32, 4) {
        Some((x, rest)) => Some((signed_32(u32_of(x)), rest)),
        None => None,
    }
}

/// A signed 64-bit integer at full width.
pub open spec fn read_i64(b: Seq<u8>) -> Option<(i64, Seq<u8>)> {
    match read_tagged(b, TAG_I64, 8) {
        Some((x, rest)) => Some((signed_64(u64_of(x)), rest)),
        None => None,
    }
}

/// A binary64 number, as its bits.
pub open spec fn read_double(b: Seq<u8>) -> Option<(u64, Seq<u8>)> {
    match read_tagged(b, TAG_DOUBLE, 8) {
        Some((x, rest)) => Some((u64_of(x), rest)),
        None => None,
    }
}

/// A count prefix in any of its three forms.
pub open spec fn read_count(b: Seq<u8>, fix: u8, small: u32, tag16: u8, tag32: u8) -> Option<
    (u32, Seq<u8>),
> {
    if b.len() == 0 {
        None
    } else if fix <= b[0] < fix + small {
        Some(((b[0] - fix) as u32, b.skip(1)))
    } else if b[0] == tag16 && b.len() >= 3 {
        Some((u16_of(b.subrange(1, 3)) as u32, b.skip(3)))
    } else if b[0] == tag32 && b.len() >= 5 {
        Some((u32_of(b.subrange(1, 5)), b.skip(5)))
    } else {
        None
    }
}

/// The prefix of an array.
pub open spec fn read_array_len(b: Seq<u8>) -> Option<(u32, Seq<u8>)> {
    read_count(b, TAG_FIXARRAY, 16, TAG_ARRAY16, TAG_ARRAY32)
}

/// The prefix of a map.
pub open spec fn read_map_len(b: Seq<u8>) -> Option<(u32, Seq<u8>)> {
    read_count(b, TAG_FIXMAP, 16, TAG_MAP16, TAG_MAP32)
}

/// The prefix of a string in any of its four forms.
pub open spec fn read_str_len(b: Seq<u8>) -> Option<(u32, Seq<u8>)> {
    if b.len() == 0 {
        None
    } else if TAG_FIXSTR <= b[0] < TAG_FIXSTR + 32 {
        Some(((b[0] - TAG_FIXSTR) as u32, b.skip(1)))
    } else if b[0] == TAG_STR8 && b.len() >= 2 {
        Some((b[1] as u32, b.skip(2)))
    } else if b[0] == TAG_STR16 && b.len() >= 3 {
        Some((u16_of(b.subrange(1, 3)) as u32, b.skip(3)))
    } else if b[0] == TAG_STR32 && b.len() >= 5 {
        Some((u32_of(b.subrange(1, 5)), b.skip(5)))
    } else {
        None
    }
}

/// A string: its bytes must be UTF-8.
pub open spec fn read_str(b: Seq<u8>) -> Option<(Seq<char>, Seq<u8>)> {
    match read_str_len(b) {
        Some((n, rest)) => if rest.len() >= n && valid_utf8(rest.take(n as int)) {
            Some((decode_utf8(rest.take(n as int)), rest.skip(n as int)))
        } else {
            None
        },
        None => None,
    }
}

/// `n` values one after the other, each read by `read`.
pub open spec fn read_items<T>(b: Seq<u8>, n: nat, read: spec_fn(Seq<u8>) -> Option<(T, Seq<u8>)>) -> Option<
    (Seq<T>, Seq<u8>),
>
    decreases n,
{
    if n == 0 {
        Some((Seq::empty(), b))
    } else {
        match read(b) {
            Some((first, rest)) => match read_items(rest, (n - 1) as nat, read) {
                Some((others, end)) => Some((seq![first] + others, end)),
                None => None,
            },
            None => None,
        }
    }
}

/// An array: its prefix, then that many values.
pub open spec fn read_array<T>(b: Seq<u8>, read: spec_fn(Seq<u8>) -> Option<(T, Seq<u8>)>) -> Option<
    (Seq<T>, Seq<u8>),
> {
    match read_array_len(b) {
        Some((n, rest)) => read_items(rest, n as nat, read),
        None => None,
    }
}

/// A map: its prefix, then that many entries.
pub open spec fn read_map<T>(b: Seq<u8>, read: spec_fn(Seq<u8>) -> Option<(T, Seq<u8>)>) -> Option<
    (Seq<T>, Seq<u8>),
> {
    match read_map_len(b) {
        Some((n, rest)) => read_items(rest, n as nat, read),
        None => None,
    }
}

/// The bytes of a 16-bit number say the number.
pub proof fn lemma_be_u16(v: u16)
    ensures
        u16_of(be_u16(v)) == v,
{
    let hi = v / 0x100;
    let lo = v % 0x100;
    assert(hi * 0x100 + lo == v);
}

/// The bytes of a 32-bit number say the number.
pub proof fn lemma_be_u32(v: u32)
    ensures
        u32_of(be_u32(v)) == v,
{
    let b0: u32 = v / 0x100_0000;
    let b1: u32 = v / 0x1_0000 % 0x100;
    let b2: u32 = v / 0x100 % 0x100;
    let b3: u32 = v % 0x100;
    assert(b0 * 0x100_0000 + b1 * 0x1_0000 + b2 * 0x100 + b3 == v) by (bit_vector)
        requires
            b0 == v / 0x100_0000,
            b1 == v / 0x1_0000 % 0x100,
            b2 == v / 0x100 % 0x100,
            b3 == v % 0x100,
    ;
    assert(be_u32(v)[0] == b0 && be_u32(v)[1] == b1 && be_u32(v)[2] == b2 && be_u32(v)[3] == b3);
}

/// The bytes of a 64-bit number say the number.
pub proof fn lemma_be_u64(v: u64)
    ensures
        u64_of(be_u64(v)) == v,
{
    let hi = (v / 0x1_0000_0000) as u32;
    let lo = (v % 0x1_0000_0000) as u32;
    assert(be_u64(v).take(4) =~= be_u32(hi));
    assert(be_u64(v).skip(4) =~= be_u32(lo));
    lemma_be_u32(hi);
    lemma_be_u32(lo);
    assert(hi * 0x1_0000_0000 + lo == v);
}

/// The bytes of a number say the number.
pub proof fn lemma_be_round_trip(a: u16, b: u32, c: u64)
    ensures
        u16_of(be_u16(a)) == a,
        u32_of(be_u32(b)) == b,
        u64_of(be_u64(c)) == c,
{
    lemma_be_u16(a);
    lemma_be_u32(b);
    lemma_be_u64(c);
}

/// Two's complement and back is the number.
pub proof fn lemma_signed_round_trip(a: i32, b: i64)
    ensures
        signed_32(twos_complement_32(a)) == a,
        signed_64(twos_complement_64(b)) == b,
{
}

/// What was written as a number at full width reads as that number.
pub proof fn lemma_read_numbers(a: u32, b: u64, c: i32, d: i64, rest: Seq<u8>)
    ensures
        read_u32(u32_value(a) + rest) == Some((a, rest)),
        read_u64(u64_value(b) + rest) == Some((b, rest)),
        read_i32(i32_value(c) + rest) == Some((c, rest)),
        read_i64(i64_value(d) + rest) == Some((d, rest)),
        read_double(double_value(b) + rest) == Some((b, rest)),
{
    lemma_be_round_trip(0, a, b);
    lemma_be_round_trip(0, twos_complement_32(c), twos_complement_64(d));
    lemma_signed_round_trip(c, d);
    let x = u32_value(a) + rest;
    assert(x.subrange(1, 5) =~= be_u32(a));
    assert(x.skip(5) =~= rest);
    let y = u64_value(b) + rest;
    assert(y.subrange(1, 9) =~= be_u64(b));
    assert(y.skip(9) =~= rest);
    let z = i32_value(c) + rest;
    assert(z.subrange(1, 5) =~= be_u32(twos_complement_32(c)));
    assert(z.skip(5) =~= rest);
    let w = i64_value(d) + rest;
    assert(w.subrange(1, 9) =~= be_u64(twos_complement_64(d)));
    assert(w.skip(9) =~= rest);
    let v = double_value(b) + rest;
    assert(v.subrange(1, 9) =~= be_u64(b));
    assert(v.skip(9) =~= rest);
}

/// What was written as the prefix of an array or a map reads as its count.
pub proof fn lemma_read_count(count: u32, rest: Seq<u8>)
    ensures
        read_array_len(array_header(count) + rest) == Some((count, rest)),
        read_map_len(map_header(count) + rest) == Some((count, rest)),
{
    lemma_be_round_trip(count as u16, count, 0);
    let a = array_header(count) + rest;
    let m = map_header(count) + rest;
    if count < 16 {
        assert(a.skip(1) =~= rest);
        assert(m.skip(1) =~= rest);
    } else if count <= 0xffff {
        assert(a.subrange(1, 3) =~= be_u16(count as u16));
        assert(a.skip(3) =~= rest);
        assert(m.subrange(1, 3) =~= be_u16(count as u16));
        assert(m.skip(3) =~= rest);
    } else {
        assert(a.subrange(1, 5) =~= be_u32(count));
        assert(a.skip(5) =~= rest);
        assert(m.subrange(1, 5) =~= be_u32(count));
        assert(m.skip(5) =~= rest);
    }
}

/// What was written as a string reads as that string.
pub proof fn lemma_read_str(s: Seq<char>, rest: Seq<u8>)
    requires
        str_fits(s),
    ensures
        read_str(str_value(s) + rest) == Some((s, rest)),
{
    let bytes = encode_utf8(s);
    let len = bytes.len() as u32;
    let head = str_header(len);
    let all = str_value(s) + rest;
    encode_utf8_valid_utf8(s);
    encode_utf8_decode_utf8(s);
    lemma_be_round_trip(len as u16, len, 0);
    if len < 32 {
        assert(all.skip(1) =~= bytes + rest);
    } else if len <= 0xff {
        assert(all.skip(2) =~= bytes + rest);
    } else if len <= 0xffff {
        assert(all.subrange(1, 3) =~= be_u16(len as u16));
        assert(all.skip(3) =~= bytes + rest);
    } else {
        assert(all.subrange(1, 5) =~= be_u32(len));
        assert(all.skip(5) =~= bytes + rest);
    }
    assert((bytes + rest).take(len as int) =~= bytes);
    assert((bytes + rest).skip(len as int) =~= rest);
}

/// Where each piece reads as the value of its item, the pieces of all items
/// read as the values of all items.
pub proof fn lemma_read_items<A, T>(
    items: Seq<A>,
    piece: spec_fn(A) -> Seq<u8>,
    value: spec_fn(A) -> T,
    read: spec_fn(Seq<u8>) -> Option<(T, Seq<u8>)>,
    rest: Seq<u8>,
)
    requires
        forall|i: int, r: Seq<u8>|
            0 <= i < items.len() ==> #[trigger] read(piece(items[i]) + r) == Some((value(items[i]), r)),
    ensures
        read_items(joined(items, piece) + rest, items.len(), read) == Some((items.map_values(value), rest)),
    decreases items.len(),
{
    if items.len() == 0 {
        assert(joined(items, piece) + rest =~= rest);
        assert(items.map_values(value) =~= Seq::empty());
    } else {
        let tail = items.drop_first();
        let behind = joined(tail, piece) + rest;
        lemma_joined_first(items, piece);
        assert(joined(items, piece) + rest =~= piece(items[0]) + behind);
        assert(read(piece(items[0]) + behind) == Some((value(items[0]), behind)));
        assert forall|i: int, r: Seq<u8>| 0 <= i < tail.len() implies #[trigger] read(piece(tail[i]) + r)
            == Some((value(tail[i]), r)) by {
            assert(tail[i] == items[i + 1]);
            assert(read(piece(items[i + 1]) + r) == Some((value(items[i + 1]), r)));
        }
        lemma_read_items(tail, piece, value, read, rest);
        assert(seq![value(items[0])] + tail.map_values(value) =~= items.map_values(value));
    }
}

/// A span as the compact payload holds it: numbers as they are, strings by
/// their indices in the table.
pub struct SpanRecord {
    pub service: u32,
    pub name: u32,
    pub resource: u32,
    pub trace_id: u64,
    pub span_id: u64,
    pub parent_id: u64,
    pub start: i64,
    pub duration: i64,
    pub error: i32,
    pub meta: Seq<(u32, u32)>,
    pub metrics: Seq<(u32, u64)>,
    pub span_type: u32,
}

/// Three indices: service, name and resource.
pub open spec fn read_names(b: Seq<u8>) -> Option<((u32, u32, u32), Seq<u8>)> {
    match read_u32(b) {
        Some((service, b1)) => match read_u32(b1) {
            Some((name, b2)) => match read_u32(b2) {
                Some((resource, b3)) => Some(((service, name, resource), b3)),
                None => None,
            },
            None => None,
        },
        None => None,
    }
}

/// Three identifiers: trace, span and parent.
pub open spec fn read_ids(b: Seq<u8>) -> Option<((u64, u64, u64), Seq<u8>)> {
    match read_u64(b) {
        Some((trace_id, b1)) => match read_u64(b1) {
            Some((span_id, b2)) => match read_u64(b2) {
                Some((parent_id, b3)) => Some(((trace_id, span_id, parent_id), b3)),
                None => None,
            },
            None => None,
        },
        None => None,
    }
}

/// Start, duration and the error flag.
pub open spec fn read_timing(b: Seq<u8>) -> Option<((i64, i64, i32), Seq<u8>)> {
    match read_i64(b) {
        Some((start, b1)) => match read_i64(b1) {
            Some((duration, b2)) => match read_i32(b2) {
                Some((error, b3)) => Some(((start, duration, error), b3)),
                None => None,
            },
            None => None,
        },
        None => None,
    }
}

/// An entry of `meta`: the indices of key and value.
pub open spec fn read_meta_entry() -> spec_fn(Seq<u8>) -> Option<((u32, u32), Seq<u8>)> {
    |b: Seq<u8>|
        match read_u32(b) {
            Some((key, b1)) => match read_u32(b1) {
                Some((value, b2)) => Some(((key, value), b2)),
                None => None,
            },
            None => None,
        }
}

/// An entry of `metrics`: the index of the key, and the number.
pub open spec fn read_metric_entry() -> spec_fn(Seq<u8>) -> Option<((u32, u64), Seq<u8>)> {
    |b: Seq<u8>|
        match read_u32(b) {
            Some((key, b1)) => match read_double(b1) {
                Some((value, b2)) => Some(((key, value), b2)),
                None => None,
            },
            None => None,
        }
}

/// The two maps of a span and the index of its type, which end it.
pub open spec fn read_maps(b: Seq<u8>) -> Option<((Seq<(u32, u32)>, Seq<(u32, u64)>, u32), Seq<u8>)> {
    match read_map(b, read_meta_entry()) {
        Some((meta, b1)) => match read_map(b1, read_metric_entry()) {
            Some((metrics, b2)) => match read_u32(b2) {
                Some((span_type, b3)) => Some(((meta, metrics, span_type), b3)),
                None => None,
            },
            None => None,
        },
        None => None,
    }
}

/// The twelve values of a span in their order.
pub open spec fn read_span_values(b: Seq<u8>) -> Option<(SpanRecord, Seq<u8>)> {
    match read_names(b) {
        Some((names, b1)) => match read_ids(b1) {
            Some((ids, b2)) => match read_timing(b2) {
                Some((timing, b3)) => match read_maps(b3) {
                    Some((maps, b4)) => Some(
                        (
                            SpanRecord {
                                service: names.0,
                                name: names.1,
                                resource: names.2,
                                trace_id: ids.0,
                                span_id: ids.1,
                                parent_id: ids.2,
                                start: timing.0,
                                duration: timing.1,
                                error: timing.2,
                                meta: maps.0,
                                metrics: maps.1,
                                span_type: maps.2,
                            },
                            b4,
                        ),
                    ),
                    None => None,
                },
                None => None,
            },
            None => None,
        },
        None => None,
    }
}

/// A span: an array of twelve values.
pub open spec fn read_span(b: Seq<u8>) -> Option<(SpanRecord, Seq<u8>)> {
    match read_array_len(b) {
        Some((n, b1)) => if n == VALUES {
            read_span_values(b1)
        } else {
            None
        },
        None => None,
    }
}

/// The reader of spans.
pub open spec fn span_reader() -> spec_fn(Seq<u8>) -> Option<(SpanRecord, Seq<u8>)> {
    |b: Seq<u8>| read_span(b)
}

/// The reader of traces: arrays of spans.
pub open spec fn trace_reader() -> spec_fn(Seq<u8>) -> Option<(Seq<SpanRecord>, Seq<u8>)> {
    |b: Seq<u8>| read_array(b, span_reader())
}

/// The reader of the strings of the table.
pub open spec fn str_reader() -> spec_fn(Seq<u8>) -> Option<(Seq<char>, Seq<u8>)> {
    |b: Seq<u8>| read_str(b)
}

/// A payload: an array of two, the table and the traces, and nothing
/// behind them.
pub open spec fn read_payload(b: Seq<u8>) -> Option<(Seq<Seq<char>>, Seq<Seq<SpanRecord>>)> {
    match read_array_len(b) {
        Some((n, b1)) => match read_array(b1, str_reader()) {
            Some((table, b2)) => match read_array(b2, trace_reader()) {
                Some((traces, b3)) => if n == 2 && b3.len() == 0 {
                    Some((table, traces))
                } else {
                    None
                },
                None => None,
            },
            None => None,
        },
        None => None,
    }
}

/// The index of a string as a span holds it.
pub open spec fn index_in(table: Seq<Seq<char>>, s: Seq<char>) -> u32 {
    table.index_of(s) as u32
}

/// An entry of `meta` by the indices of its strings.
pub open spec fn meta_indices(table: Seq<Seq<char>>) -> spec_fn((Seq<char>, Seq<char>)) -> (u32, u32) {
    |e: (Seq<char>, Seq<char>)| (index_in(table, e.0), index_in(table, e.1))
}

/// An entry of `metrics` by the index of its key.
pub open spec fn metric_indices(table: Seq<Seq<char>>) -> spec_fn((Seq<char>, u64)) -> (u32, u64) {
    |e: (Seq<char>, u64)| (index_in(table, e.0), e.1)
}

/// A mapped span as the compact payload holds it with the table `table`.
pub open spec fn record_of(table: Seq<Seq<char>>, m: MappedSpanView) -> SpanRecord {
    SpanRecord {
        service: index_in(table, m.service),
        name: index_in(table, m.name),
        resource: index_in(table, m.resource),
        trace_id: m.trace_id,
        span_id: m.span_id,
        parent_id: m.parent_id,
        start: m.start,
        duration: m.duration,
        error: m.error,
        meta: m.meta.map_values(meta_indices(table)),
        metrics: m.metrics.map_values(metric_indices(table)),
        span_type: index_in(table, type_string(m)),
    }
}

/// The record of the span at a position of the batch.
pub open spec fn member_record(table: Seq<Seq<char>>, spans: Seq<SpanView>, service: Seq<char>) -> spec_fn(
    usize,
) -> SpanRecord {
    |i: usize| record_of(table, mapped(spans[i as int], service))
}

/// The records of the spans of a trace.
pub open spec fn group_records(table: Seq<Seq<char>>, spans: Seq<SpanView>, service: Seq<char>) -> spec_fn(
    Seq<usize>,
) -> Seq<SpanRecord> {
    |group: Seq<usize>| group.map_values(member_record(table, spans, service))
}

/// The records of a batch, trace by trace.
pub open spec fn records(table: Seq<Seq<char>>, spans: Seq<SpanView>, service: Seq<char>) -> Seq<
    Seq<SpanRecord>,
> {
    groups(trace_ids(spans)).map_values(group_records(table, spans, service))
}

/// The index `i` leads to the string `s` in `table`.
pub open spec fn names(table: Seq<Seq<char>>, i: u32, s: Seq<char>) -> bool {
    i < table.len() && table[i as int] == s
}

/// With the indices of `r` looked up in `table`, `r` is the mapped span
/// `m`: the same numbers, and each index leads to the string of `m`.
pub open spec fn resolves(table: Seq<Seq<char>>, r: SpanRecord, m: MappedSpanView) -> bool {
    &&& names(table, r.service, m.service)
    &&& names(table, r.name, m.name)
    &&& names(table, r.resource, m.resource)
    &&& names(table, r.span_type, type_string(m))
    &&& r.trace_id == m.trace_id
    &&& r.span_id == m.span_id
    &&& r.parent_id == m.parent_id
    &&& r.start == m.start
    &&& r.duration == m.duration
    &&& r.error == m.error
    &&& r.meta.len() == m.meta.len()
    &&& forall|j: int|
        0 <= j < m.meta.len() ==> names(table, (#[trigger] r.meta[j]).0, m.meta[j].0) && names(
            table,
            r.meta[j].1,
            m.meta[j].1,
        )
    &&& r.metrics.len() == m.metrics.len()
    &&& forall|j: int|
        0 <= j < m.metrics.len() ==> names(table, (#[trigger] r.metrics[j]).0, m.metrics[j].0)
            && r.metrics[j].1 == m.metrics[j].1
}

/// What was written as the index of a string reads as that index.
pub proof fn lemma_read_index(table: Seq<Seq<char>>, s: Seq<char>, rest: Seq<u8>)
    ensures
        read_u32(index_value(table, s) + rest) == Some((index_in(table, s), rest)),
{
    lemma_read_numbers(index_in(table, s), 0, 0, 0, rest);
}

/// Three runs of bytes and what follows them, grouped from the front.
proof fn lemma_group3(a: Seq<u8>, b: Seq<u8>, c: Seq<u8>, rest: Seq<u8>)
    ensures
        a + b + c + rest == a + (b + (c + rest)),
{
    assert(a + b + c + rest =~= a + (b + (c + rest)));
}

/// Six runs of bytes and what follows them, grouped from the front.
proof fn lemma_group6(a: Seq<u8>, b: Seq<u8>, c: Seq<u8>, d: Seq<u8>, e: Seq<u8>, f: Seq<u8>, rest: Seq<u8>)
    ensures
        a + b + c + d + e + f + rest == a + (b + (c + (d + (e + (f + rest))))),
        d + e + f + rest == d + (e + (f + rest)),
{
    assert(a + b + c + d + e + f + rest =~= a + (b + (c + (d + (e + (f + rest))))));
    assert(d + e + f + rest =~= d + (e + (f + rest)));
}

/// Two maps, each a prefix with its entries, and what follows them, grouped
/// from the front.
proof fn lemma_group_maps(h1: Seq<u8>, j1: Seq<u8>, h2: Seq<u8>, j2: Seq<u8>, t: Seq<u8>, rest: Seq<u8>)
    ensures
        (h1 + j1) + (h2 + j2) + t + rest == h1 + (j1 + (h2 + (j2 + (t + rest)))),
{
    assert((h1 + j1) + (h2 + j2) + t + rest =~= h1 + (j1 + (h2 + (j2 + (t + rest)))));
}

/// What was written as the names of a span reads as their indices.
pub proof fn lemma_read_names(table: Seq<Seq<char>>, m: MappedSpanView, rest: Seq<u8>)
    ensures
        read_names(name_values(table, m) + rest) == Some(
            ((index_in(table, m.service), index_in(table, m.name), index_in(table, m.resource)), rest),
        ),
{
    let b2 = index_value(table, m.resource) + rest;
    let b1 = index_value(table, m.name) + b2;
    lemma_group3(index_value(table, m.service), index_value(table, m.name), index_value(table, m.resource), rest);
    lemma_read_index(table, m.service, b1);
    lemma_read_index(table, m.name, b2);
    lemma_read_index(table, m.resource, rest);
}

/// What was written as the numbers of a span reads as these numbers.
pub proof fn lemma_read_number_values(m: MappedSpanView, rest: Seq<u8>)
    ensures
        read_ids(number_values(m) + rest) == Some(
            ((m.trace_id, m.span_id, m.parent_id), i64_value(m.start) + i64_value(m.duration) + i32_value(m.error)
                + rest),
        ),
        read_timing(i64_value(m.start) + i64_value(m.duration) + i32_value(m.error) + rest) == Some(
            ((m.start, m.duration, m.error), rest),
        ),
{
    let b5 = i32_value(m.error) + rest;
    let b4 = i64_value(m.duration) + b5;
    let b3 = i64_value(m.start) + b4;
    let b2 = u64_value(m.parent_id) + b3;
    let b1 = u64_value(m.span_id) + b2;
    lemma_group6(
        u64_value(m.trace_id),
        u64_value(m.span_id),
        u64_value(m.parent_id),
        i64_value(m.start),
        i64_value(m.duration),
        i32_value(m.error),
        rest,
    );
    lemma_read_ids(m.trace_id, m.span_id, m.parent_id, b3);
    lemma_read_timing(m.start, m.duration, m.error, rest);
}

/// Three identifiers read as they were written.
proof fn lemma_read_ids(a: u64, b: u64, c: u64, rest: Seq<u8>)
    ensures
        read_ids(u64_value(a) + (u64_value(b) + (u64_value(c) + rest))) == Some(((a, b, c), rest)),
{
    lemma_read_numbers(0, a, 0, 0, u64_value(b) + (u64_value(c) + rest));
    lemma_read_numbers(0, b, 0, 0, u64_value(c) + rest);
    lemma_read_numbers(0, c, 0, 0, rest);
}

/// Start, duration and the error flag read as they were written.
proof fn lemma_read_timing(a: i64, b: i64, c: i32, rest: Seq<u8>)
    ensures
        read_timing(i64_value(a) + (i64_value(b) + (i32_value(c) + rest))) == Some(((a, b, c), rest)),
{
    lemma_read_numbers(0, 0, 0, a, i64_value(b) + (i32_value(c) + rest));
    lemma_read_numbers(0, 0, 0, b, i32_value(c) + rest);
    lemma_read_numbers(0, 0, c, 0, rest);
}

/// An entry of `meta` reads as the indices that were written.
proof fn lemma_read_meta_entry(table: Seq<Seq<char>>, e: (Seq<char>, Seq<char>), r: Seq<u8>)
    ensures
        read_meta_entry()(meta_piece(table)(e) + r) == Some((meta_indices(table)(e), r)),
{
    let r1 = index_value(table, e.1) + r;
    lemma_append(index_value(table, e.0), index_value(table, e.1), r);
    lemma_read_index(table, e.0, r1);
    lemma_read_index(table, e.1, r);
}

/// An entry of `metrics` reads as the index and the number that were
/// written.
proof fn lemma_read_metric_entry(table: Seq<Seq<char>>, e: (Seq<char>, u64), r: Seq<u8>)
    ensures
        read_metric_entry()(metric_piece(table)(e) + r) == Some((metric_indices(table)(e), r)),
{
    let r1 = double_value(e.1) + r;
    lemma_append(index_value(table, e.0), double_value(e.1), r);
    lemma_read_index(table, e.0, r1);
    lemma_read_numbers(0, e.1, 0, 0, r);
}

/// What was written as the maps and the type of a span reads as their
/// entries by index.
pub proof fn lemma_read_maps(table: Seq<Seq<char>>, m: MappedSpanView, rest: Seq<u8>)
    requires
        maps_fit(m),
    ensures
        read_maps(meta_value(table, m) + metrics_value(table, m) + index_value(table, type_string(m)) + rest)
            == Some(
            (
                (
                    m.meta.map_values(meta_indices(table)),
                    m.metrics.map_values(metric_indices(table)),
                    index_in(table, type_string(m)),
                ),
                rest,
            ),
        ),
{
    let ty = index_value(table, type_string(m));
    let h1 = map_header(m.meta.len() as u32);
    let j1 = joined(m.meta, meta_piece(table));
    let h2 = map_header(m.metrics.len() as u32);
    let j2 = joined(m.metrics, metric_piece(table));
    let b3 = ty + rest;
    let b2 = j2 + b3;
    let b15 = h2 + b2;
    let b1 = j1 + b15;
    lemma_group_maps(h1, j1, h2, j2, ty, rest);
    lemma_read_count(m.meta.len() as u32, b1);
    lemma_read_count(m.metrics.len() as u32, b2);
    assert forall|i: int, r: Seq<u8>| 0 <= i < m.meta.len() implies #[trigger] read_meta_entry()(
        meta_piece(table)(m.meta[i]) + r,
    ) == Some((meta_indices(table)(m.meta[i]), r)) by {
        lemma_read_meta_entry(table, m.meta[i], r);
    }
    lemma_read_items(m.meta, meta_piece(table), meta_indices(table), read_meta_entry(), b15);
    assert forall|i: int, r: Seq<u8>| 0 <= i < m.metrics.len() implies #[trigger] read_metric_entry()(
        metric_piece(table)(m.metrics[i]) + r,
    ) == Some((metric_indices(table)(m.metrics[i]), r)) by {
        lemma_read_metric_entry(table, m.metrics[i], r);
    }
    lemma_read_items(m.metrics, metric_piece(table), metric_indices(table), read_metric_entry(), b3);
    lemma_read_index(table, type_string(m), rest);
}

/// Six runs of bytes and what follows them, grouped from the front.
proof fn lemma_regroup(
    a: Seq<u8>,
    n: Seq<u8>,
    u: Seq<u8>,
    m: Seq<u8>,
    x: Seq<u8>,
    t: Seq<u8>,
    rest: Seq<u8>,
)
    ensures
        a + n + u + m + x + t + rest == a + (n + (u + (m + x + t + rest))),
{
    assert(a + n + u + m + x + t + rest =~= a + (n + (u + (m + x + t + rest))));
}

/// What was written as the values of a span reads as its record.
proof fn lemma_read_span_values(
    table: Seq<Seq<char>>,
    m: MappedSpanView,
    names: Seq<u8>,
    numbers: Seq<u8>,
    maps: Seq<u8>,
    rest: Seq<u8>,
)
    requires
        read_names(names + (numbers + (maps + rest))) == Some(
            ((index_in(table, m.service), index_in(table, m.name), index_in(table, m.resource)), numbers + (maps
                + rest)),
        ),
        read_ids(numbers + (maps + rest)) == Some(
            ((m.trace_id, m.span_id, m.parent_id), i64_value(m.start) + i64_value(m.duration) + i32_value(m.error)
                + (maps + rest)),
        ),
        read_timing(i64_value(m.start) + i64_value(m.duration) + i32_value(m.error) + (maps + rest)) == Some(
            ((m.start, m.duration, m.error), maps + rest),
        ),
        read_maps(maps + rest) == Some(
            (
                (
                    m.meta.map_values(meta_indices(table)),
                    m.metrics.map_values(metric_indices(table)),
                    index_in(table, type_string(m)),
                ),
                rest,
            ),
        ),
    ensures
        read_span_values(names + (numbers + (maps + rest))) == Some((record_of(table, m), rest)),
{
}

/// What was written as a span reads as its record.
pub proof fn lemma_read_span(table: Seq<Seq<char>>, m: MappedSpanView, rest: Seq<u8>)
    requires
        maps_fit(m),
    ensures
        read_span(compact_span(table, m) + rest) == Some((record_of(table, m), rest)),
{
    let head = array_header(VALUES);
    let names = name_values(table, m);
    let numbers = number_values(m);
    let meta = meta_value(table, m);
    let metrics = metrics_value(table, m);
    let ty = index_value(table, type_string(m));
    let maps = meta + metrics + ty;
    lemma_regroup(head, names, numbers, meta, metrics, ty, rest);
    assert(maps + rest == meta + metrics + ty + rest);
    let b1 = names + (numbers + (maps + rest));
    assert(compact_span(table, m) + rest == head + b1);
    lemma_read_count(VALUES, b1);
    lemma_read_names(table, m, numbers + (maps + rest));
    lemma_read_number_values(m, maps + rest);
    lemma_read_maps(table, m, rest);
    lemma_read_span_values(table, m, names, numbers, maps, rest);
}

/// What was written as a trace reads as the records of its spans.
pub proof fn lemma_read_trace(
    table: Seq<Seq<char>>,
    spans: Seq<SpanView>,
    service: Seq<char>,
    group: Seq<usize>,
    rest: Seq<u8>,
)
    requires
        members_fit(spans, service, group),
    ensures
        trace_reader()(compact_trace(table, spans, service, group) + rest) == Some(
            (group_records(table, spans, service)(group), rest),
        ),
{
    let piece = member_piece(spans, service)(table);
    let value = member_record(table, spans, service);
    let b1 = joined(group, piece) + rest;
    assert(compact_trace(table, spans, service, group) + rest =~= array_header(group.len() as u32) + b1);
    lemma_read_count(group.len() as u32, b1);
    assert forall|k: int, r: Seq<u8>| 0 <= k < group.len() implies #[trigger] span_reader()(
        piece(group[k]) + r,
    ) == Some((value(group[k]), r)) by {
        lemma_read_span(table, mapped(spans[group[k] as int], service), r);
    }
    lemma_read_items(group, piece, value, span_reader(), rest);
}

/// With a table that holds the strings of a span and has a 32-bit length,
/// every index of the record of the span leads to its string.
pub proof fn lemma_record_resolves(table: Seq<Seq<char>>, m: MappedSpanView)
    requires
        table.len() <= TABLE_CAPACITY,
        covers(table, span_strings(m)),
    ensures
        resolves(table, record_of(table, m), m),
{
    let all = span_strings(m);
    let metas = joined(m.meta, meta_pair());
    let keys = joined(m.metrics, metric_key());
    let r = record_of(table, m);
    assert(all[0] == m.service && all[1] == m.name && all[2] == m.resource);
    assert(all[all.len() - 1] == type_string(m));
    assert forall|j: int| 0 <= j < m.meta.len() implies names(table, (#[trigger] r.meta[j]).0, m.meta[j].0)
        && names(table, r.meta[j].1, m.meta[j].1) by {
        lemma_joined_contains(m.meta, meta_pair(), j, 0);
        lemma_joined_contains(m.meta, meta_pair(), j, 1);
        assert(meta_pair()(m.meta[j])[0] == m.meta[j].0);
        assert(meta_pair()(m.meta[j])[1] == m.meta[j].1);
        let a = choose|a: int| 0 <= a < metas.len() && metas[a] == m.meta[j].0;
        let b = choose|b: int| 0 <= b < metas.len() && metas[b] == m.meta[j].1;
        assert(all[3 + a] == m.meta[j].0);
        assert(all[3 + b] == m.meta[j].1);
    }
    assert forall|j: int| 0 <= j < m.metrics.len() implies names(
        table,
        (#[trigger] r.metrics[j]).0,
        m.metrics[j].0,
    ) && r.metrics[j].1 == m.metrics[j].1 by {
        lemma_joined_contains(m.metrics, metric_key(), j, 0);
        assert(metric_key()(m.metrics[j])[0] == m.metrics[j].0);
        let a = choose|a: int| 0 <= a < keys.len() && keys[a] == m.metrics[j].0;
        assert(all[3 + metas.len() + a] == m.metrics[j].0);
    }
}

/// The table of a batch holds the strings of each of its spans.
pub proof fn lemma_table_covers(spans: Seq<SpanView>, service: Seq<char>, g: int, k: int)
    requires
        0 <= g < groups(trace_ids(spans)).len(),
        0 <= k < groups(trace_ids(spans))[g].len(),
    ensures
        covers(
            string_table(spans, service),
            span_strings(mapped(spans[groups(trace_ids(spans))[g][k] as int], service)),
        ),
{
    let gs = groups(trace_ids(spans));
    let table = string_table(spans, service);
    let own = span_strings(mapped(spans[gs[g][k] as int], service));
    let of_trace = trace_strings(spans, service, gs[g]);
    let of_batch = batch_strings(spans, service);
    assert forall|j: int| 0 <= j < own.len() implies table.contains(#[trigger] own[j]) by {
        assert(member_strings(spans, service)(gs[g][k]) == own);
        lemma_joined_contains(gs[g], member_strings(spans, service), k, j);
        let a = choose|a: int| 0 <= a < of_trace.len() && of_trace[a] == own[j];
        assert(group_strings(spans, service)(gs[g]) == of_trace);
        lemma_joined_contains(gs, group_strings(spans, service), g, a);
        lemma_covered(Seq::empty(), of_batch, own[j]);
    }
}

/// What was written as the table reads as the table.
pub proof fn lemma_read_table(table: Seq<Seq<char>>, rest: Seq<u8>)
    requires
        table.len() <= TABLE_CAPACITY,
        forall|j: int| 0 <= j < table.len() ==> str_fits(#[trigger] table[j]),
    ensures
        read_array(table_value(table) + rest, str_reader()) == Some((table, rest)),
{
    let entries = joined(table, table_piece());
    lemma_append(array_header(table.len() as u32), entries, rest);
    lemma_read_count(table.len() as u32, entries + rest);
    assert forall|i: int, r: Seq<u8>| 0 <= i < table.len() implies #[trigger] str_reader()(
        table_piece()(table[i]) + r,
    ) == Some((table[i], r)) by {
        lemma_read_str(table[i], r);
    }
    lemma_read_items(table, table_piece(), |s: Seq<char>| s, str_reader(), rest);
    assert(table.map_values(|s: Seq<char>| s) =~= table);
}

/// What was written as the traces of a batch reads as its records.
pub proof fn lemma_read_traces(table: Seq<Seq<char>>, spans: Seq<SpanView>, service: Seq<char>, rest: Seq<u8>)
    requires
        groups(trace_ids(spans)).len() <= u32::MAX,
        forall|g: int|
            0 <= g < groups(trace_ids(spans)).len() ==> members_fit(
                spans,
                service,
                #[trigger] groups(trace_ids(spans))[g],
            ),
    ensures
        read_array(compact_traces(table, spans, service) + rest, trace_reader()) == Some(
            (records(table, spans, service), rest),
        ),
{
    let gs = groups(trace_ids(spans));
    let piece = group_piece(spans, service)(table);
    let entries = joined(gs, piece);
    lemma_append(array_header(gs.len() as u32), entries, rest);
    lemma_read_count(gs.len() as u32, entries + rest);
    assert forall|g: int, r: Seq<u8>| 0 <= g < gs.len() implies #[trigger] trace_reader()(piece(gs[g]) + r)
        == Some((group_records(table, spans, service)(gs[g]), r)) by {
        lemma_read_trace(table, spans, service, gs[g], r);
    }
    lemma_read_items(gs, piece, group_records(table, spans, service), trace_reader(), rest);
}

/// Reading the compact payload of a batch gives back its table and, trace
/// by trace, the records of its spans.
pub proof fn lemma_read_payload(spans: Seq<SpanView>, service: Seq<char>)
    requires
        spans.len() <= usize::MAX,
        compact_batch_fits(spans, service),
    ensures
        read_payload(compact_payload(spans, service)) == Some(
            (string_table(spans, service), records(string_table(spans, service), spans, service)),
        ),
{
    let table = string_table(spans, service);
    let written_table = table_value(table);
    let written_traces = compact_traces(table, spans, service);
    crate::v05::lemma_compact_batch_fits(spans, service);
    lemma_group3(array_header(2), written_table, written_traces, Seq::empty());
    assert(compact_payload(spans, service) + Seq::<u8>::empty() =~= compact_payload(spans, service));
    lemma_read_count(2, written_table + (written_traces + Seq::empty()));
    lemma_read_table(table, written_traces + Seq::empty());
    lemma_read_traces(table, spans, service, Seq::empty());
}

/// Every index of a record of a batch leads, in the table of the batch, to
/// the string that the span had: among them its service, its name and its
/// resource.
pub proof fn lemma_records_resolve(spans: Seq<SpanView>, service: Seq<char>, g: int, k: int)
    requires
        string_table(spans, service).len() <= TABLE_CAPACITY,
        0 <= g < groups(trace_ids(spans)).len(),
        0 <= k < groups(trace_ids(spans))[g].len(),
    ensures
        ({
            let table = string_table(spans, service);
            let span = spans[groups(trace_ids(spans))[g][k] as int];
            let record = records(table, spans, service)[g][k];
            &&& resolves(table, record, mapped(span, service))
            &&& names(table, record.service, service)
            &&& names(table, record.name, PROVIDER_NAME@)
            &&& names(table, record.resource, span.name)
        }),
{
    let table = string_table(spans, service);
    let gs = groups(trace_ids(spans));
    lemma_table_covers(spans, service, g, k);
    lemma_record_resolves(table, mapped(spans[gs[g][k] as int], service));
    assert(records(table, spans, service)[g] == group_records(table, spans, service)(gs[g]));
    assert(records(table, spans, service)[g][k] == record_of(table, mapped(spans[gs[g][k] as int], service)));
}

/// Reading the compact payload of a batch gives back its table and its
/// records, and looking up the indices of each record in the table gives
/// back the strings of the span that it was written from.
pub proof fn lemma_compact_round_trip(spans: Seq<SpanView>, service: Seq<char>)
    requires
        spans.len() <= usize::MAX,
        compact_batch_fits(spans, service),
    ensures
        read_payload(compact_payload(spans, service)) == Some(
            (string_table(spans, service), records(string_table(spans, service), spans, service)),
        ),
        forall|g: int, k: int|
            0 <= g < groups(trace_ids(spans)).len() && 0 <= k < groups(trace_ids(spans))[g].len() ==> {
                let span = spans[groups(trace_ids(spans))[g][k] as int];
                let record = #[trigger] records(string_table(spans, service), spans, service)[g][k];
                &&& resolves(string_table(spans, service), record, mapped(span, service))
                &&& names(string_table(spans, service), record.service, service)
                &&& names(string_table(spans, service), record.name, PROVIDER_NAME@)
                &&& names(string_table(spans, service), record.resource, span.name)
            },
{
    lemma_read_payload(spans, service);
    assert forall|g: int, k: int|
        0 <= g < groups(trace_ids(spans)).len() && 0 <= k < groups(trace_ids(spans))[g].len() implies {
        let span = spans[groups(trace_ids(spans))[g][k] as int];
        let record = #[trigger] records(string_table(spans, service), spans, service)[g][k];
        &&& resolves(string_table(spans, service), record, mapped(span, service))
        &&& names(string_table(spans, service), record.service, service)
        &&& names(string_table(spans, service), record.name, PROVIDER_NAME@)
        &&& names(string_table(spans, service), record.resource, span.name)
    } by {
        lemma_records_resolve(spans, service, g, k);
    }
}

} // verus!
