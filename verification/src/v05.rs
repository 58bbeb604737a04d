//! The compact payload: an array of two, the table of all strings of the
//! batch and the array of its traces. A span is an array of twelve values in
//! a fixed order, and says each of its strings by its index in the table.

use vstd::prelude::*;
use crate::error::EncodeError;
use crate::intern::{StringInterner, TABLE_CAPACITY};
use crate::grouping::{group_by_trace, groups, in_range, lemma_groups_cover, lemma_groups_in_range,
    trace_ids};
use crate::mapping::{map_span, mapped, MappedSpan, MappedSpanView};
use crate::span::{Span, SpanView};
use crate::seen::{covers, lemma_covered, lemma_noted, lemma_noted_all, lemma_noted_all_concat, lemma_noted_all_grows,
    lemma_noted_all_len, lemma_noted_all_one, noted, noted_all};
use crate::wire::{array_header, double_value, i32_value, i64_value, joined, lemma_append,
    lemma_joined_agree, lemma_joined_contains, lemma_joined_split, lemma_joined_take,
    lemma_prefix_append, lemma_prefix_chain, lemma_prefix_grows, lemma_prefix_self, map_header,
    str_fits, str_value, u32_value, u64_value, write_array_len, write_double, write_i32, write_i64,
    write_map_len, write_str, write_u32, write_u64};

verus! {

/// The values of a span.
pub const VALUES: u32 = 12;

/// A string as a span says it: its index in `table`.
pub open spec fn index_value(table: Seq<Seq<char>>, s: Seq<char>) -> Seq<u8> {
    u32_value(table.index_of(s) as u32)
}

/// The type of a span as the table holds it: the empty string where the
/// span has none.
pub open spec fn type_string(m: MappedSpanView) -> Seq<char> {
    match m.span_type {
        Some(t) => t,
        None => Seq::empty(),
    }
}

/// Service, name and resource.
pub open spec fn name_strings(m: MappedSpanView) -> Seq<Seq<char>> {
    seq![m.service, m.name, m.resource]
}

/// The strings of one entry of `meta`.
pub open spec fn meta_pair() -> spec_fn((Seq<char>, Seq<char>)) -> Seq<Seq<char>> {
    |e: (Seq<char>, Seq<char>)| seq![e.0, e.1]
}

/// The string of one entry of `metrics`.
pub open spec fn metric_key() -> spec_fn((Seq<char>, u64)) -> Seq<Seq<char>> {
    |e: (Seq<char>, u64)| seq![e.0]
}

/// The strings of a span in the order in which they are written, and so in
/// the order in which they join the table.
pub open spec fn span_strings(m: MappedSpanView) -> Seq<Seq<char>> {
    name_strings(m) + joined(m.meta, meta_pair()) + joined(m.metrics, metric_key()) + seq![type_string(m)]
}

/// Service, name and resource by their indices.
pub open spec fn name_values(table: Seq<Seq<char>>, m: MappedSpanView) -> Seq<u8> {
    index_value(table, m.service) + index_value(table, m.name) + index_value(table, m.resource)
}

/// Identifiers, timing and the error flag.
pub open spec fn number_values(m: MappedSpanView) -> Seq<u8> {
    u64_value(m.trace_id) + u64_value(m.span_id) + u64_value(m.parent_id) + i64_value(m.start)
        + i64_value(m.duration) + i32_value(m.error)
}

/// How an entry of `meta` is written: the indices of key and value.
pub open spec fn meta_piece(table: Seq<Seq<char>>) -> spec_fn((Seq<char>, Seq<char>)) -> Seq<u8> {
    |e: (Seq<char>, Seq<char>)| index_value(table, e.0) + index_value(table, e.1)
}

/// How an entry of `metrics` is written: the index of the key, and the
/// number.
pub open spec fn metric_piece(table: Seq<Seq<char>>) -> spec_fn((Seq<char>, u64)) -> Seq<u8> {
    |e: (Seq<char>, u64)| index_value(table, e.0) + double_value(e.1)
}

/// The map `meta`; an empty one is a map of no entries.
pub open spec fn meta_value(table: Seq<Seq<char>>, m: MappedSpanView) -> Seq<u8> {
    map_header(m.meta.len() as u32) + joined(m.meta, meta_piece(table))
}

/// The map `metrics`; an empty one is a map of no entries.
pub open spec fn metrics_value(table: Seq<Seq<char>>, m: MappedSpanView) -> Seq<u8> {
    map_header(m.metrics.len() as u32) + joined(m.metrics, metric_piece(table))
}

/// One span: the array of its twelve values.
pub open spec fn compact_span(table: Seq<Seq<char>>, m: MappedSpanView) -> Seq<u8> {
    array_header(VALUES) + name_values(table, m) + number_values(m) + meta_value(table, m)
        + metrics_value(table, m) + index_value(table, type_string(m))
}

/// Whether a table that holds `table` can take the span: the maps of the
/// span have 32-bit lengths, and the table has room for its strings.
pub open spec fn compact_fits(table: Seq<Seq<char>>, m: MappedSpanView) -> bool {
    &&& m.meta.len() <= u32::MAX
    &&& m.metrics.len() <= u32::MAX
    &&& noted_all(table, span_strings(m)).len() <= TABLE_CAPACITY
}

/// A table that has grown says a string that it held by the same index.
pub proof fn lemma_index_kept(table: Seq<Seq<char>>, more: Seq<Seq<char>>, s: Seq<char>)
    requires
        table.no_duplicates(),
        table.contains(s),
    ensures
        index_value(noted_all(table, more), s) == index_value(table, s),
        noted_all(table, more).contains(s),
{
    lemma_noted_all(table, more);
    let grown = noted_all(table, more);
    let i = table.index_of(s);
    assert(grown[i] == s);
}

/// A table that has grown writes a span whose strings it held as before.
pub proof fn lemma_span_kept(table: Seq<Seq<char>>, more: Seq<Seq<char>>, m: MappedSpanView)
    requires
        table.no_duplicates(),
        covers(table, span_strings(m)),
    ensures
        compact_span(noted_all(table, more), m) == compact_span(table, m),
{
    let grown = noted_all(table, more);
    let all = span_strings(m);
    let metas = joined(m.meta, meta_pair());
    let keys = joined(m.metrics, metric_key());
    assert(all[0] == m.service && all[1] == m.name && all[2] == m.resource);
    assert(all[all.len() - 1] == type_string(m));
    lemma_index_kept(table, more, m.service);
    lemma_index_kept(table, more, m.name);
    lemma_index_kept(table, more, m.resource);
    lemma_index_kept(table, more, type_string(m));
    assert forall|i: int| 0 <= i < m.meta.len() implies meta_piece(grown)(#[trigger] m.meta[i])
        == meta_piece(table)(m.meta[i]) by {
        lemma_joined_contains(m.meta, meta_pair(), i, 0);
        lemma_joined_contains(m.meta, meta_pair(), i, 1);
        let a = choose|a: int| 0 <= a < metas.len() && metas[a] == m.meta[i].0;
        let b = choose|b: int| 0 <= b < metas.len() && metas[b] == m.meta[i].1;
        assert(all[3 + a] == m.meta[i].0);
        assert(all[3 + b] == m.meta[i].1);
        lemma_index_kept(table, more, m.meta[i].0);
        lemma_index_kept(table, more, m.meta[i].1);
    }
    assert forall|i: int| 0 <= i < m.metrics.len() implies metric_piece(grown)(#[trigger] m.metrics[i])
        == metric_piece(table)(m.metrics[i]) by {
        lemma_joined_contains(m.metrics, metric_key(), i, 0);
        let a = choose|a: int| 0 <= a < keys.len() && keys[a] == m.metrics[i].0;
        assert(all[3 + metas.len() + a] == m.metrics[i].0);
        lemma_index_kept(table, more, m.metrics[i].0);
    }
    lemma_joined_agree(m.meta, meta_piece(grown), meta_piece(table));
    lemma_joined_agree(m.metrics, metric_piece(grown), metric_piece(table));
}

/// Interns a string and appends its index.
fn write_interned(buf: &mut Vec<u8>, interner: &mut StringInterner, value: &str) -> (r: Result<
    (),
    EncodeError,
>)
    ensures
        r is Ok <==> noted(old(interner)@, value@).len() <= TABLE_CAPACITY,
        r is Ok ==> final(interner)@ == noted(old(interner)@, value@) && final(buf)@ == old(buf)@
            + index_value(final(interner)@, value@),
        final(interner)@.no_duplicates(),
        old(interner)@.no_duplicates(),
        old(buf)@.is_prefix_of(final(buf)@),
        old(interner)@.is_prefix_of(final(interner)@),
{
    proof {
        use_type_invariant(&*interner);
        interner.lemma_well_formed();
        lemma_noted(interner@, value@);
        lemma_prefix_self(buf@);
        lemma_prefix_self(interner@);
    }
    match interner.intern(value) {
        Ok(index) => {
            write_u32(buf, index);
            proof {
                lemma_prefix_append(old(buf)@, u32_value(index));
            }
            Ok(())
        },
        Err(e) => Err(e),
    }
}

/// Appends service, name and resource.
fn write_names(buf: &mut Vec<u8>, interner: &mut StringInterner, span: &MappedSpan) -> (r: Result<
    (),
    EncodeError,
>)
    ensures
        r is Ok <==> noted_all(old(interner)@, name_strings(span@)).len() <= TABLE_CAPACITY,
        r is Ok ==> final(interner)@ == noted_all(old(interner)@, name_strings(span@)) && final(buf)@
            == old(buf)@ + name_values(final(interner)@, span@),
        old(buf)@.is_prefix_of(final(buf)@),
        old(interner)@.is_prefix_of(final(interner)@),
{
    let ghost t0 = interner@;
    let ghost b0 = buf@;
    let ghost m = span@;
    let ghost names = name_strings(m);
    proof {
        assert(names.drop_last() =~= seq![m.service, m.name]);
        assert(names.drop_last().drop_last() =~= seq![m.service]);
        lemma_noted_all_one(t0, m.service);
        lemma_noted_all_grows(t0, seq![m.service], seq![m.name, m.resource]);
        lemma_noted_all_grows(t0, seq![m.service, m.name], seq![m.resource]);
        assert(seq![m.service] + seq![m.name, m.resource] =~= names);
        assert(seq![m.service, m.name] + seq![m.resource] =~= names);
    }
    if write_interned(buf, interner, span.service.as_str()).is_err() {
        return Err(EncodeError::LengthOverflow);
    }
    let ghost t1 = interner@;
    let ghost b1 = buf@;
    let second = write_interned(buf, interner, span.name.as_str());
    proof {
        lemma_prefix_chain(b0, b1, buf@);
        lemma_prefix_chain(t0, t1, interner@);
    }
    if second.is_err() {
        return Err(EncodeError::LengthOverflow);
    }
    let ghost t2 = interner@;
    let ghost b2 = buf@;
    let third = write_interned(buf, interner, span.resource.as_str());
    proof {
        lemma_prefix_chain(b0, b2, buf@);
        lemma_prefix_chain(t0, t2, interner@);
    }
    if third.is_err() {
        return Err(EncodeError::LengthOverflow);
    }
    proof {
        let t3 = interner@;
        lemma_noted(t0, m.service);
        lemma_noted(t1, m.name);
        lemma_noted(t2, m.resource);
        assert(t3 == noted_all(t0, names));
        assert(t2[t1.index_of(m.service)] == m.service);
        assert(t3[t1.index_of(m.service)] == m.service);
        assert(t3[t2.index_of(m.name)] == m.name);
        assert(buf@ =~= old(buf)@ + name_values(t3, m));
    }
    Ok(())
}

/// Appends identifiers, timing and the error flag.
fn write_numbers(buf: &mut Vec<u8>, span: &MappedSpan)
    ensures
        final(buf)@ == old(buf)@ + number_values(span@),
{
    write_u64(buf, span.trace_id);
    write_u64(buf, span.span_id);
    write_u64(buf, span.parent_id);
    write_i64(buf, span.start);
    write_i64(buf, span.duration);
    write_i32(buf, span.error);
    assert(buf@ =~= old(buf)@ + number_values(span@));
}

/// Appends the map `meta`.
fn write_meta(buf: &mut Vec<u8>, interner: &mut StringInterner, span: &MappedSpan) -> (r: Result<
    (),
    EncodeError,
>)
    requires
        span@.meta.len() <= u32::MAX,
    ensures
        r is Ok <==> noted_all(old(interner)@, joined(span@.meta, meta_pair())).len() <= TABLE_CAPACITY,
        r is Ok ==> final(interner)@ == noted_all(old(interner)@, joined(span@.meta, meta_pair()))
            && final(buf)@ == old(buf)@ + meta_value(final(interner)@, span@),
        old(buf)@.is_prefix_of(final(buf)@),
        old(interner)@.is_prefix_of(final(interner)@),
{
    let ghost t0 = interner@;
    let ghost entries = span@.meta;
    let ghost piece = |t: Seq<Seq<char>>| meta_piece(t);
    let n = span.meta.len();
    write_map_len(buf, n as u32);
    let ghost start = buf@;
    let mut i: usize = 0;
    proof {
        use_type_invariant(&*interner);
        interner.lemma_well_formed();
        lemma_meta_kept(entries);
        lemma_prefix_append(old(buf)@, map_header(n as u32));
        lemma_prefix_self(t0);
        assert(entries.take(0) =~= Seq::empty());
        assert(start + Seq::<u8>::empty() =~= start);
    }
    while i < n
        invariant
            i <= n,
            n == entries.len(),
            entries == span@.meta,
            t0 == old(interner)@,
            t0.no_duplicates(),
            piece == (|t: Seq<Seq<char>>| meta_piece(t)),
            keeps_written(entries, meta_pair(), piece),
            interner@ == noted_all(t0, joined(entries.take(i as int), meta_pair())),
            buf@ == start + joined(entries.take(i as int), meta_piece(interner@)),
            old(buf)@.is_prefix_of(buf@),
            t0.is_prefix_of(interner@),
        decreases n - i,
    {
        let ghost t = interner@;
        let ghost e = entries[i as int];
        let ghost before = buf@;
        proof {
            lemma_joined_step(t0, entries, meta_pair(), piece, i as int);
            lemma_meta_pair(t, e);
        }
        match span.meta.get_index(i) {
            Some((key, value)) => {
                let first = write_interned(buf, interner, key.as_str());
                proof {
                    lemma_prefix_chain(old(buf)@, before, buf@);
                    lemma_prefix_chain(t0, t, interner@);
                }
                if first.is_err() {
                    return Err(EncodeError::LengthOverflow);
                }
                let ghost middle = buf@;
                let ghost t1 = interner@;
                let second = write_interned(buf, interner, value.as_str());
                proof {
                    lemma_prefix_chain(old(buf)@, middle, buf@);
                    lemma_prefix_chain(t0, t1, interner@);
                }
                if second.is_err() {
                    return Err(EncodeError::LengthOverflow);
                }
            },
            None => {},
        }
        proof {
            let t1 = noted(t, e.0);
            let u = interner@;
            lemma_append(before, index_value(t1, e.0), index_value(u, e.1));
            lemma_append(start, joined(entries.take(i as int), meta_piece(t)), meta_piece(u)(e));
        }
        i += 1;
    }
    proof {
        use_type_invariant(&*interner);
        interner.lemma_well_formed();
        assert(entries.take(n as int) =~= entries);
        assert(buf@ =~= old(buf)@ + meta_value(interner@, span@));
    }
    Ok(())
}

/// Whether a way to write items goes on writing an item as before when the
/// table grows, as long as the table held the strings of the item.
pub open spec fn keeps_written<A>(
    items: Seq<A>,
    strings: spec_fn(A) -> Seq<Seq<char>>,
    piece: spec_fn(Seq<Seq<char>>) -> spec_fn(A) -> Seq<u8>,
) -> bool {
    forall|t: Seq<Seq<char>>, more: Seq<Seq<char>>, j: int|
        0 <= j < items.len() && t.no_duplicates() && covers(t, strings(items[j])) ==> #[trigger] piece(
            noted_all(t, more),
        )(items[j]) == piece(t)(items[j])
}

/// One item more: what the table becomes, that it only grows towards the
/// table of all items, and what is written.
pub proof fn lemma_joined_step<A>(
    t0: Seq<Seq<char>>,
    items: Seq<A>,
    strings: spec_fn(A) -> Seq<Seq<char>>,
    piece: spec_fn(Seq<Seq<char>>) -> spec_fn(A) -> Seq<u8>,
    i: int,
)
    requires
        t0.no_duplicates(),
        0 <= i < items.len(),
        keeps_written(items, strings, piece),
    ensures
        ({
            let t = noted_all(t0, joined(items.take(i), strings));
            let u = noted_all(t, strings(items[i]));
            &&& t.no_duplicates()
            &&& u.no_duplicates()
            &&& u == noted_all(t0, joined(items.take(i + 1), strings))
            &&& t.len() <= u.len()
            &&& u.len() <= noted_all(t0, joined(items, strings)).len()
            &&& joined(items.take(i + 1), piece(u)) == joined(items.take(i), piece(t)) + piece(u)(items[i])
        }),
{
    let front = items.take(i);
    let done = joined(front, strings);
    let t = noted_all(t0, done);
    let new = strings(items[i]);
    let u = noted_all(t, new);
    let rest = joined(items.skip(i + 1), strings);
    lemma_noted_all(t0, done);
    lemma_noted_all(t, new);
    lemma_noted_all_len(t, new);
    lemma_joined_take(items, strings, i);
    lemma_noted_all_concat(t0, done, new);
    lemma_joined_split(items, strings, i + 1);
    lemma_noted_all_grows(t0, done + new, rest);
    assert forall|j: int| 0 <= j < front.len() implies piece(u)(#[trigger] front[j]) == piece(t)(front[j]) by {
        assert(front[j] == items[j]);
        assert forall|k: int| 0 <= k < strings(items[j]).len() implies t.contains(
            #[trigger] strings(items[j])[k],
        ) by {
            lemma_joined_contains(front, strings, j, k);
            lemma_covered(t0, done, strings(items[j])[k]);
        }
        assert(covers(t, strings(items[j])));
        assert(piece(noted_all(t, new))(items[j]) == piece(t)(items[j]));
    }
    lemma_joined_agree(front, piece(u), piece(t));
    lemma_joined_take(items, piece(u), i);
}

/// A table that has grown writes items whose strings it held as before.
pub proof fn lemma_joined_kept<A>(
    t: Seq<Seq<char>>,
    more: Seq<Seq<char>>,
    items: Seq<A>,
    strings: spec_fn(A) -> Seq<Seq<char>>,
    piece: spec_fn(Seq<Seq<char>>) -> spec_fn(A) -> Seq<u8>,
)
    requires
        t.no_duplicates(),
        covers(t, joined(items, strings)),
        keeps_written(items, strings, piece),
    ensures
        joined(items, piece(noted_all(t, more))) == joined(items, piece(t)),
{
    let whole = joined(items, strings);
    assert forall|j: int| 0 <= j < items.len() implies piece(noted_all(t, more))(#[trigger] items[j])
        == piece(t)(items[j]) by {
        assert forall|k: int| 0 <= k < strings(items[j]).len() implies t.contains(
            #[trigger] strings(items[j])[k],
        ) by {
            lemma_joined_contains(items, strings, j, k);
            let a = choose|a: int| 0 <= a < whole.len() && whole[a] == strings(items[j])[k];
            assert(t.contains(whole[a]));
        }
        assert(covers(t, strings(items[j])));
    }
    lemma_joined_agree(items, piece(noted_all(t, more)), piece(t));
}

/// An entry of `meta` is written as before when the table grows.
pub proof fn lemma_meta_kept(entries: Seq<(Seq<char>, Seq<char>)>)
    ensures
        keeps_written(entries, meta_pair(), |t: Seq<Seq<char>>| meta_piece(t)),
{
    assert forall|t: Seq<Seq<char>>, more: Seq<Seq<char>>, j: int|
        0 <= j < entries.len() && t.no_duplicates() && covers(t, meta_pair()(entries[j])) implies (
    #[trigger] meta_piece(noted_all(t, more))(entries[j])) == meta_piece(t)(entries[j]) by {
        assert(meta_pair()(entries[j])[0] == entries[j].0);
        assert(meta_pair()(entries[j])[1] == entries[j].1);
        lemma_index_kept(t, more, entries[j].0);
        lemma_index_kept(t, more, entries[j].1);
    }
}

/// Key and value of an entry of `meta`, noted one after the other, are
/// noted as the strings of the entry; and the key keeps the index that it
/// got.
proof fn lemma_meta_pair(t: Seq<Seq<char>>, e: (Seq<char>, Seq<char>))
    requires
        t.no_duplicates(),
    ensures
        noted(noted(t, e.0), e.1) == noted_all(t, meta_pair()(e)),
        noted(t, e.0).len() <= noted(noted(t, e.0), e.1).len(),
        index_value(noted(t, e.0), e.0) + index_value(noted(noted(t, e.0), e.1), e.1) == meta_piece(
            noted(noted(t, e.0), e.1),
        )(e),
{
    let t1 = noted(t, e.0);
    lemma_noted(t, e.0);
    lemma_noted_all_one(t, e.0);
    lemma_noted_all_one(t1, e.1);
    lemma_noted_all_concat(t, seq![e.0], seq![e.1]);
    assert(seq![e.0] + seq![e.1] =~= meta_pair()(e));
    lemma_index_kept(t1, seq![e.1], e.0);
}

/// An entry of `metrics` is written as before when the table grows.
pub proof fn lemma_metrics_kept(entries: Seq<(Seq<char>, u64)>)
    ensures
        keeps_written(entries, metric_key(), |t: Seq<Seq<char>>| metric_piece(t)),
{
    assert forall|t: Seq<Seq<char>>, more: Seq<Seq<char>>, j: int|
        0 <= j < entries.len() && t.no_duplicates() && covers(t, metric_key()(entries[j])) implies (
    #[trigger] metric_piece(noted_all(t, more))(entries[j])) == metric_piece(t)(entries[j]) by {
        assert(metric_key()(entries[j])[0] == entries[j].0);
        lemma_index_kept(t, more, entries[j].0);
    }
}

/// Appends the map `metrics`.
fn write_metrics(buf: &mut Vec<u8>, interner: &mut StringInterner, span: &MappedSpan) -> (r: Result<
    (),
    EncodeError,
>)
    requires
        span@.metrics.len() <= u32::MAX,
    ensures
        r is Ok <==> noted_all(old(interner)@, joined(span@.metrics, metric_key())).len() <= TABLE_CAPACITY,
        r is Ok ==> final(interner)@ == noted_all(old(interner)@, joined(span@.metrics, metric_key()))
            && final(buf)@ == old(buf)@ + metrics_value(final(interner)@, span@),
        old(buf)@.is_prefix_of(final(buf)@),
        old(interner)@.is_prefix_of(final(interner)@),
{
    let ghost t0 = interner@;
    let ghost entries = span@.metrics;
    let ghost piece = |t: Seq<Seq<char>>| metric_piece(t);
    let n = span.metrics.len();
    write_map_len(buf, n as u32);
    let ghost start = buf@;
    let mut i: usize = 0;
    proof {
        use_type_invariant(&*interner);
        interner.lemma_well_formed();
        lemma_metrics_kept(entries);
        lemma_prefix_append(old(buf)@, map_header(n as u32));
        lemma_prefix_self(t0);
        assert(entries.take(0) =~= Seq::empty());
        assert(start + Seq::<u8>::empty() =~= start);
    }
    while i < n
        invariant
            i <= n,
            n == entries.len(),
            entries == span@.metrics,
            t0 == old(interner)@,
            t0.no_duplicates(),
            piece == (|t: Seq<Seq<char>>| metric_piece(t)),
            keeps_written(entries, metric_key(), piece),
            interner@ == noted_all(t0, joined(entries.take(i as int), metric_key())),
            buf@ == start + joined(entries.take(i as int), metric_piece(interner@)),
            old(buf)@.is_prefix_of(buf@),
            t0.is_prefix_of(interner@),
        decreases n - i,
    {
        let ghost t = interner@;
        let ghost e = entries[i as int];
        let ghost before = buf@;
        proof {
            lemma_joined_step(t0, entries, metric_key(), piece, i as int);
            lemma_noted_all_one(t, e.0);
            assert(metric_key()(e) =~= seq![e.0]);
        }
        match span.metrics.get_index(i) {
            Some((key, value)) => {
                let first = write_interned(buf, interner, key.as_str());
                proof {
                    lemma_prefix_chain(old(buf)@, before, buf@);
                    lemma_prefix_chain(t0, t, interner@);
                }
                if first.is_err() {
                    return Err(EncodeError::LengthOverflow);
                }
                proof {
                    lemma_prefix_grows(old(buf)@, buf@, double_value(*value));
                }
                write_double(buf, *value);
            },
            None => {},
        }
        proof {
            let u = interner@;
            assert(buf@ =~= before + metric_piece(u)(e));
            lemma_append(start, joined(entries.take(i as int), metric_piece(t)), metric_piece(u)(e));
        }
        i += 1;
    }
    proof {
        use_type_invariant(&*interner);
        interner.lemma_well_formed();
        assert(entries.take(n as int) =~= entries);
        assert(buf@ =~= old(buf)@ + metrics_value(interner@, span@));
    }
    Ok(())
}

/// The tables that a span leads through, from its names over its maps to
/// its type, and what each part writes in the end.
proof fn lemma_span_parts(t0: Seq<Seq<char>>, m: MappedSpanView)
    requires
        t0.no_duplicates(),
    ensures
        ({
            let t1 = noted_all(t0, name_strings(m));
            let t2 = noted_all(t1, joined(m.meta, meta_pair()));
            let t3 = noted_all(t2, joined(m.metrics, metric_key()));
            let t4 = noted(t3, type_string(m));
            &&& t4 == noted_all(t0, span_strings(m))
            &&& t1.len() <= t2.len() <= t3.len() <= t4.len()
            &&& name_values(t4, m) == name_values(t1, m)
            &&& meta_value(t4, m) == meta_value(t2, m)
            &&& metrics_value(t4, m) == metrics_value(t3, m)
            &&& covers(t4, span_strings(m))
            &&& t4.no_duplicates()
        }),
{
    let names = name_strings(m);
    let metas = joined(m.meta, meta_pair());
    let keys = joined(m.metrics, metric_key());
    let ty = type_string(m);
    let t1 = noted_all(t0, names);
    let t2 = noted_all(t1, metas);
    let t3 = noted_all(t2, keys);
    let t4 = noted(t3, ty);
    lemma_noted_all(t0, names);
    lemma_noted_all(t1, metas);
    lemma_noted_all(t2, keys);
    lemma_noted(t3, ty);
    lemma_noted_all_one(t3, ty);
    lemma_noted_all_len(t1, metas);
    lemma_noted_all_len(t2, keys);
    lemma_noted_all_concat(t0, names, metas);
    lemma_noted_all_concat(t0, names + metas, keys);
    lemma_noted_all_concat(t0, names + metas + keys, seq![ty]);
    lemma_noted_all(t0, span_strings(m));
    // the names
    lemma_noted_all_concat(t1, metas, keys);
    lemma_noted_all_concat(t1, metas + keys, seq![ty]);
    assert(names[0] == m.service && names[1] == m.name && names[2] == m.resource);
    lemma_index_kept(t1, metas + keys + seq![ty], m.service);
    lemma_index_kept(t1, metas + keys + seq![ty], m.name);
    lemma_index_kept(t1, metas + keys + seq![ty], m.resource);
    // meta
    lemma_noted_all_concat(t2, keys, seq![ty]);
    assert forall|i: int| 0 <= i < m.meta.len() implies meta_piece(t4)(#[trigger] m.meta[i]) == meta_piece(
        t2,
    )(m.meta[i]) by {
        lemma_joined_contains(m.meta, meta_pair(), i, 0);
        lemma_joined_contains(m.meta, meta_pair(), i, 1);
        assert(meta_pair()(m.meta[i])[0] == m.meta[i].0);
        assert(meta_pair()(m.meta[i])[1] == m.meta[i].1);
        lemma_covered(t1, metas, m.meta[i].0);
        lemma_covered(t1, metas, m.meta[i].1);
        lemma_index_kept(t2, keys + seq![ty], m.meta[i].0);
        lemma_index_kept(t2, keys + seq![ty], m.meta[i].1);
    }
    lemma_joined_agree(m.meta, meta_piece(t4), meta_piece(t2));
    // metrics
    assert forall|i: int| 0 <= i < m.metrics.len() implies metric_piece(t4)(#[trigger] m.metrics[i])
        == metric_piece(t3)(m.metrics[i]) by {
        lemma_joined_contains(m.metrics, metric_key(), i, 0);
        assert(metric_key()(m.metrics[i])[0] == m.metrics[i].0);
        lemma_covered(t2, keys, m.metrics[i].0);
        lemma_index_kept(t3, seq![ty], m.metrics[i].0);
    }
    lemma_joined_agree(m.metrics, metric_piece(t4), metric_piece(t3));
}

/// Appends one span as the array of its values, and notes its strings in
/// the table. Whatever the outcome, what the buffer and the table held
/// stays at their front.
pub fn encode_span(buf: &mut Vec<u8>, interner: &mut StringInterner, span: &MappedSpan) -> (r: Result<
    (),
    EncodeError,
>)
    ensures
        r is Ok <==> compact_fits(old(interner)@, span@),
        r is Ok ==> final(interner)@ == noted_all(old(interner)@, span_strings(span@)) && final(buf)@
            == old(buf)@ + compact_span(final(interner)@, span@),
        old(buf)@.is_prefix_of(final(buf)@),
        old(interner)@.is_prefix_of(final(interner)@),
{
    let ghost m = span@;
    let ghost start = buf@;
    let ghost t0 = interner@;
    proof {
        use_type_invariant(&*interner);
        interner.lemma_well_formed();
        lemma_span_parts(t0, m);
        lemma_prefix_self(start);
        lemma_prefix_self(t0);
    }
    if span.meta.len() > u32::MAX as usize || span.metrics.len() > u32::MAX as usize {
        return Err(EncodeError::LengthOverflow);
    }
    write_array_len(buf, VALUES);
    let ghost acc = array_header(VALUES);
    let ghost before = buf@;
    let names = write_names(buf, interner, span);
    proof {
        lemma_prefix_append(start, acc);
        lemma_prefix_chain(start, before, buf@);
    }
    if names.is_err() {
        return Err(EncodeError::LengthOverflow);
    }
    let ghost t1 = interner@;
    proof {
        lemma_append(start, acc, name_values(t1, m));
    }
    let ghost acc = acc + name_values(t1, m);
    write_numbers(buf, span);
    proof {
        lemma_append(start, acc, number_values(m));
        lemma_prefix_append(start, acc + number_values(m));
    }
    let ghost acc = acc + number_values(m);
    let ghost before = buf@;
    let meta = write_meta(buf, interner, span);
    proof {
        lemma_prefix_chain(start, before, buf@);
        lemma_prefix_chain(t0, t1, interner@);
    }
    if meta.is_err() {
        return Err(EncodeError::LengthOverflow);
    }
    let ghost t2 = interner@;
    proof {
        lemma_append(start, acc, meta_value(t2, m));
    }
    let ghost acc = acc + meta_value(t2, m);
    let ghost before = buf@;
    let metrics = write_metrics(buf, interner, span);
    proof {
        lemma_prefix_chain(start, before, buf@);
        lemma_prefix_chain(t0, t2, interner@);
    }
    if metrics.is_err() {
        return Err(EncodeError::LengthOverflow);
    }
    let ghost t3 = interner@;
    proof {
        lemma_append(start, acc, metrics_value(t3, m));
    }
    let ghost acc = acc + metrics_value(t3, m);
    let ghost before = buf@;
    let written = match &span.span_type {
        Some(t) => write_interned(buf, interner, t.as_str()),
        None => write_interned(buf, interner, ""),
    };
    proof {
        reveal_strlit("");
        assert(""@ =~= Seq::<char>::empty());
        lemma_prefix_chain(start, before, buf@);
        lemma_prefix_chain(t0, t3, interner@);
    }
    if written.is_err() {
        return Err(EncodeError::LengthOverflow);
    }
    proof {
        let t4 = interner@;
        lemma_append(start, acc, index_value(t4, type_string(m)));
        use_type_invariant(&*interner);
        interner.lemma_well_formed();
    }
    Ok(())
}

/// The maps of a span have 32-bit lengths.
pub open spec fn maps_fit(m: MappedSpanView) -> bool {
    m.meta.len() <= u32::MAX && m.metrics.len() <= u32::MAX
}

/// The strings of the span at a position of the batch.
pub open spec fn member_strings(spans: Seq<SpanView>, service: Seq<char>) -> spec_fn(usize) -> Seq<
    Seq<char>,
> {
    |i: usize| span_strings(mapped(spans[i as int], service))
}

/// How the span at a position of the batch is written with a table.
pub open spec fn member_piece(spans: Seq<SpanView>, service: Seq<char>) -> spec_fn(Seq<Seq<char>>) -> spec_fn(
    usize,
) -> Seq<u8> {
    |table: Seq<Seq<char>>| |i: usize| compact_span(table, mapped(spans[i as int], service))
}

/// The strings of the trace of the spans at the positions `group`, in the
/// order in which they are written.
pub open spec fn trace_strings(spans: Seq<SpanView>, service: Seq<char>, group: Seq<usize>) -> Seq<
    Seq<char>,
> {
    joined(group, member_strings(spans, service))
}

/// One trace: the array of the spans at the positions `group`.
pub open spec fn compact_trace(
    table: Seq<Seq<char>>,
    spans: Seq<SpanView>,
    service: Seq<char>,
    group: Seq<usize>,
) -> Seq<u8> {
    array_header(group.len() as u32) + joined(group, member_piece(spans, service)(table))
}

/// The trace has a 32-bit length, and so have the maps of its spans.
pub open spec fn members_fit(spans: Seq<SpanView>, service: Seq<char>, group: Seq<usize>) -> bool {
    &&& group.len() <= u32::MAX
    &&& forall|k: int| 0 <= k < group.len() ==> maps_fit(mapped(spans[(#[trigger] group[k]) as int], service))
}

/// Whether a table that holds `table` can take the trace.
pub open spec fn compact_trace_fits(
    table: Seq<Seq<char>>,
    spans: Seq<SpanView>,
    service: Seq<char>,
    group: Seq<usize>,
) -> bool {
    &&& members_fit(spans, service, group)
    &&& noted_all(table, trace_strings(spans, service, group)).len() <= TABLE_CAPACITY
}

/// The strings of a trace, for each group of positions.
pub open spec fn group_strings(spans: Seq<SpanView>, service: Seq<char>) -> spec_fn(Seq<usize>) -> Seq<
    Seq<char>,
> {
    |group: Seq<usize>| trace_strings(spans, service, group)
}

/// How a trace is written with a table, for each group of positions.
pub open spec fn group_piece(spans: Seq<SpanView>, service: Seq<char>) -> spec_fn(Seq<Seq<char>>) -> spec_fn(
    Seq<usize>,
) -> Seq<u8> {
    |table: Seq<Seq<char>>| |group: Seq<usize>| compact_trace(table, spans, service, group)
}

/// The strings of a batch, in the order in which they are written.
pub open spec fn batch_strings(spans: Seq<SpanView>, service: Seq<char>) -> Seq<Seq<char>> {
    joined(groups(trace_ids(spans)), group_strings(spans, service))
}

/// The string table of a batch: its strings, each once, in the order in
/// which they are first written.
pub open spec fn string_table(spans: Seq<SpanView>, service: Seq<char>) -> Seq<Seq<char>> {
    noted_all(Seq::empty(), batch_strings(spans, service))
}

/// The array of the traces of a batch.
pub open spec fn compact_traces(table: Seq<Seq<char>>, spans: Seq<SpanView>, service: Seq<char>) -> Seq<u8> {
    array_header(groups(trace_ids(spans)).len() as u32) + joined(
        groups(trace_ids(spans)),
        group_piece(spans, service)(table),
    )
}

/// How a string of the table is written: in full.
pub open spec fn table_piece() -> spec_fn(Seq<char>) -> Seq<u8> {
    |s: Seq<char>| str_value(s)
}

/// The table: the array of its strings.
pub open spec fn table_value(table: Seq<Seq<char>>) -> Seq<u8> {
    array_header(table.len() as u32) + joined(table, table_piece())
}

/// The payload: the array of the table and the traces.
pub open spec fn compact_payload(spans: Seq<SpanView>, service: Seq<char>) -> Seq<u8> {
    array_header(2) + table_value(string_table(spans, service)) + compact_traces(
        string_table(spans, service),
        spans,
        service,
    )
}

/// Whether a table that holds `table` can take the traces of the batch.
pub open spec fn compact_traces_fit(table: Seq<Seq<char>>, spans: Seq<SpanView>, service: Seq<char>) -> bool {
    &&& groups(trace_ids(spans)).len() <= u32::MAX
    &&& forall|g: int|
        0 <= g < groups(trace_ids(spans)).len() ==> members_fit(
            spans,
            service,
            #[trigger] groups(trace_ids(spans))[g],
        )
    &&& noted_all(table, batch_strings(spans, service)).len() <= TABLE_CAPACITY
}

/// Whether the format can carry the batch: the batch, each of its traces,
/// the maps of each of its spans and its string table have 32-bit lengths,
/// and so has every string of the table.
pub open spec fn compact_batch_fits(spans: Seq<SpanView>, service: Seq<char>) -> bool {
    &&& groups(trace_ids(spans)).len() <= u32::MAX
    &&& forall|g: int|
        0 <= g < groups(trace_ids(spans)).len() ==> (#[trigger] groups(trace_ids(spans))[g]).len()
            <= u32::MAX
    &&& forall|i: int| 0 <= i < spans.len() ==> maps_fit(mapped(#[trigger] spans[i], service))
    &&& string_table(spans, service).len() <= TABLE_CAPACITY
    &&& forall|j: int|
        0 <= j < string_table(spans, service).len() ==> str_fits(#[trigger] string_table(spans, service)[j])
}

/// The table of a batch holds no string twice, so that spans with the same
/// string name it by the same index.
pub proof fn lemma_table_distinct(spans: Seq<SpanView>, service: Seq<char>)
    ensures
        string_table(spans, service).no_duplicates(),
        covers(string_table(spans, service), batch_strings(spans, service)),
{
    lemma_noted_all(Seq::<Seq<char>>::empty(), batch_strings(spans, service));
}

/// A span is written as before when the table grows.
pub proof fn lemma_members_kept(spans: Seq<SpanView>, service: Seq<char>, group: Seq<usize>)
    ensures
        keeps_written(group, member_strings(spans, service), member_piece(spans, service)),
{
    let strings = member_strings(spans, service);
    let piece = member_piece(spans, service);
    assert forall|t: Seq<Seq<char>>, more: Seq<Seq<char>>, j: int|
        0 <= j < group.len() && t.no_duplicates() && covers(t, strings(group[j])) implies (#[trigger] piece(
        noted_all(t, more),
    )(group[j])) == piece(t)(group[j]) by {
        lemma_span_kept(t, more, mapped(spans[group[j] as int], service));
    }
}

/// A trace is written as before when the table grows.
pub proof fn lemma_groups_kept(spans: Seq<SpanView>, service: Seq<char>, gs: Seq<Seq<usize>>)
    ensures
        keeps_written(gs, group_strings(spans, service), group_piece(spans, service)),
{
    let strings = group_strings(spans, service);
    let piece = group_piece(spans, service);
    assert forall|t: Seq<Seq<char>>, more: Seq<Seq<char>>, j: int|
        0 <= j < gs.len() && t.no_duplicates() && covers(t, strings(gs[j])) implies (#[trigger] piece(
        noted_all(t, more),
    )(gs[j])) == piece(t)(gs[j]) by {
        lemma_members_kept(spans, service, gs[j]);
        lemma_joined_kept(t, more, gs[j], member_strings(spans, service), member_piece(spans, service));
    }
}

/// The maps of all spans of a batch fit where those of the spans of each of
/// its traces do.
pub proof fn lemma_compact_batch_fits(spans: Seq<SpanView>, service: Seq<char>)
    requires
        spans.len() <= usize::MAX,
    ensures
        compact_batch_fits(spans, service) <==> compact_traces_fit(Seq::empty(), spans, service) && forall|
            j: int,
        |
            0 <= j < string_table(spans, service).len() ==> str_fits(
                #[trigger] string_table(spans, service)[j],
            ),
{
    let ids = trace_ids(spans);
    let gs = groups(ids);
    lemma_groups_cover(ids);
    lemma_groups_in_range(ids);
    if compact_batch_fits(spans, service) {
        assert forall|g: int| 0 <= g < gs.len() implies members_fit(spans, service, #[trigger] gs[g]) by {
            assert(in_range(gs[g], ids.len()));
        }
    }
    if compact_traces_fit(Seq::empty(), spans, service) {
        assert forall|i: int| 0 <= i < spans.len() implies maps_fit(mapped(#[trigger] spans[i], service)) by {
            assert(ids[i] == spans[i].trace_id);
            let j = crate::grouping::traces(ids).index_of(ids[i]);
            assert(gs[j].contains(i as usize));
            assert(members_fit(spans, service, gs[j]));
            let k = choose|k: int| 0 <= k < gs[j].len() && gs[j][k] == i as usize;
            assert(maps_fit(mapped(spans[gs[j][k] as int], service)));
        }
        assert forall|g: int| 0 <= g < gs.len() implies (#[trigger] gs[g]).len() <= u32::MAX by {
            assert(members_fit(spans, service, gs[g]));
        }
    }
}

/// Appends one trace: the array of the spans at the positions `group`.
fn encode_trace(
    buf: &mut Vec<u8>,
    interner: &mut StringInterner,
    service_name: &str,
    spans: &Vec<Span>,
    group: &Vec<usize>,
) -> (r: Result<(), EncodeError>)
    requires
        in_range(group@, spans@.len()),
    ensures
        r is Ok <==> compact_trace_fits(old(interner)@, spans.deep_view(), service_name@, group@),
        r is Ok ==> final(interner)@ == noted_all(
            old(interner)@,
            trace_strings(spans.deep_view(), service_name@, group@),
        ) && final(buf)@ == old(buf)@ + compact_trace(
            final(interner)@,
            spans.deep_view(),
            service_name@,
            group@,
        ),
{
    let ghost all = spans.deep_view();
    let ghost service = service_name@;
    let ghost t0 = interner@;
    let ghost strings = member_strings(all, service);
    let ghost piece = member_piece(all, service);
    let n = group.len();
    if n > u32::MAX as usize {
        return Err(EncodeError::LengthOverflow);
    }
    write_array_len(buf, n as u32);
    let ghost start = buf@;
    let mut k: usize = 0;
    proof {
        use_type_invariant(&*interner);
        interner.lemma_well_formed();
        lemma_members_kept(all, service, group@);
        assert(group@.take(0) =~= Seq::empty());
    }
    while k < n
        invariant
            k <= n,
            n == group@.len(),
            n <= u32::MAX,
            all == spans.deep_view(),
            service == service_name@,
            t0 == old(interner)@,
            t0.no_duplicates(),
            strings == member_strings(all, service),
            piece == member_piece(all, service),
            keeps_written(group@, strings, piece),
            in_range(group@, spans@.len()),
            interner@ == noted_all(t0, joined(group@.take(k as int), strings)),
            buf@ == start + joined(group@.take(k as int), piece(interner@)),
            forall|j: int| 0 <= j < k ==> maps_fit(mapped(all[(#[trigger] group@[j]) as int], service)),
        decreases n - k,
    {
        let ghost t = interner@;
        let ghost before = buf@;
        proof {
            lemma_joined_step(t0, group@, strings, piece, k as int);
        }
        let i = group[k];
        let span = map_span(&spans[i], service_name);
        assert(span@ == mapped(all[i as int], service));
        if encode_span(buf, interner, &span).is_err() {
            return Err(EncodeError::LengthOverflow);
        }
        proof {
            let u = interner@;
            assert(buf@ == before + piece(u)(group@[k as int]));
            lemma_append(start, joined(group@.take(k as int), piece(t)), piece(u)(group@[k as int]));
        }
        k += 1;
    }
    proof {
        use_type_invariant(&*interner);
        interner.lemma_well_formed();
        assert(group@.take(n as int) =~= group@);
        assert(buf@ =~= old(buf)@ + compact_trace(interner@, all, service, group@));
    }
    Ok(())
}

/// Appends the array of the traces of a batch, and notes their strings in
/// the table.
fn encode_traces(buf: &mut Vec<u8>, interner: &mut StringInterner, service_name: &str, spans: &Vec<Span>) -> (r:
    Result<(), EncodeError>)
    ensures
        r is Ok <==> compact_traces_fit(old(interner)@, spans.deep_view(), service_name@),
        r is Ok ==> final(interner)@ == noted_all(
            old(interner)@,
            batch_strings(spans.deep_view(), service_name@),
        ) && final(buf)@ == old(buf)@ + compact_traces(final(interner)@, spans.deep_view(), service_name@),
{
    let ghost all = spans.deep_view();
    let ghost service = service_name@;
    let ghost t0 = interner@;
    let ghost gs = groups(trace_ids(all));
    let ghost strings = group_strings(all, service);
    let ghost piece = group_piece(all, service);
    let grouped = group_by_trace(spans);
    let n = grouped.len();
    proof {
        assert(trace_ids(all).len() == spans.len());
        lemma_groups_in_range(trace_ids(all));
    }
    if n > u32::MAX as usize {
        return Err(EncodeError::LengthOverflow);
    }
    write_array_len(buf, n as u32);
    let ghost start = buf@;
    let mut g: usize = 0;
    proof {
        use_type_invariant(&*interner);
        interner.lemma_well_formed();
        lemma_groups_kept(all, service, gs);
        assert(gs.take(0) =~= Seq::empty());
    }
    while g < n
        invariant
            g <= n,
            n == grouped@.len(),
            n == gs.len(),
            n <= u32::MAX,
            all == spans.deep_view(),
            service == service_name@,
            gs == groups(trace_ids(all)),
            t0 == old(interner)@,
            t0.no_duplicates(),
            strings == group_strings(all, service),
            piece == group_piece(all, service),
            keeps_written(gs, strings, piece),
            forall|j: int| 0 <= j < grouped@.len() ==> (#[trigger] grouped@[j])@ == gs[j],
            forall|j: int| 0 <= j < gs.len() ==> in_range(#[trigger] gs[j], spans@.len()),
            interner@ == noted_all(t0, joined(gs.take(g as int), strings)),
            buf@ == start + joined(gs.take(g as int), piece(interner@)),
            forall|j: int| 0 <= j < g ==> members_fit(all, service, #[trigger] gs[j]),
        decreases n - g,
    {
        let ghost t = interner@;
        let ghost before = buf@;
        proof {
            lemma_joined_step(t0, gs, strings, piece, g as int);
        }
        let group = &grouped[g];
        assert(group@ == gs[g as int]);
        if encode_trace(buf, interner, service_name, spans, group).is_err() {
            return Err(EncodeError::LengthOverflow);
        }
        proof {
            let u = interner@;
            assert(buf@ == before + piece(u)(gs[g as int]));
            lemma_append(start, joined(gs.take(g as int), piece(t)), piece(u)(gs[g as int]));
        }
        g += 1;
    }
    proof {
        use_type_invariant(&*interner);
        interner.lemma_well_formed();
        assert(gs.take(n as int) =~= gs);
        assert(buf@ =~= old(buf)@ + compact_traces(interner@, all, service));
    }
    Ok(())
}

/// Appends the table: the array of its strings.
fn write_table(buf: &mut Vec<u8>, table: &Vec<String>) -> (r: Result<(), EncodeError>)
    requires
        table@.len() <= TABLE_CAPACITY,
    ensures
        r is Ok <==> forall|j: int| 0 <= j < table@.len() ==> str_fits((#[trigger] table@[j])@),
        r is Ok ==> final(buf)@ == old(buf)@ + table_value(table.deep_view()),
{
    let ghost strings = table.deep_view();
    let n = table.len();
    write_array_len(buf, n as u32);
    let ghost start = buf@;
    let mut j: usize = 0;
    assert(strings.take(0) =~= Seq::empty());
    while j < n
        invariant
            j <= n,
            n == table@.len(),
            strings == table.deep_view(),
            strings.len() == n,
            buf@ == start + joined(strings.take(j as int), table_piece()),
            forall|i: int| 0 <= i < j ==> str_fits((#[trigger] table@[i])@),
        decreases n - j,
    {
        proof {
            lemma_joined_take(strings, table_piece(), j as int);
            assert(strings[j as int] == table@[j as int]@);
        }
        let ghost before = buf@;
        if write_str(buf, table[j].as_str()).is_err() {
            return Err(EncodeError::LengthOverflow);
        }
        proof {
            lemma_append(start, joined(strings.take(j as int), table_piece()), str_value(strings[j as int]));
        }
        j += 1;
    }
    proof {
        assert(strings.take(n as int) =~= strings);
        assert(buf@ =~= old(buf)@ + table_value(strings));
    }
    Ok(())
}

/// The compact payload of a batch, or an error where the format cannot
/// carry the batch.
pub fn encode(service_name: &str, spans: &Vec<Span>) -> (r: Result<Vec<u8>, EncodeError>)
    ensures
        r is Ok <==> compact_batch_fits(spans.deep_view(), service_name@),
        r matches Ok(bytes) ==> bytes@ == compact_payload(spans.deep_view(), service_name@),
{
    let ghost all = spans.deep_view();
    let ghost service = service_name@;
    let mut interner = StringInterner::new();
    let mut traces: Vec<u8> = Vec::new();
    proof {
        assert(all.len() == spans.len());
        lemma_compact_batch_fits(all, service);
    }
    if encode_traces(&mut traces, &mut interner, service_name, spans).is_err() {
        return Err(EncodeError::LengthOverflow);
    }
    let ghost table_view = interner@;
    proof {
        use_type_invariant(&interner);
        interner.lemma_well_formed();
    }
    let table = interner.drain();
    assert(table.deep_view() =~= table_view);
    let mut payload: Vec<u8> = Vec::new();
    write_array_len(&mut payload, 2);
    if write_table(&mut payload, &table).is_err() {
        proof {
            let j = choose|j: int| 0 <= j < table@.len() && !str_fits((#[trigger] table@[j])@);
            assert(!str_fits(table_view[j]));
        }
        return Err(EncodeError::LengthOverflow);
    }
    proof {
        assert forall|j: int| 0 <= j < table_view.len() implies str_fits(#[trigger] table_view[j]) by {
            assert(str_fits(table@[j]@));
        }
    }
    payload.append(&mut traces);
    assert(payload@ =~= compact_payload(all, service));
    Ok(payload)
}

} // verus!
