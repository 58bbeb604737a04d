//! The verbose payload: every span is a map from the names of its fields to
//! their values, written out in full; the spans of a trace form an array, and
//! the traces of the batch form the array that is the payload.

use vstd::prelude::*;
use crate::error::EncodeError;
use crate::grouping::{group_by_trace, groups, in_range, lemma_groups_cover, lemma_groups_in_range,
    trace_ids};
use crate::mapping::{map_span, mapped, MappedSpan, MappedSpanView};
use crate::span::{Span, SpanView};
use crate::wire::{array_header, double_value, i32_value, i64_value, joined, lemma_append,
    lemma_joined_take, lemma_prefix_append, lemma_prefix_chain,
    map_header, str_fits, str_value, u64_value, write_array_len, write_double, write_i32, write_i64,
    write_label, write_map_len, write_str, write_u64};

verus! {

/// The fields of a span that are always there.
pub const FIELDS: u32 = 11;

/// The optional field that names the type, before the others.
pub open spec fn type_field(m: MappedSpanView) -> Seq<u8> {
    match m.span_type {
        Some(t) => str_value("type"@) + str_value(t),
        None => Seq::empty(),
    }
}

/// Service, name and resource.
pub open spec fn text_fields(m: MappedSpanView) -> Seq<u8> {
    str_value("service"@) + str_value(m.service) + str_value("name"@) + str_value(m.name) + str_value(
        "resource"@,
    ) + str_value(m.resource)
}

/// The identifiers of the trace, the span and its parent.
pub open spec fn id_fields(m: MappedSpanView) -> Seq<u8> {
    str_value("trace_id"@) + u64_value(m.trace_id) + str_value("span_id"@) + u64_value(m.span_id)
        + str_value("parent_id"@) + u64_value(m.parent_id)
}

/// Start, duration and the error flag.
pub open spec fn timing_fields(m: MappedSpanView) -> Seq<u8> {
    str_value("start"@) + i64_value(m.start) + str_value("duration"@) + i64_value(m.duration)
        + str_value("error"@) + i32_value(m.error)
}

/// One entry of `meta`: key and value.
pub open spec fn meta_entry(e: (Seq<char>, Seq<char>)) -> Seq<u8> {
    str_value(e.0) + str_value(e.1)
}

/// One entry of `metrics`: key and number.
pub open spec fn metric_entry(e: (Seq<char>, u64)) -> Seq<u8> {
    str_value(e.0) + double_value(e.1)
}

/// The map `meta`; an empty one is a map of no entries.
pub open spec fn meta_field(m: MappedSpanView) -> Seq<u8> {
    str_value("meta"@) + map_header(m.meta.len() as u32) + joined(
        m.meta,
        |e: (Seq<char>, Seq<char>)| meta_entry(e),
    )
}

/// The map `metrics`; an empty one is a map of no entries.
pub open spec fn metrics_field(m: MappedSpanView) -> Seq<u8> {
    str_value("metrics"@) + map_header(m.metrics.len() as u32) + joined(
        m.metrics,
        |e: (Seq<char>, u64)| metric_entry(e),
    )
}

/// One span: a map of its fields.
pub open spec fn verbose_span(m: MappedSpanView) -> Seq<u8> {
    span_head(m) + text_fields(m) + id_fields(m) + timing_fields(m) + meta_field(m) + metrics_field(m)
}

/// The type of the span, where it has one, has a 32-bit length.
pub open spec fn type_fits(m: MappedSpanView) -> bool {
    m.span_type matches Some(t) ==> str_fits(t)
}

/// Service, name and resource have 32-bit lengths.
pub open spec fn text_fits(m: MappedSpanView) -> bool {
    str_fits(m.service) && str_fits(m.name) && str_fits(m.resource)
}

/// The keys and values of `meta` have 32-bit lengths.
pub open spec fn meta_fits(m: MappedSpanView) -> bool {
    forall|i: int| 0 <= i < m.meta.len() ==> str_fits((#[trigger] m.meta[i]).0) && str_fits(m.meta[i].1)
}

/// The keys of `metrics` have 32-bit lengths.
pub open spec fn metrics_fit(m: MappedSpanView) -> bool {
    forall|i: int| 0 <= i < m.metrics.len() ==> str_fits((#[trigger] m.metrics[i]).0)
}

/// Whether the format can carry the span: its strings and its maps have
/// 32-bit lengths.
pub open spec fn verbose_fits(m: MappedSpanView) -> bool {
    &&& m.meta.len() <= u32::MAX
    &&& m.metrics.len() <= u32::MAX
    &&& type_fits(m)
    &&& text_fits(m)
    &&& meta_fits(m)
    &&& metrics_fit(m)
}

/// The prefix of the map of a span, and its type where it has one.
pub open spec fn span_head(m: MappedSpanView) -> Seq<u8> {
    map_header(
        if m.span_type is Some {
            (FIELDS + 1) as u32
        } else {
            FIELDS
        },
    ) + type_field(m)
}

/// One trace: the array of the spans at the positions `group`.
pub open spec fn verbose_trace(spans: Seq<SpanView>, service: Seq<char>, group: Seq<usize>) -> Seq<u8> {
    array_header(group.len() as u32) + joined(
        group,
        |i: usize| verbose_span(mapped(spans[i as int], service)),
    )
}

/// The payload: the array of the traces of the batch.
pub open spec fn verbose_payload(spans: Seq<SpanView>, service: Seq<char>) -> Seq<u8> {
    array_header(groups(trace_ids(spans)).len() as u32) + joined(
        groups(trace_ids(spans)),
        |group: Seq<usize>| verbose_trace(spans, service, group),
    )
}

/// Whether the format can carry the batch: every span fits, and the batch
/// and each of its traces have 32-bit lengths.
pub open spec fn verbose_batch_fits(spans: Seq<SpanView>, service: Seq<char>) -> bool {
    &&& groups(trace_ids(spans)).len() <= u32::MAX
    &&& forall|g: int|
        0 <= g < groups(trace_ids(spans)).len() ==> (#[trigger] groups(trace_ids(spans))[g]).len()
            <= u32::MAX
    &&& forall|i: int| 0 <= i < spans.len() ==> verbose_fits(mapped(#[trigger] spans[i], service))
}

fn write_text_fields(buf: &mut Vec<u8>, span: &MappedSpan) -> (r: Result<(), EncodeError>)
    ensures
        r is Ok <==> text_fits(span@),
        r is Ok ==> final(buf)@ == old(buf)@ + text_fields(span@),
        old(buf)@.is_prefix_of(final(buf)@),
{
    proof {
        reveal_strlit("service");
        reveal_strlit("name");
        reveal_strlit("resource");
    }
    let ghost start = buf@;
    write_label(buf, "service");
    proof {
        lemma_prefix_append(start, str_value("service"@));
    }
    if write_str(buf, span.service.as_str()).is_err() {
        return Err(EncodeError::LengthOverflow);
    }
    let ghost first = buf@;
    proof {
        lemma_prefix_append(start + str_value("service"@), str_value(span@.service));
        lemma_prefix_chain(start, start + str_value("service"@), first);
    }
    write_label(buf, "name");
    proof {
        lemma_prefix_append(first, str_value("name"@));
        lemma_prefix_chain(start, first, buf@);
    }
    if write_str(buf, span.name.as_str()).is_err() {
        return Err(EncodeError::LengthOverflow);
    }
    let ghost second = buf@;
    proof {
        lemma_prefix_append(first + str_value("name"@), str_value(span@.name));
        lemma_prefix_chain(start, first + str_value("name"@), second);
    }
    write_label(buf, "resource");
    proof {
        lemma_prefix_append(second, str_value("resource"@));
        lemma_prefix_chain(start, second, buf@);
    }
    if write_str(buf, span.resource.as_str()).is_err() {
        return Err(EncodeError::LengthOverflow);
    }
    assert(buf@ =~= old(buf)@ + text_fields(span@));
    proof {
        lemma_prefix_append(start, text_fields(span@));
    }
    Ok(())
}

fn write_id_fields(buf: &mut Vec<u8>, span: &MappedSpan)
    ensures
        final(buf)@ == old(buf)@ + id_fields(span@),
{
    proof {
        reveal_strlit("trace_id");
        reveal_strlit("span_id");
        reveal_strlit("parent_id");
    }
    write_label(buf, "trace_id");
    write_u64(buf, span.trace_id);
    write_label(buf, "span_id");
    write_u64(buf, span.span_id);
    write_label(buf, "parent_id");
    write_u64(buf, span.parent_id);
    assert(buf@ =~= old(buf)@ + id_fields(span@));
}

fn write_timing_fields(buf: &mut Vec<u8>, span: &MappedSpan)
    ensures
        final(buf)@ == old(buf)@ + timing_fields(span@),
{
    proof {
        reveal_strlit("start");
        reveal_strlit("duration");
        reveal_strlit("error");
    }
    write_label(buf, "start");
    write_i64(buf, span.start);
    write_label(buf, "duration");
    write_i64(buf, span.duration);
    write_label(buf, "error");
    write_i32(buf, span.error);
    assert(buf@ =~= old(buf)@ + timing_fields(span@));
}

fn write_meta_field(buf: &mut Vec<u8>, span: &MappedSpan) -> (r: Result<(), EncodeError>)
    requires
        span@.meta.len() <= u32::MAX,
    ensures
        r is Ok <==> meta_fits(span@),
        r is Ok ==> final(buf)@ == old(buf)@ + meta_field(span@),
        old(buf)@.is_prefix_of(final(buf)@),
{
    proof {
        reveal_strlit("meta");
    }
    let ghost entries = span@.meta;
    let ghost piece = |e: (Seq<char>, Seq<char>)| meta_entry(e);
    let n = span.meta.len();
    write_label(buf, "meta");
    write_map_len(buf, n as u32);
    let ghost start = buf@;
    let mut i: usize = 0;
    proof {
        lemma_append(old(buf)@, str_value("meta"@), map_header(n as u32));
        lemma_prefix_append(old(buf)@, str_value("meta"@) + map_header(n as u32));
        assert(entries.take(0) =~= Seq::empty());
    }
    while i < n
        invariant
            i <= n,
            n == entries.len(),
            entries == span@.meta,
            piece == (|e: (Seq<char>, Seq<char>)| meta_entry(e)),
            old(buf)@.is_prefix_of(start),
            buf@ == start + joined(entries.take(i as int), piece),
            forall|j: int| 0 <= j < i ==> str_fits((#[trigger] entries[j]).0) && str_fits(entries[j].1),
        decreases n - i,
    {
        proof {
            lemma_joined_take(entries, piece, i as int);
            lemma_prefix_append(start, joined(entries.take(i as int), piece));
            lemma_prefix_chain(old(buf)@, start, buf@);
        }
        let ghost before = buf@;
        match span.meta.get_index(i) {
            Some((key, value)) => {
                if write_str(buf, key.as_str()).is_err() {
                    return Err(EncodeError::LengthOverflow);
                }
                proof {
                    lemma_prefix_chain(old(buf)@, before, buf@);
                }
                if write_str(buf, value.as_str()).is_err() {
                    return Err(EncodeError::LengthOverflow);
                }
                assert(buf@ =~= before + meta_entry(entries[i as int]));
            },
            None => {},
        }
        assert(buf@ =~= start + joined(entries.take(i + 1), piece));
        i += 1;
    }
    assert(entries.take(n as int) =~= entries);
    assert(buf@ =~= old(buf)@ + meta_field(span@));
    proof {
        lemma_prefix_append(old(buf)@, meta_field(span@));
    }
    Ok(())
}

fn write_metrics_field(buf: &mut Vec<u8>, span: &MappedSpan) -> (r: Result<(), EncodeError>)
    requires
        span@.metrics.len() <= u32::MAX,
    ensures
        r is Ok <==> metrics_fit(span@),
        r is Ok ==> final(buf)@ == old(buf)@ + metrics_field(span@),
        old(buf)@.is_prefix_of(final(buf)@),
{
    proof {
        reveal_strlit("metrics");
    }
    let ghost entries = span@.metrics;
    let ghost piece = |e: (Seq<char>, u64)| metric_entry(e);
    let n = span.metrics.len();
    write_label(buf, "metrics");
    write_map_len(buf, n as u32);
    let ghost start = buf@;
    let mut i: usize = 0;
    proof {
        lemma_append(old(buf)@, str_value("metrics"@), map_header(n as u32));
        lemma_prefix_append(old(buf)@, str_value("metrics"@) + map_header(n as u32));
        assert(entries.take(0) =~= Seq::empty());
    }
    while i < n
        invariant
            i <= n,
            n == entries.len(),
            entries == span@.metrics,
            piece == (|e: (Seq<char>, u64)| metric_entry(e)),
            old(buf)@.is_prefix_of(start),
            buf@ == start + joined(entries.take(i as int), piece),
            forall|j: int| 0 <= j < i ==> str_fits((#[trigger] entries[j]).0),
        decreases n - i,
    {
        proof {
            lemma_joined_take(entries, piece, i as int);
            lemma_prefix_append(start, joined(entries.take(i as int), piece));
            lemma_prefix_chain(old(buf)@, start, buf@);
        }
        let ghost before = buf@;
        match span.metrics.get_index(i) {
            Some((key, value)) => {
                if write_str(buf, key.as_str()).is_err() {
                    return Err(EncodeError::LengthOverflow);
                }
                write_double(buf, *value);
                assert(buf@ =~= before + metric_entry(entries[i as int]));
            },
            None => {},
        }
        assert(buf@ =~= start + joined(entries.take(i + 1), piece));
        i += 1;
    }
    assert(entries.take(n as int) =~= entries);
    assert(buf@ =~= old(buf)@ + metrics_field(span@));
    proof {
        lemma_prefix_append(old(buf)@, metrics_field(span@));
    }
    Ok(())
}

fn write_span_head(buf: &mut Vec<u8>, span: &MappedSpan) -> (r: Result<(), EncodeError>)
    ensures
        r is Ok <==> type_fits(span@),
        r is Ok ==> final(buf)@ == old(buf)@ + span_head(span@),
        old(buf)@.is_prefix_of(final(buf)@),
{
    match &span.span_type {
        Some(t) => {
            proof {
                reveal_strlit("type");
            }
            write_map_len(buf, FIELDS + 1);
            write_label(buf, "type");
            proof {
                lemma_append(old(buf)@, map_header((FIELDS + 1) as u32), str_value("type"@));
                lemma_prefix_append(old(buf)@, map_header((FIELDS + 1) as u32) + str_value("type"@));
            }
            if write_str(buf, t.as_str()).is_err() {
                return Err(EncodeError::LengthOverflow);
            }
        },
        None => {
            write_map_len(buf, FIELDS);
        },
    }
    assert(buf@ =~= old(buf)@ + span_head(span@));
    proof {
        lemma_prefix_append(old(buf)@, span_head(span@));
    }
    Ok(())
}

/// Appends one span as a map of its fields. Whatever the outcome, what the
/// buffer held stays at its front.
pub fn encode_span(buf: &mut Vec<u8>, span: &MappedSpan) -> (r: Result<(), EncodeError>)
    ensures
        r is Ok <==> verbose_fits(span@),
        r is Ok ==> final(buf)@ == old(buf)@ + verbose_span(span@),
        old(buf)@.is_prefix_of(final(buf)@),
{
    let ghost m = span@;
    let ghost start = buf@;
    proof {
        lemma_prefix_append(start, Seq::empty());
        assert(start + Seq::<u8>::empty() =~= start);
    }
    if span.meta.len() > u32::MAX as usize || span.metrics.len() > u32::MAX as usize {
        return Err(EncodeError::LengthOverflow);
    }
    if write_span_head(buf, span).is_err() {
        return Err(EncodeError::LengthOverflow);
    }
    let ghost acc = span_head(m);
    let ghost before = buf@;
    proof {
        lemma_prefix_append(start, acc);
    }
    if write_text_fields(buf, span).is_err() {
        proof {
            lemma_prefix_chain(start, before, buf@);
        }
        return Err(EncodeError::LengthOverflow);
    }
    proof {
        lemma_append(start, acc, text_fields(m));
    }
    let ghost acc = acc + text_fields(m);
    write_id_fields(buf, span);
    proof {
        lemma_append(start, acc, id_fields(m));
    }
    let ghost acc = acc + id_fields(m);
    write_timing_fields(buf, span);
    proof {
        lemma_append(start, acc, timing_fields(m));
    }
    let ghost acc = acc + timing_fields(m);
    let ghost before = buf@;
    proof {
        lemma_prefix_append(start, acc);
    }
    if write_meta_field(buf, span).is_err() {
        proof {
            lemma_prefix_chain(start, before, buf@);
        }
        return Err(EncodeError::LengthOverflow);
    }
    proof {
        lemma_append(start, acc, meta_field(m));
    }
    let ghost acc = acc + meta_field(m);
    let ghost before = buf@;
    proof {
        lemma_prefix_append(start, acc);
    }
    if write_metrics_field(buf, span).is_err() {
        proof {
            lemma_prefix_chain(start, before, buf@);
        }
        return Err(EncodeError::LengthOverflow);
    }
    proof {
        lemma_append(start, acc, metrics_field(m));
        lemma_prefix_append(start, acc + metrics_field(m));
    }
    Ok(())
}

/// Whether the format can carry the trace of the spans at the positions
/// `group`.
pub open spec fn verbose_trace_fits(spans: Seq<SpanView>, service: Seq<char>, group: Seq<usize>) -> bool {
    &&& group.len() <= u32::MAX
    &&& forall|k: int|
        0 <= k < group.len() ==> verbose_fits(mapped(spans[(#[trigger] group[k]) as int], service))
}

/// A batch fits where its number of traces does and each of its traces
/// fits.
pub proof fn lemma_batch_fits(spans: Seq<SpanView>, service: Seq<char>)
    requires
        spans.len() <= usize::MAX,
    ensures
        verbose_batch_fits(spans, service) <==> groups(trace_ids(spans)).len() <= u32::MAX && forall|g: int|
            0 <= g < groups(trace_ids(spans)).len() ==> verbose_trace_fits(
                spans,
                service,
                #[trigger] groups(trace_ids(spans))[g],
            ),
{
    let ids = trace_ids(spans);
    let gs = groups(ids);
    lemma_groups_cover(ids);
    lemma_groups_in_range(ids);
    if verbose_batch_fits(spans, service) {
        assert forall|g: int| 0 <= g < gs.len() implies verbose_trace_fits(spans, service, #[trigger] gs[g]) by {
            assert(in_range(gs[g], ids.len()));
        }
    }
    if gs.len() <= u32::MAX && forall|g: int|
        0 <= g < gs.len() ==> verbose_trace_fits(spans, service, #[trigger] gs[g]) {
        assert forall|i: int| 0 <= i < spans.len() implies verbose_fits(mapped(#[trigger] spans[i], service)) by {
            assert(ids[i] == spans[i].trace_id);
            let j = crate::grouping::traces(ids).index_of(ids[i]);
            assert(gs[j].contains(i as usize));
            assert(verbose_trace_fits(spans, service, gs[j]));
            let k = choose|k: int| 0 <= k < gs[j].len() && gs[j][k] == i as usize;
            assert(verbose_fits(mapped(spans[gs[j][k] as int], service)));
        }
    }
}

/// Appends one trace: the array of the spans at the positions `group`.
fn encode_trace(buf: &mut Vec<u8>, service_name: &str, spans: &Vec<Span>, group: &Vec<usize>) -> (r: Result<
    (),
    EncodeError,
>)
    requires
        in_range(group@, spans@.len()),
    ensures
        r is Ok <==> verbose_trace_fits(spans.deep_view(), service_name@, group@),
        r is Ok ==> final(buf)@ == old(buf)@ + verbose_trace(spans.deep_view(), service_name@, group@),
{
    let ghost all = spans.deep_view();
    let ghost service = service_name@;
    let ghost piece = |i: usize| verbose_span(mapped(all[i as int], service));
    let n = group.len();
    if n > u32::MAX as usize {
        return Err(EncodeError::LengthOverflow);
    }
    write_array_len(buf, n as u32);
    let ghost start = buf@;
    let mut k: usize = 0;
    assert(group@.take(0) =~= Seq::empty());
    while k < n
        invariant
            k <= n,
            n == group@.len(),
            all == spans.deep_view(),
            service == service_name@,
            piece == (|i: usize| verbose_span(mapped(all[i as int], service))),
            in_range(group@, spans@.len()),
            buf@ == start + joined(group@.take(k as int), piece),
            forall|j: int| 0 <= j < k ==> verbose_fits(mapped(all[(#[trigger] group@[j]) as int], service)),
        decreases n - k,
    {
        proof {
            lemma_joined_take(group@, piece, k as int);
        }
        let i = group[k];
        let span = map_span(&spans[i], service_name);
        assert(span@ == mapped(all[i as int], service));
        if encode_span(buf, &span).is_err() {
            return Err(EncodeError::LengthOverflow);
        }
        k += 1;
    }
    assert(group@.take(n as int) =~= group@);
    assert(buf@ =~= old(buf)@ + verbose_trace(all, service, group@));
    Ok(())
}

/// The verbose payload of a batch, or an error where the format cannot
/// carry the batch.
pub fn encode(service_name: &str, spans: &Vec<Span>) -> (r: Result<Vec<u8>, EncodeError>)
    ensures
        r is Ok <==> verbose_batch_fits(spans.deep_view(), service_name@),
        r matches Ok(bytes) ==> bytes@ == verbose_payload(spans.deep_view(), service_name@),
{
    let ghost all = spans.deep_view();
    let ghost service = service_name@;
    let ghost traces = groups(trace_ids(all));
    let ghost piece = |group: Seq<usize>| verbose_trace(all, service, group);
    let grouped = group_by_trace(spans);
    let n = grouped.len();
    proof {
        assert(trace_ids(all).len() == spans.len());
        lemma_groups_in_range(trace_ids(all));
        lemma_batch_fits(all, service);
    }
    let mut buf: Vec<u8> = Vec::new();
    if n > u32::MAX as usize {
        return Err(EncodeError::LengthOverflow);
    }
    write_array_len(&mut buf, n as u32);
    let ghost start = buf@;
    let mut g: usize = 0;
    assert(traces.take(0) =~= Seq::empty());
    while g < n
        invariant
            g <= n,
            n == grouped@.len(),
            n == traces.len(),
            all == spans.deep_view(),
            service == service_name@,
            piece == (|group: Seq<usize>| verbose_trace(all, service, group)),
            forall|j: int| 0 <= j < grouped@.len() ==> (#[trigger] grouped@[j])@ == traces[j],
            forall|j: int| 0 <= j < traces.len() ==> in_range(#[trigger] traces[j], spans@.len()),
            buf@ == start + joined(traces.take(g as int), piece),
            forall|j: int| 0 <= j < g ==> verbose_trace_fits(all, service, #[trigger] traces[j]),
            verbose_batch_fits(all, service) ==> forall|j: int|
                0 <= j < traces.len() ==> verbose_trace_fits(all, service, #[trigger] traces[j]),
        decreases n - g,
    {
        proof {
            lemma_joined_take(traces, piece, g as int);
        }
        let group = &grouped[g];
        let ghost before = buf@;
        assert(group@ == traces[g as int]);
        if encode_trace(&mut buf, service_name, spans, group).is_err() {
            return Err(EncodeError::LengthOverflow);
        }
        assert(buf@ == before + piece(traces[g as int]));
        assert(buf@ =~= start + joined(traces.take(g + 1), piece));
        g += 1;
    }
    assert(traces.take(n as int) =~= traces);
    Ok(buf)
}

} // verus!
