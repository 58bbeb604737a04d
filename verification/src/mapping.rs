//! From a span to the fields that the agent knows: identifiers of 64 bits,
//! service, name, resource and type, timing, the error flag, and the
//! attributes split into `meta` (strings) and `metrics` (numbers).

use vstd::prelude::*;
use crate::binary64::{double_bits, double_bits_of};
use crate::span::{AttributeValue, AttributeValueView, Span, SpanView, StatusCode};
use crate::tags::{ascending, has_key, keys, lemma_lookup_upsert, lemma_rank_of, lemma_select_keys,
    lemma_select_lookup, lemma_select_push, lemma_upsert_at, lemma_upsert_last, lookup, rank_of, select,
    upsert, TagMap};

verus! {

/// The name that every span gets: that of the component which produced it.
/// The name of the operation becomes the span's resource.
pub const PROVIDER_NAME: &'static str = "opentelemetry-datadog";

/// The attribute that says how a span is to be shown.
pub const SPAN_TYPE_KEY: &'static str = "span.type";

/// The key of `meta` that is kept for the message of a span's status.
pub const ERROR_MESSAGE_KEY: &'static str = "error.msg";

/// The low 64 bits of a trace identifier.
pub open spec fn low_64(id: u128) -> u64 {
    (id % 0x1_0000_0000_0000_0000) as u64
}

/// Whether a value goes to `metrics`; the others go to `meta`.
pub open spec fn is_numeric(v: AttributeValueView) -> bool {
    v is Int || v is Double
}

/// Whether a value goes to `meta`.
pub open spec fn is_textual(v: AttributeValueView) -> bool {
    !is_numeric(v)
}

/// A value as `meta` holds it: a string as it is, a truth value as `true` or
/// `false`.
pub open spec fn meta_text(v: AttributeValueView) -> Seq<char> {
    match v {
        AttributeValueView::Str(s) => s,
        AttributeValueView::Bool(b) => if b {
            "true"@
        } else {
            "false"@
        },
        _ => Seq::empty(),
    }
}

/// A value as `metrics` holds it: the bits of a binary64 number, which for
/// an integer is the nearest one.
pub open spec fn metric_bits(v: AttributeValueView) -> u64 {
    match v {
        AttributeValueView::Int(i) => double_bits(i as int),
        AttributeValueView::Double(bits) => bits,
        _ => 0,
    }
}

/// The entries of `meta` that come from the attributes.
pub open spec fn meta_entries(attributes: Seq<(Seq<char>, AttributeValueView)>) -> Seq<
    (Seq<char>, Seq<char>),
> {
    select(attributes, |v: AttributeValueView| is_textual(v), |v: AttributeValueView| meta_text(v))
}

/// The entries of `metrics`.
pub open spec fn metric_entries(attributes: Seq<(Seq<char>, AttributeValueView)>) -> Seq<
    (Seq<char>, u64),
> {
    select(attributes, |v: AttributeValueView| is_numeric(v), |v: AttributeValueView| metric_bits(v))
}

/// The type of a span: the string under the type attribute, if there is one.
pub open spec fn span_type_of(attributes: Seq<(Seq<char>, AttributeValueView)>) -> Option<Seq<char>> {
    match lookup(attributes, SPAN_TYPE_KEY@) {
        Some(AttributeValueView::Str(s)) => Some(s),
        _ => None,
    }
}

/// What the agent is told of one span.
#[derive(Debug)]
pub struct MappedSpan {
    pub trace_id: u64,
    pub span_id: u64,
    /// 0 for the root of a trace.
    pub parent_id: u64,
    pub service: String,
    pub name: String,
    pub resource: String,
    pub span_type: Option<String>,
    /// Nanoseconds since the Unix epoch.
    pub start: i64,
    /// Nanoseconds, never negative.
    pub duration: i64,
    /// 1 for a span that failed, else 0.
    pub error: i32,
    pub meta: TagMap<String>,
    /// The values are binary64 numbers, given by their bits.
    pub metrics: TagMap<u64>,
}

/// A mapped span with its strings as sequences of characters and its maps as
/// the sequences of their entries, in the order of the keys.
pub struct MappedSpanView {
    pub trace_id: u64,
    pub span_id: u64,
    pub parent_id: u64,
    pub service: Seq<char>,
    pub name: Seq<char>,
    pub resource: Seq<char>,
    pub span_type: Option<Seq<char>>,
    pub start: i64,
    pub duration: i64,
    pub error: i32,
    pub meta: Seq<(Seq<char>, Seq<char>)>,
    pub metrics: Seq<(Seq<char>, u64)>,
}

impl View for MappedSpan {
    type V = MappedSpanView;

    open spec fn view(&self) -> MappedSpanView {
        MappedSpanView {
            trace_id: self.trace_id,
            span_id: self.span_id,
            parent_id: self.parent_id,
            service: self.service@,
            name: self.name@,
            resource: self.resource@,
            span_type: match self.span_type {
                Some(t) => Some(t@),
                None => None,
            },
            start: self.start,
            duration: self.duration,
            error: self.error,
            meta: self.meta@,
            metrics: self.metrics@,
        }
    }
}

/// What the agent is told of `span`, exported for the service `service`.
pub open spec fn mapped(span: SpanView, service: Seq<char>) -> MappedSpanView {
    MappedSpanView {
        trace_id: low_64(span.trace_id),
        span_id: span.span_id,
        parent_id: match span.parent_span_id {
            Some(p) => p,
            None => 0,
        },
        service: service,
        name: PROVIDER_NAME@,
        resource: span.name,
        span_type: span_type_of(span.attributes),
        start: span.start_time,
        duration: if span.duration < 0 {
            0
        } else {
            span.duration
        },
        error: if span.status_code == StatusCode::Error {
            1
        } else {
            0
        },
        meta: match span.status_message {
            Some(m) => upsert(meta_entries(span.attributes), ERROR_MESSAGE_KEY@, m),
            None => meta_entries(span.attributes),
        },
        metrics: metric_entries(span.attributes),
    }
}

/// Whatever the span says of its duration, the agent is told one that is
/// not negative; and the error flag is 0 or 1.
pub proof fn lemma_mapped_ranges(span: SpanView, service: Seq<char>)
    ensures
        mapped(span, service).duration >= 0,
        mapped(span, service).duration == span.duration || (span.duration < 0 && mapped(span, service).duration
            == 0),
        mapped(span, service).error == 0 || mapped(span, service).error == 1,
        mapped(span, service).error == 1 <==> span.status_code == StatusCode::Error,
{
}

/// Under each key, `meta` holds the text of the attribute with that key if
/// its value is a string or a truth value, and `metrics` holds its number if
/// its value is a number.
pub proof fn lemma_split_values(attributes: Seq<(Seq<char>, AttributeValueView)>, key: Seq<char>)
    requires
        ascending(attributes),
    ensures
        lookup(meta_entries(attributes), key) == match lookup(attributes, key) {
            Some(v) => if is_textual(v) {
                Some(meta_text(v))
            } else {
                None
            },
            None => None,
        },
        lookup(metric_entries(attributes), key) == match lookup(attributes, key) {
            Some(v) => if is_numeric(v) {
                Some(metric_bits(v))
            } else {
                None
            },
            None => None,
        },
{
    lemma_select_lookup(
        attributes,
        |v: AttributeValueView| is_textual(v),
        |v: AttributeValueView| meta_text(v),
        key,
    );
    lemma_select_lookup(
        attributes,
        |v: AttributeValueView| is_numeric(v),
        |v: AttributeValueView| metric_bits(v),
        key,
    );
}

/// The message of a span's status stands in `meta` under the key that is
/// kept for it, whatever the attributes hold there; the other keys of
/// `meta` lead to what the attributes gave.
pub proof fn lemma_status_message(span: SpanView, service: Seq<char>, key: Seq<char>)
    requires
        ascending(span.attributes),
        span.status_message is Some,
    ensures
        lookup(mapped(span, service).meta, key) == if key == ERROR_MESSAGE_KEY@ {
            span.status_message
        } else {
            lookup(meta_entries(span.attributes), key)
        },
        ascending(mapped(span, service).meta),
{
    let from_attributes = meta_entries(span.attributes);
    lemma_select_keys(
        span.attributes,
        |v: AttributeValueView| is_textual(v),
        |v: AttributeValueView| meta_text(v),
    );
    lemma_lookup_upsert(from_attributes, ERROR_MESSAGE_KEY@, span.status_message->Some_0, key);
    lemma_rank_of(from_attributes, ERROR_MESSAGE_KEY@);
    lemma_upsert_at(
        from_attributes,
        ERROR_MESSAGE_KEY@,
        span.status_message->Some_0,
        rank_of(from_attributes, ERROR_MESSAGE_KEY@),
    );
}

/// Every key of the attributes is a key of `meta` or of `metrics`, never of
/// both, and they have no other keys.
pub proof fn lemma_split_keys(attributes: Seq<(Seq<char>, AttributeValueView)>)
    requires
        ascending(attributes),
    ensures
        keys(meta_entries(attributes)).disjoint(keys(metric_entries(attributes))),
        keys(meta_entries(attributes)).union(keys(metric_entries(attributes))) == keys(attributes),
{
    let meta = meta_entries(attributes);
    let metrics = metric_entries(attributes);
    lemma_select_keys(attributes, |v: AttributeValueView| is_textual(v), |v: AttributeValueView| meta_text(v));
    lemma_select_keys(attributes, |v: AttributeValueView| is_numeric(v), |v: AttributeValueView| metric_bits(v));
    assert forall|key: Seq<char>| !(has_key(meta, key) && has_key(metrics, key)) by {
        if has_key(meta, key) && has_key(metrics, key) {
            let i = choose|i: int|
                0 <= i < attributes.len() && #[trigger] attributes[i].0 == key && is_textual(attributes[i].1);
            let j = choose|j: int|
                0 <= j < attributes.len() && #[trigger] attributes[j].0 == key && is_numeric(attributes[j].1);
            crate::order::lemma_key_lt_irreflexive(key);
            if i < j {
                assert(crate::order::key_lt(attributes[i].0, attributes[j].0));
            } else if j < i {
                assert(crate::order::key_lt(attributes[j].0, attributes[i].0));
            }
        }
    }
    assert forall|key: Seq<char>| has_key(attributes, key) <==> (has_key(meta, key) || has_key(metrics, key)) by {
        if has_key(attributes, key) {
            let i = choose|i: int| 0 <= i < attributes.len() && #[trigger] attributes[i].0 == key;
            if is_numeric(attributes[i].1) {
            } else {
                assert(is_textual(attributes[i].1));
            }
        }
    }
    assert(keys(meta).union(keys(metrics)) =~= keys(attributes));
}

/// Splits the attributes: strings and truth values go to `meta`, numbers to
/// `metrics`.
pub fn split_attributes(attributes: &TagMap<AttributeValue>) -> (r: (TagMap<String>, TagMap<u64>))
    ensures
        r.0@ == meta_entries(attributes@),
        r.1@ == metric_entries(attributes@),
{
    proof {
        use_type_invariant(attributes);
    }
    let ghost all = attributes@;
    let ghost textual = |v: AttributeValueView| is_textual(v);
    let ghost text = |v: AttributeValueView| meta_text(v);
    let ghost numeric = |v: AttributeValueView| is_numeric(v);
    let ghost bits = |v: AttributeValueView| metric_bits(v);
    let mut meta: TagMap<String> = TagMap::new();
    let mut metrics: TagMap<u64> = TagMap::new();
    let n = attributes.len();
    let mut i: usize = 0;
    proof {
        lemma_select_push(all.take(0), arbitrary(), textual, text);
        lemma_select_push(all.take(0), arbitrary(), numeric, bits);
        assert(all.take(0) =~= Seq::empty());
    }
    while i < n
        invariant
            i <= n,
            n == all.len(),
            all == attributes@,
            ascending(all),
            textual == (|v: AttributeValueView| is_textual(v)),
            text == (|v: AttributeValueView| meta_text(v)),
            numeric == (|v: AttributeValueView| is_numeric(v)),
            bits == (|v: AttributeValueView| metric_bits(v)),
            meta@ == select(all.take(i as int), textual, text),
            metrics@ == select(all.take(i as int), numeric, bits),
        decreases n - i,
    {
        let entry = attributes.get_index(i);
        let ghost seen = all.take(i as int);
        proof {
            assert(all.take(i + 1) =~= seen.push(all[i as int]));
            lemma_select_push(seen, all[i as int], textual, text);
            lemma_select_push(seen, all[i as int], numeric, bits);
            lemma_select_keys(seen, textual, text);
            lemma_select_keys(seen, numeric, bits);
            assert(ascending(seen)) by {
                assert forall|a: int, b: int| 0 <= a < b < seen.len() implies crate::order::key_lt(
                    seen[a].0,
                    seen[b].0,
                ) by {
                    assert(seen[a] == all[a]);
                    assert(seen[b] == all[b]);
                }
            }
            assert forall|j: int| 0 <= j < meta@.len() implies crate::order::key_lt(
                #[trigger] meta@[j].0,
                all[i as int].0,
            ) by {
                assert(has_key(meta@, meta@[j].0));
                let k = choose|k: int|
                    0 <= k < seen.len() && #[trigger] seen[k].0 == meta@[j].0 && textual(seen[k].1);
                assert(seen[k] == all[k]);
            }
            assert forall|j: int| 0 <= j < metrics@.len() implies crate::order::key_lt(
                #[trigger] metrics@[j].0,
                all[i as int].0,
            ) by {
                assert(has_key(metrics@, metrics@[j].0));
                let k = choose|k: int|
                    0 <= k < seen.len() && #[trigger] seen[k].0 == metrics@[j].0 && numeric(seen[k].1);
                assert(seen[k] == all[k]);
            }
        }
        match entry {
            Some((key, value)) => {
                proof {
                    use_type_invariant(&meta);
                    use_type_invariant(&metrics);
                }
                match value {
                    AttributeValue::Str(s) => {
                        proof {
                            lemma_upsert_last(meta@, key@, s@);
                        }
                        meta.insert(key.clone(), s.clone());
                    },
                    AttributeValue::Bool(b) => {
                        let rendered = if *b {
                            "true"
                        } else {
                            "false"
                        };
                        proof {
                            lemma_upsert_last(meta@, key@, rendered@);
                        }
                        meta.insert(key.clone(), rendered.to_owned());
                    },
                    AttributeValue::Int(v) => {
                        let number = double_bits_of(*v);
                        proof {
                            lemma_upsert_last(metrics@, key@, number);
                        }
                        metrics.insert(key.clone(), number);
                    },
                    AttributeValue::Double(number) => {
                        proof {
                            lemma_upsert_last(metrics@, key@, *number);
                        }
                        metrics.insert(key.clone(), *number);
                    },
                }
            },
            None => {},
        }
        i += 1;
    }
    proof {
        assert(all.take(n as int) =~= all);
    }
    (meta, metrics)
}

/// What the agent is told of `span`, exported for the service
/// `service_name`. The duration is never negative, whatever the span says.
pub fn map_span(span: &Span, service_name: &str) -> (r: MappedSpan)
    ensures
        r@ == mapped(span@, service_name@),
        r.duration >= 0,
        r.error == 0 || r.error == 1,
{
    let attributes = &span.attributes;
    proof {
        use_type_invariant(attributes);
    }
    let (mut meta, metrics) = split_attributes(attributes);
    match &span.status.message {
        Some(message) => {
            meta.insert(ERROR_MESSAGE_KEY.to_owned(), message.clone());
        },
        None => {},
    }
    let span_type = match attributes.get(SPAN_TYPE_KEY) {
        Some(AttributeValue::Str(s)) => Some(s.clone()),
        _ => None,
    };
    MappedSpan {
        trace_id: (span.trace_id % 0x1_0000_0000_0000_0000u128) as u64,
        span_id: span.span_id,
        parent_id: match span.parent_span_id {
            Some(p) => p,
            None => 0,
        },
        service: service_name.to_owned(),
        name: PROVIDER_NAME.to_owned(),
        resource: span.name.clone(),
        span_type,
        start: span.start_time,
        duration: if span.duration < 0 {
            0
        } else {
            span.duration
        },
        error: match span.status.code {
            StatusCode::Error => 1,
            _ => 0,
        },
        meta,
        metrics,
    }
}

} // verus!
