use datadog_exporter::mapping::{
    map_span, split_attributes, MappedSpan, ERROR_MESSAGE_KEY, PROVIDER_NAME, SPAN_TYPE_KEY,
};
use datadog_exporter::span::{AttributeValue, Span, SpanKind, Status, StatusCode};
use datadog_exporter::tags::TagMap;
use datadog_exporter::version::ApiVersion;

fn plain_span(name: &str) -> Span {
    Span {
        trace_id: 0x0102_0304_0506_0708_090A_0B0C_0D0E_0F10,
        span_id: 0x42,
        parent_span_id: None,
        name: name.to_string(),
        start_time: 1_600_000_000_000_000_000,
        duration: 1_500_000,
        status: Status { code: StatusCode::Success, message: None },
        attributes: TagMap::new(),
        kind: SpanKind::Server,
    }
}

fn entries(map: &TagMap<String>) -> Vec<(String, String)> {
    let mut out = Vec::new();
    let mut i = 0;
    while let Some((k, v)) = map.get_index(i) {
        out.push((k.clone(), v.clone()));
        i += 1;
    }
    out
}

fn numbers(map: &TagMap<u64>) -> Vec<(String, u64)> {
    let mut out = Vec::new();
    let mut i = 0;
    while let Some((k, v)) = map.get_index(i) {
        out.push((k.clone(), *v));
        i += 1;
    }
    out
}

fn one_span_end_to_end() -> MappedSpan {
    map_span(&plain_span("GET /users"), "OpenTelemetry")
}

#[test]
fn scenario_one_span_is_mapped_field_by_field() {
    let m = one_span_end_to_end();
    assert_eq!(m.trace_id, 0x090A_0B0C_0D0E_0F10);
    assert_eq!(m.span_id, 0x42);
    assert_eq!(m.parent_id, 0);
    assert_eq!(m.service, "OpenTelemetry");
    assert_eq!(m.resource, "GET /users");
    assert_eq!(m.name, PROVIDER_NAME);
    assert_eq!(m.name, "opentelemetry-datadog");
    assert_eq!(m.span_type, None);
    assert_eq!(m.start, 1_600_000_000_000_000_000);
    assert_eq!(m.duration, 1_500_000);
    assert_eq!(m.error, 0);
    assert_eq!(m.meta.len(), 0);
    assert_eq!(m.metrics.len(), 0);
    let batch = vec![plain_span("GET /users")];
    assert!(ApiVersion::Version03.encode("OpenTelemetry", &batch).is_ok());
    assert!(ApiVersion::Version05.encode("OpenTelemetry", &batch).is_ok());
}

#[test]
fn trace_id_keeps_its_low_64_bits() {
    let mut span = plain_span("x");
    span.trace_id = u128::MAX;
    assert_eq!(map_span(&span, "s").trace_id, u64::MAX);
    span.trace_id = 1u128 << 64;
    assert_eq!(map_span(&span, "s").trace_id, 0);
    span.trace_id = (7u128 << 64) | 9;
    assert_eq!(map_span(&span, "s").trace_id, 9);
}

#[test]
fn negative_duration_becomes_zero() {
    let mut span = plain_span("x");
    span.duration = -1;
    assert_eq!(map_span(&span, "s").duration, 0);
    span.duration = i64::MIN;
    assert_eq!(map_span(&span, "s").duration, 0);
    span.duration = 0;
    assert_eq!(map_span(&span, "s").duration, 0);
    span.duration = i64::MAX;
    assert_eq!(map_span(&span, "s").duration, i64::MAX);
}

#[test]
fn parent_is_copied_and_root_is_zero() {
    let mut span = plain_span("x");
    span.parent_span_id = Some(0xdead_beef);
    assert_eq!(map_span(&span, "s").parent_id, 0xdead_beef);
    span.parent_span_id = None;
    assert_eq!(map_span(&span, "s").parent_id, 0);
}

#[test]
fn error_flag_follows_the_status_code() {
    let mut span = plain_span("x");
    span.status.code = StatusCode::Error;
    assert_eq!(map_span(&span, "s").error, 1);
    span.status.code = StatusCode::Unset;
    assert_eq!(map_span(&span, "s").error, 0);
    span.status.code = StatusCode::Success;
    assert_eq!(map_span(&span, "s").error, 0);
}

#[test]
fn status_message_goes_to_meta_under_its_own_key() {
    let mut span = plain_span("x");
    span.status = Status { code: StatusCode::Error, message: Some("boom".to_string()) };
    span.attributes.insert("z".to_string(), AttributeValue::Str("last".to_string()));
    span.attributes.insert("a".to_string(), AttributeValue::Str("first".to_string()));
    let m = map_span(&span, "s");
    assert_eq!(ERROR_MESSAGE_KEY, "error.msg");
    assert_eq!(
        entries(&m.meta),
        vec![
            ("a".to_string(), "first".to_string()),
            ("error.msg".to_string(), "boom".to_string()),
            ("z".to_string(), "last".to_string()),
        ]
    );
    assert_eq!(m.error, 1);
}

#[test]
fn status_message_takes_the_place_of_an_attribute_with_its_key() {
    let mut span = plain_span("x");
    span.status = Status { code: StatusCode::Unset, message: Some("said".to_string()) };
    span.attributes.insert("error.msg".to_string(), AttributeValue::Str("attribute".to_string()));
    let m = map_span(&span, "s");
    assert_eq!(entries(&m.meta), vec![("error.msg".to_string(), "said".to_string())]);
}

#[test]
fn span_type_is_the_string_under_its_attribute() {
    let mut span = plain_span("x");
    assert_eq!(SPAN_TYPE_KEY, "span.type");
    span.attributes.insert("span.type".to_string(), AttributeValue::Str("web".to_string()));
    let m = map_span(&span, "s");
    assert_eq!(m.span_type, Some("web".to_string()));
    assert_eq!(m.meta.get("span.type"), Some(&"web".to_string()));
    span.attributes.insert("span.type".to_string(), AttributeValue::Int(3));
    let n = map_span(&span, "s");
    assert_eq!(n.span_type, None);
    assert_eq!(n.metrics.get("span.type"), Some(&3f64.to_bits()));
}

#[test]
fn attributes_split_by_the_type_of_their_value() {
    let mut attributes = TagMap::new();
    attributes.insert("http.method".to_string(), AttributeValue::Str("GET".to_string()));
    attributes.insert("http.status_code".to_string(), AttributeValue::Int(200));
    attributes.insert("cache.hit".to_string(), AttributeValue::Bool(true));
    attributes.insert("cache.miss".to_string(), AttributeValue::Bool(false));
    attributes.insert("ratio".to_string(), AttributeValue::Double(0.25f64.to_bits()));
    attributes.insert("big".to_string(), AttributeValue::Int(i64::MAX));
    let (meta, metrics) = split_attributes(&attributes);
    assert_eq!(
        entries(&meta),
        vec![
            ("cache.hit".to_string(), "true".to_string()),
            ("cache.miss".to_string(), "false".to_string()),
            ("http.method".to_string(), "GET".to_string()),
        ]
    );
    assert_eq!(
        numbers(&metrics),
        vec![
            ("big".to_string(), (i64::MAX as f64).to_bits()),
            ("http.status_code".to_string(), 200f64.to_bits()),
            ("ratio".to_string(), 0.25f64.to_bits()),
        ]
    );
}

#[test]
fn every_key_lands_in_exactly_one_map() {
    let mut attributes = TagMap::new();
    let keys = ["k0", "k1", "k2", "k3", "k4", "k5", "k6", "k7"];
    for (i, k) in keys.iter().enumerate() {
        let value = match i % 4 {
            0 => AttributeValue::Str(format!("v{}", i)),
            1 => AttributeValue::Int(i as i64),
            2 => AttributeValue::Bool(i % 8 == 2),
            _ => AttributeValue::Double((i as f64 / 2.0).to_bits()),
        };
        attributes.insert(k.to_string(), value);
    }
    let (meta, metrics) = split_attributes(&attributes);
    assert_eq!(meta.len() + metrics.len(), keys.len());
    for k in keys.iter() {
        assert_ne!(meta.get(k).is_some(), metrics.get(k).is_some(), "key {}", k);
    }
    assert!(meta.get("other").is_none() && metrics.get("other").is_none());
}

#[test]
fn empty_attributes_give_empty_maps() {
    let attributes: TagMap<AttributeValue> = TagMap::new();
    let (meta, metrics) = split_attributes(&attributes);
    assert_eq!(meta.len(), 0);
    assert_eq!(metrics.len(), 0);
}

#[test]
fn service_is_the_one_of_the_batch() {
    let m = map_span(&plain_span("op"), "checkout");
    assert_eq!(m.service, "checkout");
    assert_eq!(m.resource, "op");
}
