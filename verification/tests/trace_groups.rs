use datadog_exporter::grouping::group_by_trace;
use datadog_exporter::span::{Span, SpanKind, Status, StatusCode};
use datadog_exporter::tags::TagMap;

fn span_of(trace_id: u128, span_id: u64) -> Span {
    Span {
        trace_id,
        span_id,
        parent_span_id: None,
        name: "op".to_string(),
        start_time: 0,
        duration: 1,
        status: Status { code: StatusCode::Unset, message: None },
        attributes: TagMap::new(),
        kind: SpanKind::Internal,
    }
}

#[test]
fn no_spans_no_groups() {
    assert!(group_by_trace(&Vec::new()).is_empty());
}

#[test]
fn spans_are_grouped_by_trace_in_order_of_first_appearance() {
    let spans = vec![
        span_of(7, 1),
        span_of(3, 2),
        span_of(7, 3),
        span_of(9, 4),
        span_of(3, 5),
        span_of(7, 6),
    ];
    assert_eq!(group_by_trace(&spans), vec![vec![0, 2, 5], vec![1, 4], vec![3]]);
}

#[test]
fn traces_that_share_their_low_bits_stay_apart() {
    let spans = vec![span_of(5, 1), span_of((1u128 << 64) | 5, 2), span_of(5, 3)];
    assert_eq!(group_by_trace(&spans), vec![vec![0, 2], vec![1]]);
}

#[test]
fn one_trace_one_group() {
    let spans = vec![span_of(1, 1), span_of(1, 2), span_of(1, 3)];
    assert_eq!(group_by_trace(&spans), vec![vec![0, 1, 2]]);
}
