//! Building traces from flat span batches.

use hindsight::ids::{SpanId, Timestamp, TraceId};
use hindsight::model::{Attr, AttributeValue, Span, SpanStatus};
use hindsight::trace::{AssemblyError, Thresholds, Trace, TraceType};

fn span(tid: u128, sid: u64, parent: Option<u64>, start: u64, end: Option<u64>) -> Span {
    Span {
        trace_id: TraceId(tid),
        span_id: SpanId(sid),
        parent_span_id: parent.map(SpanId),
        name: format!("span-{sid:x}"),
        start_time: Timestamp(start),
        end_time: end.map(Timestamp),
        attributes: Vec::new(),
        events: Vec::new(),
        status: SpanStatus::Okay,
        service_name: "svc".to_string(),
    }
}

#[test]
fn empty_batch_is_rejected() {
    assert_eq!(
        Trace::from_spans(Vec::new()).unwrap_err(),
        AssemblyError::EmptyBatch
    );
}

#[test]
fn mixed_trace_ids_are_rejected() {
    let batch = vec![span(1, 1, None, 0, Some(10)), span(2, 2, Some(1), 1, Some(5))];
    assert_eq!(
        Trace::from_spans(batch).unwrap_err(),
        AssemblyError::MixedTraceIds
    );
}

#[test]
fn start_is_minimum_and_end_is_maximum() {
    let batch = vec![
        span(7, 2, Some(1), 30, Some(90)),
        span(7, 1, None, 10, Some(100)),
        span(7, 3, Some(1), 20, Some(40)),
    ];
    let t = Trace::from_spans(batch).unwrap();
    assert_eq!(t.start_time, Timestamp(10));
    assert_eq!(t.end_time, Some(Timestamp(100)));
    assert_eq!(t.root_span_id, SpanId(1));
    assert!(!t.incomplete);
    assert_eq!(t.span_count(), 3);
    // Sorted by start time.
    assert_eq!(t.spans[0].span_id, SpanId(1));
    assert_eq!(t.spans[1].span_id, SpanId(3));
    assert_eq!(t.spans[2].span_id, SpanId(2));
}

#[test]
fn end_is_absent_while_any_span_is_open() {
    let batch = vec![span(7, 1, None, 0, Some(100)), span(7, 2, Some(1), 5, None)];
    let t = Trace::from_spans(batch).unwrap();
    assert_eq!(t.end_time, None);
    assert_eq!(t.duration_nanos(), None);
}

#[test]
fn missing_root_is_incomplete_not_an_error() {
    let batch = vec![span(7, 2, Some(1), 10, Some(20)), span(7, 3, Some(1), 5, Some(15))];
    let t = Trace::from_spans(batch).unwrap();
    assert!(t.incomplete);
    // Best-effort placeholder: the earliest span's id.
    assert_eq!(t.root_span_id, SpanId(3));
    assert!(!t.is_completed());
}

#[test]
fn two_roots_are_incomplete() {
    let batch = vec![span(7, 1, None, 0, Some(10)), span(7, 2, None, 5, Some(15))];
    let t = Trace::from_spans(batch).unwrap();
    assert!(t.incomplete);
    assert_eq!(t.root_span_id, SpanId(1));
}

#[test]
fn duplicate_span_id_in_one_batch_keeps_the_later_copy() {
    let mut first = span(7, 1, None, 0, Some(10));
    first.attributes = vec![Attr {
        key: "v".to_string(),
        value: AttributeValue::Int(1),
    }];
    let mut second = span(7, 1, None, 0, Some(20));
    second.attributes = vec![Attr {
        key: "v".to_string(),
        value: AttributeValue::Int(2),
    }];
    let t = Trace::from_spans(vec![first, second]).unwrap();
    assert_eq!(t.span_count(), 1);
    assert_eq!(t.spans[0].end_time, Some(Timestamp(20)));
    match &t.spans[0].attributes[0].value {
        AttributeValue::Int(v) => assert_eq!(*v, 2),
        other => panic!("unexpected attribute {other:?}"),
    }
}

#[test]
fn merge_batch_replaces_by_span_id_and_resorts() {
    let mut t = Trace::from_spans(vec![span(7, 1, None, 50, Some(100))]).unwrap();
    t.merge_batch(vec![span(7, 2, Some(1), 10, Some(60))]);
    assert_eq!(t.span_count(), 2);
    assert_eq!(t.start_time, Timestamp(10));
    assert_eq!(t.spans[0].span_id, SpanId(2));
    // Re-ingesting span 2 with a new start moves it behind span 1.
    t.merge_batch(vec![span(7, 2, Some(1), 70, Some(90))]);
    assert_eq!(t.span_count(), 2);
    assert_eq!(t.spans[0].span_id, SpanId(1));
    assert_eq!(t.spans[1].span_id, SpanId(2));
    assert_eq!(t.start_time, Timestamp(50));
}

#[test]
fn children_come_in_assembled_order() {
    let batch = vec![
        span(7, 1, None, 0, Some(100)),
        span(7, 4, Some(1), 30, Some(40)),
        span(7, 2, Some(1), 10, Some(20)),
        span(7, 3, Some(2), 15, Some(18)),
    ];
    let t = Trace::from_spans(batch).unwrap();
    let kids: Vec<u64> = t.children(SpanId(1)).iter().map(|s| s.span_id.0).collect();
    assert_eq!(kids, vec![2, 4]);
    let grand: Vec<u64> = t.children(SpanId(2)).iter().map(|s| s.span_id.0).collect();
    assert_eq!(grand, vec![3]);
    assert!(t.children(SpanId(9)).is_empty());
}

#[test]
fn span_duration_saturates_when_end_reads_before_start() {
    let s = span(7, 1, None, 100, Some(40));
    assert_eq!(s.duration_nanos(), Some(0));
    let t = Trace::from_spans(vec![s]).unwrap();
    assert_eq!(t.duration_nanos(), Some(0));
}

#[test]
fn classification_follows_the_thresholds() {
    let thresholds = Thresholds::default();
    // 12 ms: faster than the 100 ms cutoff.
    let fast = Trace::from_spans(vec![span(1, 1, None, 0, Some(12_000_000))]).unwrap();
    assert_eq!(fast.classify_type(&thresholds), TraceType::Fast);
    // 500 ms: between the cutoffs.
    let normal = Trace::from_spans(vec![span(2, 1, None, 0, Some(500_000_000))]).unwrap();
    assert_eq!(normal.classify_type(&thresholds), TraceType::Normal);
    // 2 s: slower than the 1 s cutoff.
    let slow = Trace::from_spans(vec![span(3, 1, None, 0, Some(2_000_000_000))]).unwrap();
    assert_eq!(slow.classify_type(&thresholds), TraceType::Slow);
    // Still open: no duration, hence normal.
    let open = Trace::from_spans(vec![span(4, 1, None, 0, None)]).unwrap();
    assert_eq!(open.classify_type(&thresholds), TraceType::Normal);
    // Errors trump speed.
    let mut failing = span(5, 1, None, 0, Some(12_000_000));
    failing.status = SpanStatus::Error {
        message: "boom".to_string(),
    };
    let error = Trace::from_spans(vec![failing]).unwrap();
    assert_eq!(error.classify_type(&thresholds), TraceType::Error);
}

#[test]
fn completion_needs_a_closed_root_only() {
    // Root closed, child still open: completed regardless of stragglers.
    let t = Trace::from_spans(vec![
        span(7, 1, None, 0, Some(100)),
        span(7, 2, Some(1), 10, None),
    ])
    .unwrap();
    assert!(t.is_completed());
    // Root still open: not completed.
    let u = Trace::from_spans(vec![span(8, 1, None, 0, None)]).unwrap();
    assert!(!u.is_completed());
}
