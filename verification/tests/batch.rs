//! Client-side span batching decisions.

use hindsight::batch::SpanBatcher;
use hindsight::ids::{SpanId, Timestamp, TraceId};
use hindsight::model::{Span, SpanStatus};

fn span(sid: u64) -> Span {
    Span {
        trace_id: TraceId(1),
        span_id: SpanId(sid),
        parent_span_id: None,
        name: "op".to_string(),
        start_time: Timestamp(0),
        end_time: Some(Timestamp(10)),
        attributes: Vec::new(),
        events: Vec::new(),
        status: SpanStatus::Okay,
        service_name: "svc".to_string(),
    }
}

#[test]
fn batch_ships_exactly_at_the_batch_size() {
    let mut b = SpanBatcher::new(3);
    assert!(b.push(span(1)).is_none());
    assert!(b.push(span(2)).is_none());
    let shipped = b.push(span(3)).expect("third span fills the batch");
    let ids: Vec<u64> = shipped.iter().map(|s| s.span_id.0).collect();
    assert_eq!(ids, vec![1, 2, 3]);
    // The buffer starts over afterwards.
    assert!(b.push(span(4)).is_none());
}

#[test]
fn flush_ships_the_remainder_and_empties() {
    let mut b = SpanBatcher::new(100);
    b.push(span(1));
    b.push(span(2));
    let shipped = b.flush().expect("two spans were buffered");
    assert_eq!(shipped.len(), 2);
    assert!(b.flush().is_none());
}

#[test]
fn flush_of_an_empty_buffer_ships_nothing() {
    let mut b = SpanBatcher::new(1);
    assert!(b.flush().is_none());
    // Batch size one ships every span at once.
    let shipped = b.push(span(7)).expect("immediate batch");
    assert_eq!(shipped.len(), 1);
}
