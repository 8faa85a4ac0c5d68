//! The collector facade: ingestion with fan-out, streams, liveness.

use hindsight::bus::TraceEvent;
use hindsight::ids::{SpanId, Timestamp, TraceId};
use hindsight::model::{Span, SpanStatus};
use hindsight::query::TraceFilter;
use hindsight::service::{Collector, CollectorConfig};

fn span(tid: u128, sid: u64, parent: Option<u64>, start: u64, end: Option<u64>) -> Span {
    Span {
        trace_id: TraceId(tid),
        span_id: SpanId(sid),
        parent_span_id: parent.map(SpanId),
        name: format!("span-{sid:x}"),
        start_time: Timestamp(start),
        end_time: end.map(Timestamp),
        attributes: Vec::new(),
        events: Vec::new(),
        status: SpanStatus::Okay,
        service_name: "svc".to_string(),
    }
}

#[test]
fn subscriber_receives_lifecycle_events_in_order() {
    let mut c = Collector::new(CollectorConfig::default());
    let id = c.subscribe();
    c.ingest_spans_at(vec![span(1, 1, None, 0, Some(10))], Timestamp(1));
    let events = c.poll_events(id);
    assert_eq!(
        events,
        vec![
            TraceEvent::TraceCreated(TraceId(1)),
            TraceEvent::SpanAdded(TraceId(1), SpanId(1)),
            TraceEvent::TraceCompleted(TraceId(1)),
        ]
    );
    // Polling again yields nothing new.
    assert!(c.poll_events(id).is_empty());
}

#[test]
fn late_subscriber_misses_completion_but_get_still_works() {
    // A subscriber registering after a trace completed never receives that
    // trace's events; a fresh lookup still returns its final state.
    let mut c = Collector::new(CollectorConfig::default());
    c.ingest_spans_at(vec![span(1, 1, None, 0, Some(10))], Timestamp(1));
    let id = c.subscribe();
    assert!(c.poll_events(id).is_empty());
    let t = c.get_trace(TraceId(1)).expect("completed trace still stored");
    assert_eq!(t.span_count(), 1);
    assert!(t.is_completed());
}

#[test]
fn every_subscriber_sees_every_event() {
    let mut c = Collector::new(CollectorConfig::default());
    let first = c.subscribe();
    let second = c.subscribe();
    c.ingest_spans_at(vec![span(2, 1, None, 0, None)], Timestamp(1));
    let expected = vec![
        TraceEvent::TraceCreated(TraceId(2)),
        TraceEvent::SpanAdded(TraceId(2), SpanId(1)),
    ];
    assert_eq!(c.poll_events(first), expected);
    assert_eq!(c.poll_events(second), expected);
}

#[test]
fn slow_subscriber_loses_oldest_events_only() {
    let mut config = CollectorConfig::default();
    config.queue_capacity = 2;
    let mut c = Collector::new(config);
    let id = c.subscribe();
    // Three events land in a queue of two: the oldest is dropped.
    c.ingest_spans_at(vec![span(3, 1, None, 0, Some(10))], Timestamp(1));
    let events = c.poll_events(id);
    assert_eq!(
        events,
        vec![
            TraceEvent::SpanAdded(TraceId(3), SpanId(1)),
            TraceEvent::TraceCompleted(TraceId(3)),
        ]
    );
}

#[test]
fn unsubscribing_stops_delivery() {
    let mut c = Collector::new(CollectorConfig::default());
    let id = c.subscribe();
    c.unsubscribe(id);
    c.ingest_spans_at(vec![span(4, 1, None, 0, None)], Timestamp(1));
    assert!(c.poll_events(id).is_empty());
}

#[test]
fn eviction_through_the_facade() {
    let mut config = CollectorConfig::default();
    config.store.ttl_nanos = 100;
    let mut c = Collector::new(config);
    c.ingest_spans_at(vec![span(5, 1, None, 0, Some(10))], Timestamp(10));
    c.evict_expired(Timestamp(110));
    assert!(c.get_trace(TraceId(5)).is_none());
    assert!(c.list_traces(&TraceFilter::default()).is_empty());
}

#[test]
fn ingest_accepts_the_whole_batch() {
    let mut c = Collector::new(CollectorConfig::default());
    let accepted = c.ingest_spans(vec![
        span(6, 1, None, 0, Some(10)),
        span(6, 2, Some(1), 2, Some(8)),
        span(7, 1, None, 5, None),
    ]);
    assert_eq!(accepted, 3);
    assert_eq!(c.get_trace(TraceId(6)).unwrap().span_count(), 2);
    assert_eq!(c.get_trace(TraceId(7)).unwrap().span_count(), 1);
}

#[test]
fn ping_answers_pong() {
    let c = Collector::new(CollectorConfig::default());
    assert_eq!(c.ping(), "pong");
}
