//! The trace store: ingestion, lookup, eviction.

use hindsight::bus::TraceEvent;
use hindsight::ids::{SpanId, Timestamp, TraceId};
use hindsight::model::{Attr, AttributeValue, Span, SpanStatus};
use hindsight::seed::load_seed_data;
use hindsight::store::{StoreConfig, TraceStore};
use hindsight::trace::TraceType;

fn span(tid: u128, sid: u64, parent: Option<u64>, start: u64, end: Option<u64>) -> Span {
    Span {
        trace_id: TraceId(tid),
        span_id: SpanId(sid),
        parent_span_id: parent.map(SpanId),
        name: format!("span-{sid:x}"),
        start_time: Timestamp(start),
        end_time: end.map(Timestamp),
        attributes: Vec::new(),
        events: Vec::new(),
        status: SpanStatus::Okay,
        service_name: "svc".to_string(),
    }
}

const AA: u128 = 0xaaaaaaaaaaaaaaaaaaaaaaaaaaaaaaaa;
const ONES: u64 = 0x1111111111111111;

#[test]
fn root_then_child_in_two_calls() {
    // Ingest a root span, then its child in a separate call; the trace
    // afterwards holds both, spans the root's full duration, and carries a
    // classification derived from its all-ok status and the thresholds.
    let mut store = TraceStore::new(StoreConfig::default());
    let (accepted, events) = store.ingest_at(vec![span(AA, ONES, None, 0, Some(100))], Timestamp(1));
    assert_eq!(accepted, 1);
    assert_eq!(
        events,
        vec![
            TraceEvent::TraceCreated(TraceId(AA)),
            TraceEvent::SpanAdded(TraceId(AA), SpanId(ONES)),
            TraceEvent::TraceCompleted(TraceId(AA)),
        ]
    );
    let (accepted, events) =
        store.ingest_at(vec![span(AA, 0x2, Some(ONES), 10, Some(50))], Timestamp(2));
    assert_eq!(accepted, 1);
    // The trace had already completed; only the span arrival is new.
    assert_eq!(events, vec![TraceEvent::SpanAdded(TraceId(AA), SpanId(0x2))]);

    let t = store.get(TraceId(AA)).expect("trace is stored");
    assert_eq!(t.span_count(), 2);
    assert_eq!(t.duration_nanos(), Some(100));
    assert!(!t.incomplete);
    assert_eq!(
        t.classify_type(&StoreConfig::default().thresholds),
        TraceType::Fast
    );
}

#[test]
fn get_returns_a_snapshot_copy() {
    let mut store = TraceStore::new(StoreConfig::default());
    store.ingest_at(vec![span(1, 1, None, 0, Some(10))], Timestamp(1));
    let before = store.get(TraceId(1)).unwrap();
    store.ingest_at(vec![span(1, 2, Some(1), 2, Some(8))], Timestamp(2));
    // The earlier snapshot is unaffected by the later ingest.
    assert_eq!(before.span_count(), 1);
    assert_eq!(store.get(TraceId(1)).unwrap().span_count(), 2);
}

#[test]
fn get_of_unknown_id_is_absent() {
    let store = TraceStore::new(StoreConfig::default());
    assert!(store.get(TraceId(42)).is_none());
}

#[test]
fn reingesting_a_span_replaces_it() {
    // The same span id twice with different attributes: one entry remains,
    // carrying the second version.
    let mut store = TraceStore::new(StoreConfig::default());
    let mut first = span(1, 1, None, 0, Some(10));
    first.attributes = vec![Attr {
        key: "version".to_string(),
        value: AttributeValue::Int(1),
    }];
    let mut second = span(1, 1, None, 0, Some(10));
    second.attributes = vec![Attr {
        key: "version".to_string(),
        value: AttributeValue::Int(2),
    }];
    store.ingest_at(vec![first], Timestamp(1));
    store.ingest_at(vec![second], Timestamp(2));
    let t = store.get(TraceId(1)).unwrap();
    assert_eq!(t.span_count(), 1);
    match &t.spans[0].attributes[0].value {
        AttributeValue::Int(v) => assert_eq!(*v, 2),
        other => panic!("unexpected attribute {other:?}"),
    }
}

#[test]
fn batches_merge_the_same_in_either_order() {
    // Two batches of one trace with disjoint span ids yield the same final
    // trace whichever arrives first.
    let batch_a = || vec![span(9, 1, None, 0, Some(100)), span(9, 2, Some(1), 10, Some(20))];
    let batch_b = || vec![span(9, 3, Some(1), 30, Some(40)), span(9, 4, Some(1), 50, Some(60))];

    let mut ab = TraceStore::new(StoreConfig::default());
    ab.ingest_at(batch_a(), Timestamp(1));
    ab.ingest_at(batch_b(), Timestamp(2));
    let mut ba = TraceStore::new(StoreConfig::default());
    ba.ingest_at(batch_b(), Timestamp(1));
    ba.ingest_at(batch_a(), Timestamp(2));

    let t1 = ab.get(TraceId(9)).unwrap();
    let t2 = ba.get(TraceId(9)).unwrap();
    assert_eq!(t1.span_count(), 4);
    assert_eq!(t2.span_count(), 4);
    assert_eq!(t1.start_time, t2.start_time);
    assert_eq!(t1.end_time, t2.end_time);
    assert_eq!(t1.root_span_id, t2.root_span_id);
    let ids1: Vec<u64> = t1.spans.iter().map(|s| s.span_id.0).collect();
    let ids2: Vec<u64> = t2.spans.iter().map(|s| s.span_id.0).collect();
    assert_eq!(ids1, ids2);
    assert_eq!(ids1, vec![1, 2, 3, 4]);
}

#[test]
fn concurrent_style_ingests_lose_no_update() {
    // Two ingest calls for one trace id with disjoint span ids (the
    // serialised interleaving of two concurrent writers): both land.
    let mut store = TraceStore::new(StoreConfig::default());
    store.ingest_at(vec![span(5, 1, None, 0, Some(10))], Timestamp(1));
    store.ingest_at(vec![span(5, 2, Some(1), 2, Some(8))], Timestamp(1));
    let t = store.get(TraceId(5)).unwrap();
    let ids: Vec<u64> = t.spans.iter().map(|s| s.span_id.0).collect();
    assert_eq!(ids, vec![1, 2]);
}

#[test]
fn eviction_removes_exactly_the_expired() {
    // TTL of 100ns; entries stamped at 50 and 120. At now = 150 the first
    // (50 + 100 <= 150) goes, the second stays, untouched.
    let mut config = StoreConfig::default();
    config.ttl_nanos = 100;
    let mut store = TraceStore::new(config);
    store.ingest_at(vec![span(1, 1, None, 0, Some(10))], Timestamp(50));
    store.ingest_at(vec![span(2, 1, None, 5, Some(15))], Timestamp(120));
    assert_eq!(store.len(), 2);

    store.evict_expired(Timestamp(149));
    assert_eq!(store.len(), 2);

    store.evict_expired(Timestamp(150));
    assert_eq!(store.len(), 1);
    assert!(store.get(TraceId(1)).is_none());
    let survivor = store.get(TraceId(2)).unwrap();
    assert_eq!(survivor.span_count(), 1);

    store.evict_expired(Timestamp(220));
    assert_eq!(store.len(), 0);
}

#[test]
fn ingestion_refreshes_the_eviction_clock() {
    let mut config = StoreConfig::default();
    config.ttl_nanos = 100;
    let mut store = TraceStore::new(config);
    store.ingest_at(vec![span(1, 1, None, 0, None)], Timestamp(0));
    // Touched again at 80: the trace survives now = 150.
    store.ingest_at(vec![span(1, 2, Some(1), 5, None)], Timestamp(80));
    store.evict_expired(Timestamp(150));
    assert!(store.get(TraceId(1)).is_some());
}

#[test]
fn completion_fires_once_when_the_root_closes() {
    let mut store = TraceStore::new(StoreConfig::default());
    // Root arrives open: created, added, not completed.
    let (_, events) = store.ingest_at(vec![span(3, 1, None, 0, None)], Timestamp(1));
    assert_eq!(
        events,
        vec![
            TraceEvent::TraceCreated(TraceId(3)),
            TraceEvent::SpanAdded(TraceId(3), SpanId(1)),
        ]
    );
    // The root closes: completion fires.
    let (_, events) = store.ingest_at(vec![span(3, 1, None, 0, Some(50))], Timestamp(2));
    assert_eq!(
        events,
        vec![
            TraceEvent::SpanAdded(TraceId(3), SpanId(1)),
            TraceEvent::TraceCompleted(TraceId(3)),
        ]
    );
}

#[test]
fn seed_data_loads_through_the_ingestion_path() {
    let mut store = TraceStore::new(StoreConfig::default());
    load_seed_data(&mut store);
    assert_eq!(store.len(), 8);
    let t = store
        .get(TraceId(0xa1b2c3d4e5f6789012345678901234ab))
        .expect("seeded trace present");
    assert_eq!(t.span_count(), 2);
    assert!(!t.incomplete);
}
