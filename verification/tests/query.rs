//! Listing: filters, order, truncation.

use hindsight::ids::{SpanId, Timestamp, TraceId};
use hindsight::model::{Span, SpanStatus};
use hindsight::query::TraceFilter;
use hindsight::store::{StoreConfig, TraceStore};
use hindsight::trace::TraceType;

fn span(tid: u128, sid: u64, start: u64, end: Option<u64>, service: &str) -> Span {
    Span {
        trace_id: TraceId(tid),
        span_id: SpanId(sid),
        parent_span_id: None,
        name: format!("op-{tid:x}"),
        start_time: Timestamp(start),
        end_time: end.map(Timestamp),
        attributes: Vec::new(),
        events: Vec::new(),
        status: SpanStatus::Okay,
        service_name: service.to_string(),
    }
}

fn failing(mut s: Span) -> Span {
    s.status = SpanStatus::Error {
        message: "boom".to_string(),
    };
    s
}

fn sample_store() -> TraceStore {
    let mut store = TraceStore::new(StoreConfig::default());
    // Four traces: one failing, one slow, two fast, across two services.
    store.ingest_at(vec![failing(span(1, 1, 100, Some(200), "checkout"))], Timestamp(1));
    store.ingest_at(vec![span(2, 1, 400, Some(2_000_000_400), "checkout")], Timestamp(1));
    store.ingest_at(vec![span(3, 1, 300, Some(5_000_300), "search")], Timestamp(1));
    store.ingest_at(vec![span(4, 1, 200, Some(9_000_200), "search")], Timestamp(1));
    store
}

#[test]
fn unconstrained_listing_is_newest_first() {
    let store = sample_store();
    let all = store.list(&TraceFilter::default());
    let ids: Vec<u128> = all.iter().map(|s| s.trace_id.0).collect();
    assert_eq!(ids, vec![2, 3, 4, 1]);
    assert_eq!(all[0].trace_type, TraceType::Slow);
    assert_eq!(all[3].trace_type, TraceType::Error);
    assert_eq!(all[3].has_errors, true);
    assert_eq!(all[0].span_count, 1);
}

#[test]
fn error_trace_is_listed_with_errors_and_not_without() {
    // A single error-status span: demanded errors include it, demanded
    // error-free listings exclude it.
    let mut store = TraceStore::new(StoreConfig::default());
    store.ingest_at(vec![failing(span(9, 1, 0, Some(10), "pay"))], Timestamp(1));

    let mut with_errors = TraceFilter::default();
    with_errors.has_errors = Some(true);
    let listed = store.list(&with_errors);
    assert_eq!(listed.len(), 1);
    assert_eq!(listed[0].trace_id, TraceId(9));

    let mut without_errors = TraceFilter::default();
    without_errors.has_errors = Some(false);
    assert!(store.list(&without_errors).is_empty());
}

#[test]
fn error_filter_keeps_only_error_traces() {
    let store = sample_store();
    let mut filter = TraceFilter::default();
    filter.has_errors = Some(true);
    let listed = store.list(&filter);
    assert_eq!(listed.len(), 1);
    assert!(listed.iter().all(|s| s.has_errors));
}

#[test]
fn min_duration_keeps_only_long_traces() {
    let store = sample_store();
    let mut filter = TraceFilter::default();
    filter.min_duration_nanos = Some(5_000_000);
    let listed = store.list(&filter);
    let ids: Vec<u128> = listed.iter().map(|s| s.trace_id.0).collect();
    assert_eq!(ids, vec![2, 3, 4]);
    assert!(listed.iter().all(|s| s.duration_nanos.unwrap() >= 5_000_000));
}

#[test]
fn open_trace_fails_duration_bounds() {
    let mut store = TraceStore::new(StoreConfig::default());
    store.ingest_at(vec![span(1, 1, 0, None, "svc")], Timestamp(1));
    let mut filter = TraceFilter::default();
    filter.min_duration_nanos = Some(0);
    assert!(store.list(&filter).is_empty());
    assert_eq!(store.list(&TraceFilter::default()).len(), 1);
}

#[test]
fn combined_filters_are_a_conjunction() {
    let store = sample_store();
    let mut filter = TraceFilter::default();
    filter.service = Some("search".to_string());
    filter.min_duration_nanos = Some(6_000_000);
    filter.has_errors = Some(false);
    let listed = store.list(&filter);
    assert_eq!(listed.len(), 1);
    assert_eq!(listed[0].trace_id, TraceId(4));
    assert_eq!(listed[0].service_name, "search");
}

#[test]
fn service_filter_matches_the_root_spans_service() {
    let store = sample_store();
    let mut filter = TraceFilter::default();
    filter.service = Some("checkout".to_string());
    let ids: Vec<u128> = store.list(&filter).iter().map(|s| s.trace_id.0).collect();
    assert_eq!(ids, vec![2, 1]);
}

#[test]
fn limit_truncates_after_sorting() {
    let store = sample_store();
    let mut filter = TraceFilter::default();
    filter.limit = Some(2);
    let ids: Vec<u128> = store.list(&filter).iter().map(|s| s.trace_id.0).collect();
    assert_eq!(ids, vec![2, 3]);
    // A limit above the match count returns everything.
    filter.limit = Some(10);
    assert_eq!(store.list(&filter).len(), 4);
    filter.limit = Some(0);
    assert!(store.list(&filter).is_empty());
}

#[test]
fn start_time_ties_order_by_trace_id() {
    let mut store = TraceStore::new(StoreConfig::default());
    store.ingest_at(vec![span(8, 1, 500, Some(600), "svc")], Timestamp(1));
    store.ingest_at(vec![span(3, 1, 500, Some(700), "svc")], Timestamp(1));
    let ids: Vec<u128> = store
        .list(&TraceFilter::default())
        .iter()
        .map(|s| s.trace_id.0)
        .collect();
    assert_eq!(ids, vec![3, 8]);
}

#[test]
fn incomplete_trace_is_summarised_by_its_earliest_span() {
    let mut store = TraceStore::new(StoreConfig::default());
    let mut orphan = span(6, 2, 50, Some(80), "web");
    orphan.parent_span_id = Some(SpanId(1));
    orphan.name = "child-op".to_string();
    store.ingest_at(vec![orphan], Timestamp(1));
    let listed = store.list(&TraceFilter::default());
    assert_eq!(listed.len(), 1);
    assert_eq!(listed[0].root_span_name, "child-op");
    assert_eq!(listed[0].service_name, "web");
}
