//! Demonstration traces for exercising a fresh collector.
//!
//! A pure producer of the same [`Span`] values the store already accepts:
//! a handful of realistic traces — fast and slow requests, failures, a
//! fan-out checkout, batch work — so a dashboard has something to show
//! before any instrumented service connects. Nothing here carries
//! guarantees of its own; the ingestion path it drives is what is
//! specified.

use vstd::prelude::*;

use crate::ids::{SpanId, Timestamp, TraceId};
use crate::model::{Attr, AttributeValue, Span, SpanEvent, SpanStatus};
use crate::store::TraceStore;
use crate::trace::Trace;

verus! {

/// A text attribute.
fn attr_str(key: &str, value: &str) -> (r: Attr)
    ensures
        r@.key == key@,
        r@.value == crate::model::AttrValueV::Text(value@),
{
    Attr { key: String::from_str(key), value: AttributeValue::Text(String::from_str(value)) }
}

/// An integer attribute.
fn attr_int(key: &str, value: i64) -> (r: Attr)
    ensures
        r@.key == key@,
        r@.value == crate::model::AttrValueV::Int(value),
{
    Attr { key: String::from_str(key), value: AttributeValue::Int(value) }
}

/// A boolean attribute.
fn attr_bool(key: &str, value: bool) -> (r: Attr)
    ensures
        r@.key == key@,
        r@.value == crate::model::AttrValueV::Bool(value),
{
    Attr { key: String::from_str(key), value: AttributeValue::Bool(value) }
}

/// The instant `nanos_ago` before `now`, stopping at the epoch.
fn past(now: u64, nanos_ago: u64) -> (r: u64)
    ensures
        r == if now >= nanos_ago { (now - nanos_ago) as u64 } else { 0u64 },
{
    if now >= nanos_ago {
        now - nanos_ago
    } else {
        0
    }
}

/// The instant `nanos` after `start`, saturating.
fn later(start: u64, nanos: u64) -> (r: u64)
    ensures
        r == if start + nanos <= u64::MAX { (start + nanos) as u64 } else { u64::MAX },
{
    if start <= u64::MAX - nanos {
        start + nanos
    } else {
        u64::MAX
    }
}

/// A span with no attributes or events, to be filled in.
fn plain_span(
    trace_id: TraceId,
    span_id: SpanId,
    parent_span_id: Option<SpanId>,
    name: &str,
    start: u64,
    end: u64,
    service_name: &str,
) -> (r: Span)
{
    Span {
        trace_id,
        span_id,
        parent_span_id,
        name: String::from_str(name),
        start_time: Timestamp(start),
        end_time: Some(Timestamp(end)),
        attributes: Vec::new(),
        events: Vec::new(),
        status: SpanStatus::Okay,
        service_name: String::from_str(service_name),
    }
}

/// Generate a variety of realistic traces, timestamped relative to now.
fn generate_seed_traces() -> Vec<Trace> {
    let mut traces: Vec<Trace> = Vec::new();
    let now = Timestamp::now().0;

    // A fast successful request with one database call.
    {
        let trace_id = TraceId(0xa1b2c3d4e5f6789012345678901234ab);
        let root_id = SpanId(0x1234567890abcdef);
        let start = past(now, 50_000_000);
        let mut spans: Vec<Span> = Vec::new();

        let mut root = plain_span(
            trace_id,
            root_id,
            None,
            "GET /api/users",
            start,
            later(start, 12_000_000),
            "api-gateway",
        );
        root.attributes = vec![
            attr_str("http.method", "GET"),
            attr_str("http.url", "/api/users"),
            attr_int("http.status_code", 200),
        ];
        spans.push(root);

        let mut db = plain_span(
            trace_id,
            SpanId(0xabcdef1234567890),
            Some(root_id),
            "db.query users",
            later(start, 2_000_000),
            later(start, 10_000_000),
            "api-gateway",
        );
        db.attributes = vec![
            attr_str("db.system", "postgresql"),
            attr_str("db.statement", "SELECT * FROM users LIMIT 10"),
        ];
        spans.push(db);

        if let Ok(trace) = Trace::from_spans(spans) {
            traces.push(trace);
        }
    }

    // A slow request held up by a database lock.
    {
        let trace_id = TraceId(0xdeadbeef12345678901234567890abcd);
        let root_id = SpanId(0xfedcba9876543210);
        let start = past(now, 2_500_000_000);
        let mut spans: Vec<Span> = Vec::new();

        let mut root = plain_span(
            trace_id,
            root_id,
            None,
            "POST /api/orders",
            start,
            later(start, 2_345_000_000),
            "order-service",
        );
        root.attributes = vec![
            attr_str("http.method", "POST"),
            attr_str("http.url", "/api/orders"),
            attr_int("http.status_code", 200),
        ];
        spans.push(root);

        let mut tx = plain_span(
            trace_id,
            SpanId(0x1111222233334444),
            Some(root_id),
            "db.transaction",
            later(start, 50_000_000),
            later(start, 2_340_000_000),
            "order-service",
        );
        tx.attributes = vec![
            attr_str("db.system", "postgresql"),
            attr_str("db.operation", "INSERT"),
        ];
        tx.events = vec![
            SpanEvent {
                name: String::from_str("Waiting for lock"),
                timestamp: Timestamp(later(start, 100_000_000)),
                attributes: vec![attr_str("lock.type", "ROW EXCLUSIVE")],
            },
        ];
        spans.push(tx);

        if let Ok(trace) = Trace::from_spans(spans) {
            traces.push(trace);
        }
    }

    // A failed lookup.
    {
        let trace_id = TraceId(0xe440e404e440e404e440e404e440e404);
        let start = past(now, 15_000_000);
        let mut span = plain_span(
            trace_id,
            SpanId(0x5555666677778888),
            None,
            "GET /api/user/999",
            start,
            later(start, 8_000_000),
            "user-service",
        );
        span.attributes = vec![
            attr_str("http.method", "GET"),
            attr_str("http.url", "/api/user/999"),
            attr_int("http.status_code", 404),
            attr_bool("error", true),
            attr_str("error.message", "User not found"),
        ];
        span.events = vec![
            SpanEvent {
                name: String::from_str("exception"),
                timestamp: Timestamp(later(start, 5_000_000)),
                attributes: vec![
                    attr_str("exception.type", "UserNotFoundException"),
                    attr_str("exception.message", "No user with ID 999"),
                ],
            },
        ];
        span.status = SpanStatus::Error { message: String::from_str("User not found") };

        if let Ok(trace) = Trace::from_spans(vec![span]) {
            traces.push(trace);
        }
    }

    // A checkout fanning out over several services.
    {
        let trace_id = TraceId(0xc0a10000c0a10000c0a10000c0a10000);
        let root_id = SpanId(0x1111000000000001);
        let start = past(now, 500_000_000);
        let mut spans: Vec<Span> = Vec::new();

        let mut root = plain_span(
            trace_id,
            root_id,
            None,
            "POST /api/checkout",
            start,
            later(start, 485_000_000),
            "api-gateway",
        );
        root.attributes = vec![
            attr_str("http.method", "POST"),
            attr_str("http.url", "/api/checkout"),
        ];
        spans.push(root);

        spans.push(plain_span(
            trace_id,
            SpanId(0x2222000000000002),
            Some(root_id),
            "validate_cart",
            later(start, 5_000_000),
            later(start, 50_000_000),
            "cart-service",
        ));

        let mut inventory = plain_span(
            trace_id,
            SpanId(0x3333000000000003),
            Some(root_id),
            "check_inventory",
            later(start, 55_000_000),
            later(start, 175_000_000),
            "inventory-service",
        );
        inventory.attributes = vec![attr_int("items.checked", 3)];
        spans.push(inventory);

        let mut payment = plain_span(
            trace_id,
            SpanId(0x4444000000000004),
            Some(root_id),
            "process_payment",
            later(start, 180_000_000),
            later(start, 460_000_000),
            "payment-service",
        );
        payment.attributes = vec![
            attr_str("payment.provider", "stripe"),
            attr_str("payment.amount", "99.99"),
        ];
        spans.push(payment);

        let mut order = plain_span(
            trace_id,
            SpanId(0x5555000000000005),
            Some(root_id),
            "create_order",
            later(start, 455_000_000),
            later(start, 485_000_000),
            "order-service",
        );
        order.attributes = vec![attr_str("order.id", "ORD-12345")];
        spans.push(order);

        if let Ok(trace) = Trace::from_spans(spans) {
            traces.push(trace);
        }
    }

    // A very fast cache hit.
    {
        let trace_id = TraceId(0xcac0e000cac0e000cac0e000cac0e000);
        let start = past(now, 2_000_000);
        let mut span = plain_span(
            trace_id,
            SpanId(0xcafebabe12345678),
            None,
            "GET /api/config",
            start,
            later(start, 800_000),
            "config-service",
        );
        span.attributes = vec![
            attr_str("http.method", "GET"),
            attr_bool("cache.hit", true),
        ];

        if let Ok(trace) = Trace::from_spans(vec![span]) {
            traces.push(trace);
        }
    }

    // A search of middling latency.
    {
        let trace_id = TraceId(0x000e0000000e0000000e0000000e0000);
        let root_id = SpanId(0xaaaa111122223333);
        let start = past(now, 180_000_000);
        let mut spans: Vec<Span> = Vec::new();

        let mut root = plain_span(
            trace_id,
            root_id,
            None,
            "GET /api/search",
            start,
            later(start, 175_000_000),
            "search-service",
        );
        root.attributes = vec![
            attr_str("http.method", "GET"),
            attr_str("search.query", "laptop"),
        ];
        spans.push(root);

        let mut db = plain_span(
            trace_id,
            SpanId(0xbbbb111122223333),
            Some(root_id),
            "db.query products",
            later(start, 5_000_000),
            later(start, 170_000_000),
            "search-service",
        );
        db.attributes = vec![
            attr_str("db.system", "elasticsearch"),
            attr_int("results.count", 342),
        ];
        spans.push(db);

        if let Ok(trace) = Trace::from_spans(spans) {
            traces.push(trace);
        }
    }

    // A gateway timeout against an external dependency.
    {
        let trace_id = TraceId(0x00e0000000e0000000e0000000e00000);
        let root_id = SpanId(0x1a2b3c4d5e6f7890);
        let start = past(now, 5_100_000_000);
        let mut spans: Vec<Span> = Vec::new();

        let mut root = plain_span(
            trace_id,
            root_id,
            None,
            "GET /api/external",
            start,
            later(start, 5_050_000_000),
            "api-gateway",
        );
        root.attributes = vec![
            attr_str("http.method", "GET"),
            attr_int("http.status_code", 504),
        ];
        root.status = SpanStatus::Error { message: String::from_str("Gateway timeout") };
        spans.push(root);

        let mut call = plain_span(
            trace_id,
            SpanId(0x2b3c4d5e6f7890a1),
            Some(root_id),
            "http.call external-api",
            later(start, 10_000_000),
            later(start, 5_040_000_000),
            "api-gateway",
        );
        call.attributes = vec![attr_str("http.url", "https://external-api.example.com")];
        call.events = vec![
            SpanEvent {
                name: String::from_str("timeout"),
                timestamp: Timestamp(later(start, 5_000_000_000)),
                attributes: vec![attr_str("timeout.duration", "5s")],
            },
        ];
        call.status = SpanStatus::Error {
            message: String::from_str("Request timeout after 5s"),
        };
        spans.push(call);

        if let Ok(trace) = Trace::from_spans(spans) {
            traces.push(trace);
        }
    }

    // A long-running batch job with a checkpoint.
    {
        let trace_id = TraceId(0xba0c0000ba0c0000ba0c0000ba0c0000);
        let start = past(now, 850_000_000);
        let mut span = plain_span(
            trace_id,
            SpanId(0x9999aaaabbbbcccc),
            None,
            "process_batch",
            start,
            later(start, 820_000_000),
            "batch-processor",
        );
        span.attributes = vec![
            attr_str("batch.type", "email"),
            attr_int("batch.size", 1500),
            attr_int("batch.processed", 1500),
        ];
        span.events = vec![
            SpanEvent {
                name: String::from_str("checkpoint"),
                timestamp: Timestamp(later(start, 400_000_000)),
                attributes: vec![attr_int("processed", 750)],
            },
        ];

        if let Ok(trace) = Trace::from_spans(vec![span]) {
            traces.push(trace);
        }
    }

    traces
}

/// Load the demonstration traces into the store, through the ordinary
/// ingestion path.
pub fn load_seed_data(store: &mut TraceStore)
    requires
        old(store).wf(),
    ensures
        final(store).wf(),
        final(store).config == old(store).config,
{
    let mut traces = generate_seed_traces();
    while traces.len() > 0
        invariant
            store.wf(),
            store.config == old(store).config,
        decreases traces@.len(),
    {
        match traces.pop() {
            Some(trace) => {
                if trace.spans.len() <= u32::MAX as usize {
                    store.ingest(trace.spans);
                }
            },
            None => {},
        }
    }
}

} // verus!
