//! The call-shaped facade a transport layer drives.
//!
//! A [`Collector`] owns the store and the event bus and wires them: every
//! ingested batch's lifecycle events are published before the call returns.
//! A transport shell (RPC, HTTP, whatever it chooses) only ever needs
//! `ingest_spans`, `get_trace`, `list_traces`, the subscribe/poll pair
//! backing a live event stream, and `ping`. Ingestion is untraced by
//! design: the collector never emits spans about itself, which would feed
//! back into its own store.

use vstd::prelude::*;
use vstd::seq_lib::*;

use crate::bus::{spec_publish_all, EventBus, SubM, TraceEvent};
use crate::ids::{Timestamp, TraceId};
use crate::model::Span;
use crate::query::{spec_list, summary_views, TraceFilter, TraceSummary};
use crate::store::{
    has_trace, spec_ingest, spec_ingest_events, trace_index, EntryM, StoreConfig, TraceStore,
};
use crate::trace::{trace_wf, views_of, Trace};

verus! {

/// Configuration of the whole collector.
#[derive(Clone, Copy, Debug, PartialEq, Eq, Structural)]
pub struct CollectorConfig {
    /// Eviction window and classification thresholds.
    pub store: StoreConfig,
    /// How many events each subscriber may buffer before losing its oldest.
    pub queue_capacity: usize,
}

impl Default for CollectorConfig {
    /// The documented defaults: the store's defaults, and room for 256
    /// buffered events per subscriber.
    fn default() -> (r: Self)
        ensures
            r.store.ttl_nanos == 3_600_000_000_000,
            r.store.thresholds.slow_nanos == 1_000_000_000,
            r.store.thresholds.fast_nanos == 100_000_000,
            r.queue_capacity == 256,
    {
        CollectorConfig { store: StoreConfig::default(), queue_capacity: 256 }
    }
}

/// The assembled engine: trace store plus event fan-out.
#[derive(Debug)]
pub struct Collector {
    pub store: TraceStore,
    pub bus: EventBus,
}

impl Collector {
    /// Both halves well formed.
    pub open spec fn wf(&self) -> bool {
        &&& self.store.wf()
        &&& self.bus.wf()
    }

    /// A fresh, empty collector.
    pub fn new(config: CollectorConfig) -> (r: Collector)
        requires
            config.queue_capacity >= 1,
        ensures
            r.wf(),
            r.store@ == Seq::<EntryM>::empty(),
            r.store.config == config.store,
            r.bus@.capacity == config.queue_capacity,
            r.bus@.subs == Seq::<SubM>::empty(),
    {
        Collector { store: TraceStore::new(config.store), bus: EventBus::new(config.queue_capacity) }
    }

    /// Merge a batch of spans at the given instant and fan its lifecycle
    /// events out to every subscriber. Every span is accepted; the count
    /// equals the batch length.
    pub fn ingest_spans_at(&mut self, spans: Vec<Span>, now: Timestamp) -> (r: u32)
        requires
            old(self).wf(),
            spans@.len() <= u32::MAX,
        ensures
            final(self).wf(),
            r == spans@.len() as u32,
            final(self).store@ == spec_ingest(old(self).store@, views_of(spans@), now.0),
            final(self).store.config == old(self).store.config,
            final(self).bus@ == spec_publish_all(
                old(self).bus@,
                spec_ingest_events(old(self).store@, views_of(spans@), now.0),
            ),
    {
        let ghost b0 = self.bus@;
        let (count, events) = self.store.ingest_at(spans, now);
        let ghost st = self.store;
        let ghost ev = events@;
        let mut i: usize = 0;
        while i < events.len()
            invariant
                i <= ev.len(),
                events@ == ev,
                self.store == st,
                self.bus.wf(),
                self.bus@ == spec_publish_all(b0, ev.take(i as int)),
            decreases ev.len() - i,
        {
            proof {
                assert(ev.take(i + 1).drop_last() =~= ev.take(i as int));
                assert(ev.take(i + 1).last() == ev[i as int]);
            }
            self.bus.publish(events[i]);
            i = i + 1;
        }
        proof {
            assert(ev.take(ev.len() as int) =~= ev);
        }
        count
    }

    /// Merge a batch of spans stamped with the wall clock, fanning the
    /// events out. This is the ingestion entry point; it never blocks on a
    /// slow subscriber and never fails.
    pub fn ingest_spans(&mut self, spans: Vec<Span>) -> (r: u32)
        requires
            old(self).wf(),
            spans@.len() <= u32::MAX,
        ensures
            final(self).wf(),
            r == spans@.len() as u32,
            final(self).store.config == old(self).store.config,
            exists|n: u64|
                final(self).store@ == spec_ingest(old(self).store@, views_of(spans@), n)
                    && final(self).bus@ == spec_publish_all(
                    old(self).bus@,
                    spec_ingest_events(old(self).store@, views_of(spans@), n),
                ),
    {
        let now = Timestamp::now();
        let count = self.ingest_spans_at(spans, now);
        proof {
            assert(self.store@ == spec_ingest(old(self).store@, views_of(spans@), now.0));
        }
        count
    }

    /// A snapshot copy of one trace; absent where the id was never seen or
    /// has been evicted.
    pub fn get_trace(&self, trace_id: TraceId) -> (r: Option<Trace>)
        requires
            self.wf(),
        ensures
            match r {
                Some(t) => has_trace(self.store@, trace_id.0) && t@ == self.store@[trace_index(
                    self.store@,
                    trace_id.0,
                )].trace && trace_wf(t@),
                None => !has_trace(self.store@, trace_id.0),
            },
    {
        self.store.get(trace_id)
    }

    /// The stored traces matching the filter, most recent first, truncated
    /// to its limit.
    pub fn list_traces(&self, filter: &TraceFilter) -> (r: Vec<TraceSummary>)
        requires
            self.wf(),
        ensures
            summary_views(r@) == spec_list(self.store@, filter@, self.store.config.thresholds),
    {
        self.store.list(filter)
    }

    /// Evict every trace idle since before the TTL window, measured at the
    /// injected instant.
    pub fn evict_expired(&mut self, now: Timestamp)
        requires
            old(self).wf(),
        ensures
            final(self).wf(),
            final(self).store.config == old(self).store.config,
            final(self).store@ == old(self).store@.filter(
                crate::store::live_at(old(self).store.config.ttl_nanos, now.0),
            ),
            final(self).bus == old(self).bus,
    {
        self.store.evict_expired(now);
    }

    /// Whether another live event stream can still be opened.
    pub fn can_subscribe(&self) -> (r: bool)
        ensures
            r == (self.bus@.next_id < u64::MAX),
    {
        self.bus.can_subscribe()
    }

    /// Open a live event stream: the handle starts with an empty queue and
    /// sees only events published from now on. The transport layer polls it
    /// with [`Collector::poll_events`] and closes it with
    /// [`Collector::unsubscribe`].
    pub fn subscribe(&mut self) -> (id: u64)
        requires
            old(self).wf(),
            old(self).bus@.next_id < u64::MAX,
        ensures
            final(self).wf(),
            final(self).store == old(self).store,
            id == old(self).bus@.next_id,
            final(self).bus@.capacity == old(self).bus@.capacity,
            final(self).bus@.next_id == old(self).bus@.next_id + 1,
            final(self).bus@.subs == old(self).bus@.subs.push(SubM { id, queue: Seq::empty() }),
    {
        self.bus.subscribe()
    }

    /// Hand a subscriber everything buffered for it since the last poll,
    /// oldest first; an unknown handle yields nothing.
    pub fn poll_events(&mut self, id: u64) -> (r: Vec<TraceEvent>)
        requires
            old(self).wf(),
        ensures
            final(self).wf(),
            final(self).store == old(self).store,
            match crate::bus::spec_find_sub(old(self).bus@.subs, id) {
                Some(k) => r@ == old(self).bus@.subs[k].queue,
                None => r@ == Seq::<TraceEvent>::empty(),
            },
    {
        self.bus.drain(id)
    }

    /// Close a live event stream, releasing its queue.
    pub fn unsubscribe(&mut self, id: u64)
        requires
            old(self).wf(),
        ensures
            final(self).wf(),
            final(self).store == old(self).store,
            final(self).bus@.subs == old(self).bus@.subs.filter(|s: SubM| s.id != id),
    {
        self.bus.unsubscribe(id)
    }

    /// Liveness probe; touches no state.
    pub fn ping(&self) -> (r: String)
        ensures
            r@ == "pong"@,
    {
        String::from_str("pong")
    }
}

} // verus!
