//! The mutable index of in-flight and recently finished traces.
//!
//! The store owns every [`Trace`]; callers get snapshot copies. Ingestion
//! merges batches span by span — partitioning by trace id falls out of
//! routing each span to its trace's entry — stamps each touched entry's
//! last-modified time, and reports the lifecycle events for the caller to
//! publish. Entries idle for longer than the configured TTL are evicted.

use vstd::prelude::*;
use vstd::seq_lib::*;

use crate::bus::TraceEvent;
use crate::ids::{SpanId, Timestamp, TraceId};
use crate::model::{Span, SpanV};
use crate::trace::{
    derive_trace, merge_span_spec, spec_completed, spans_wf, trace_wf, views_of, Thresholds, Trace,
    TraceM,
};

verus! {

/// Configuration the store consumes: the eviction window and the
/// classification thresholds.
#[derive(Clone, Copy, Debug, PartialEq, Eq, Structural)]
pub struct StoreConfig {
    /// A trace untouched for this long (since its last merge) is evicted.
    pub ttl_nanos: u64,
    /// Cutoffs for the `Slow` / `Fast` classification.
    pub thresholds: Thresholds,
}

impl Default for StoreConfig {
    /// The documented defaults: an hour of idleness before eviction, and
    /// the default classification thresholds.
    fn default() -> (r: Self)
        ensures
            r.ttl_nanos == 3_600_000_000_000,
            r.thresholds.slow_nanos == 1_000_000_000,
            r.thresholds.fast_nanos == 100_000_000,
    {
        StoreConfig {
            ttl_nanos: 3_600_000_000_000,
            thresholds: Thresholds { slow_nanos: 1_000_000_000, fast_nanos: 100_000_000 },
        }
    }
}

/// Ghost view of [`StoreEntry`].
pub struct EntryM {
    pub trace: TraceM,
    pub last_modified: u64,
}

/// One stored trace with its TTL bookkeeping.
#[derive(Debug)]
pub struct StoreEntry {
    pub trace: Trace,
    /// When this trace was last merged into; the eviction clock.
    pub last_modified: Timestamp,
}

impl View for StoreEntry {
    type V = EntryM;

    open spec fn view(&self) -> EntryM {
        EntryM { trace: self.trace@, last_modified: self.last_modified.0 }
    }
}

/// The views of a sequence of entries.
pub open spec fn entry_views(s: Seq<StoreEntry>) -> Seq<EntryM> {
    s.map_values(|e: StoreEntry| e@)
}

/// Store well-formedness: every trace well formed, trace ids distinct.
pub open spec fn store_wf(s: Seq<EntryM>) -> bool {
    &&& forall|i: int| 0 <= i < s.len() ==> trace_wf((#[trigger] s[i]).trace)
    &&& forall|i: int, j: int| 0 <= i < j < s.len() ==> (#[trigger] s[i]).trace.trace_id != (
    #[trigger] s[j]).trace.trace_id
}

/// Whether some entry holds the trace id.
pub open spec fn has_trace(s: Seq<EntryM>, trace_id: u128) -> bool {
    exists|i: int| 0 <= i < s.len() && (#[trigger] s[i]).trace.trace_id == trace_id
}

/// The index of the entry holding the trace id, where one exists.
pub open spec fn trace_index(s: Seq<EntryM>, trace_id: u128) -> int {
    choose|i: int| 0 <= i < s.len() && (#[trigger] s[i]).trace.trace_id == trace_id
}

/// With distinct trace ids, the looked-up index is the matching one.
pub proof fn lemma_trace_index_at(s: Seq<EntryM>, trace_id: u128, k: int)
    requires
        forall|i: int, j: int| 0 <= i < j < s.len() ==> (#[trigger] s[i]).trace.trace_id != (
        #[trigger] s[j]).trace.trace_id,
        0 <= k < s.len(),
        s[k].trace.trace_id == trace_id,
    ensures
        has_trace(s, trace_id),
        trace_index(s, trace_id) == k,
{
    assert(has_trace(s, trace_id));
    let i = trace_index(s, trace_id);
    if i != k {
        if i < k {
            assert(s[i].trace.trace_id != s[k].trace.trace_id);
        } else {
            assert(s[k].trace.trace_id != s[i].trace.trace_id);
        }
    }
}

/// One span lands in its trace's entry — merged into it where the trace is
/// known, opening a fresh entry otherwise — and stamps the entry's clock.
pub open spec fn spec_ingest_span(s: Seq<EntryM>, sp: SpanV, now: u64) -> Seq<EntryM> {
    if has_trace(s, sp.trace_id) {
        let i = trace_index(s, sp.trace_id);
        s.update(
            i,
            EntryM {
                trace: derive_trace(sp.trace_id, merge_span_spec(s[i].trace.spans, sp)),
                last_modified: now,
            },
        )
    } else {
        s.push(
            EntryM {
                trace: derive_trace(sp.trace_id, merge_span_spec(Seq::empty(), sp)),
                last_modified: now,
            },
        )
    }
}

/// A whole batch, span by span, in batch order.
pub open spec fn spec_ingest(s: Seq<EntryM>, batch: Seq<SpanV>, now: u64) -> Seq<EntryM>
    decreases batch.len(),
{
    if batch.len() == 0 {
        s
    } else {
        spec_ingest_span(spec_ingest(s, batch.drop_last(), now), batch.last(), now)
    }
}

/// The lifecycle events one span gives rise to: a creation where its trace
/// id is new, the span's own arrival, and a completion where the merge
/// closed the trace's root.
pub open spec fn spec_span_events(s: Seq<EntryM>, sp: SpanV, now: u64) -> Seq<TraceEvent> {
    let known = has_trace(s, sp.trace_id);
    let was_done = known && spec_completed(s[trace_index(s, sp.trace_id)].trace);
    let s2 = spec_ingest_span(s, sp, now);
    let entry_after = if known {
        s2[trace_index(s, sp.trace_id)]
    } else {
        s2.last()
    };
    let created: Seq<TraceEvent> = if known {
        Seq::empty()
    } else {
        seq![TraceEvent::TraceCreated(TraceId(sp.trace_id))]
    };
    let completed: Seq<TraceEvent> = if !was_done && spec_completed(entry_after.trace) {
        seq![TraceEvent::TraceCompleted(TraceId(sp.trace_id))]
    } else {
        Seq::empty()
    };
    created + seq![TraceEvent::SpanAdded(TraceId(sp.trace_id), SpanId(sp.span_id))] + completed
}

/// The events of a whole batch, in order.
pub open spec fn spec_ingest_events(s: Seq<EntryM>, batch: Seq<SpanV>, now: u64) -> Seq<TraceEvent>
    decreases batch.len(),
{
    if batch.len() == 0 {
        Seq::empty()
    } else {
        spec_ingest_events(s, batch.drop_last(), now) + spec_span_events(
            spec_ingest(s, batch.drop_last(), now),
            batch.last(),
            now,
        )
    }
}

/// An entry whose idle time has reached the TTL is expired.
pub open spec fn live_at(ttl_nanos: u64, now: u64) -> spec_fn(EntryM) -> bool {
    |e: EntryM| !(e.last_modified + ttl_nanos <= now)
}

/// The authoritative index `trace id -> trace`, with TTL bookkeeping.
///
/// The view is the sequence of entries; [`store_wf`] is the store's
/// invariant, required and re-established by every operation.
#[derive(Debug)]
pub struct TraceStore {
    /// The stored traces; trace ids are unique across entries.
    pub entries: Vec<StoreEntry>,
    /// Eviction window and classification thresholds.
    pub config: StoreConfig,
}

impl View for TraceStore {
    type V = Seq<EntryM>;

    open spec fn view(&self) -> Seq<EntryM> {
        entry_views(self.entries@)
    }
}

/// Index of the entry holding the trace id, if any.
fn find_entry_index(entries: &Vec<StoreEntry>, trace_id: TraceId) -> (r: Option<usize>)
    ensures
        match r {
            Some(k) => k < entries@.len() && entry_views(entries@)[k as int].trace.trace_id
                == trace_id.0,
            None => forall|i: int|
                0 <= i < entries@.len() ==> (#[trigger] entry_views(entries@)[i]).trace.trace_id
                    != trace_id.0,
        },
{
    let mut i: usize = 0;
    while i < entries.len()
        invariant
            i <= entries@.len(),
            forall|j: int|
                0 <= j < i ==> (#[trigger] entry_views(entries@)[j]).trace.trace_id != trace_id.0,
        decreases entries@.len() - i,
    {
        if entries[i].trace.trace_id == trace_id {
            proof {
                assert(entry_views(entries@)[i as int] == entries@[i as int]@);
            }
            return Some(i);
        }
        proof {
            assert(entry_views(entries@)[i as int] == entries@[i as int]@);
        }
        i = i + 1;
    }
    None
}

impl TraceStore {
    /// Store well-formedness, on the view.
    pub open spec fn wf(&self) -> bool {
        store_wf(self@)
    }

    /// An empty store with the given configuration.
    pub fn new(config: StoreConfig) -> (r: TraceStore)
        ensures
            r.wf(),
            r@ == Seq::<EntryM>::empty(),
            r.config == config,
    {
        let r = TraceStore { entries: Vec::new(), config };
        proof {
            assert(entry_views(r.entries@) =~= Seq::<EntryM>::empty());
        }
        r
    }

    /// Number of stored traces.
    pub fn len(&self) -> (r: usize)
        ensures
            r == self@.len(),
    {
        self.entries.len()
    }

    /// Merge one span into the store at the given instant, reporting the
    /// lifecycle events it gave rise to.
    fn ingest_one(&mut self, sp: Span, now: Timestamp, events: &mut Vec<TraceEvent>)
        requires
            old(self).wf(),
        ensures
            final(self).wf(),
            final(self)@ == spec_ingest_span(old(self)@, sp@, now.0),
            final(self).config == old(self).config,
            final(events)@ == old(events)@ + spec_span_events(old(self)@, sp@, now.0),
    {
        let ghost s0 = self@;
        let ghost spv = sp@;
        let ghost ev0 = events@;
        let tid = sp.trace_id;
        let sid = sp.span_id;
        match find_entry_index(&self.entries, tid) {
            Some(k) => {
                proof {
                    lemma_trace_index_at(s0, spv.trace_id, k as int);
                }
                let ghost pre0 = self.entries@;
                let mut entry = self.entries.remove(k);
                proof {
                    assert(entry_views(pre0)[k as int] == pre0[k as int]@);
                    assert(entry@ == s0[k as int]);
                }
                let was_done = entry.trace.is_completed();
                let ghost tv0 = entry.trace@;
                let batch = vec![sp];
                proof {
                    assert(views_of(batch@) =~= seq![spv]);
                    crate::trace::lemma_merge_single(tv0.spans, spv);
                }
                entry.trace.merge_batch(batch);
                entry.last_modified = now;
                proof {
                    crate::trace::lemma_wf_is_derived(entry.trace@);
                    assert(entry@ == EntryM {
                        trace: derive_trace(spv.trace_id, merge_span_spec(tv0.spans, spv)),
                        last_modified: now.0,
                    });
                }
                let now_done = entry.trace.is_completed();
                let ghost pre = self.entries@;
                self.entries.insert(k, entry);
                proof {
                    assert forall|j: int|
                        0 <= j < entry_views(self.entries@).len() implies #[trigger] entry_views(
                        self.entries@,
                    )[j] == self.entries@[j]@ by {}
                    assert forall|j: int| 0 <= j < pre0.len() && j != k implies self.entries@[j]
                        == pre0[j] by {
                        if j < k {
                            assert(pre[j] == pre0[j]);
                        } else {
                            assert(pre[j - 1] == pre0[j]);
                        }
                    }
                    assert(entry_views(self.entries@) =~= spec_ingest_span(s0, spv, now.0));
                    assert forall|i: int, j: int| 0 <= i < j < self@.len() implies (
                    #[trigger] self@[i]).trace.trace_id != (#[trigger] self@[j]).trace.trace_id by {
                        assert(s0[i].trace.trace_id != s0[j].trace.trace_id);
                        if i != k && j != k {
                            assert(self@[i] == s0[i] && self@[j] == s0[j]);
                        }
                    }
                    assert forall|i: int| 0 <= i < self@.len() implies trace_wf(
                        (#[trigger] self@[i]).trace,
                    ) by {
                        if i != k {
                            assert(self@[i] == s0[i]);
                        }
                    }
                }
                events.push(TraceEvent::SpanAdded(tid, sid));
                if !was_done && now_done {
                    events.push(TraceEvent::TraceCompleted(tid));
                }
                proof {
                    assert(spec_span_events(s0, spv, now.0) == Seq::<TraceEvent>::empty() + seq![
                        TraceEvent::SpanAdded(TraceId(spv.trace_id), SpanId(spv.span_id)),
                    ] + if !was_done && now_done {
                        seq![TraceEvent::TraceCompleted(TraceId(spv.trace_id))]
                    } else {
                        Seq::<TraceEvent>::empty()
                    });
                    assert(events@ =~= ev0 + spec_span_events(s0, spv, now.0));
                }
            },
            None => {
                proof {
                    assert(!has_trace(s0, spv.trace_id));
                    assert(spans_wf(seq![spv], spv.trace_id));
                    crate::trace::lemma_merge_into_empty(spv);
                }
                let single = vec![sp];
                proof {
                    assert(views_of(single@) =~= seq![spv]);
                }
                let trace = Trace::recompute(tid, single);
                let done = trace.is_completed();
                proof {
                    crate::trace::lemma_wf_is_derived(trace@);
                }
                events.push(TraceEvent::TraceCreated(tid));
                events.push(TraceEvent::SpanAdded(tid, sid));
                if done {
                    events.push(TraceEvent::TraceCompleted(tid));
                }
                let ghost pre0 = self.entries@;
                self.entries.push(StoreEntry { trace, last_modified: now });
                proof {
                    assert forall|j: int|
                        0 <= j < entry_views(self.entries@).len() implies #[trigger] entry_views(
                        self.entries@,
                    )[j] == self.entries@[j]@ by {}
                    assert(entry_views(self.entries@) =~= spec_ingest_span(s0, spv, now.0));
                    assert forall|i: int, j: int| 0 <= i < j < self@.len() implies (
                    #[trigger] self@[i]).trace.trace_id != (#[trigger] self@[j]).trace.trace_id by {
                        if j < s0.len() {
                            assert(self@[i] == s0[i] && self@[j] == s0[j]);
                        } else {
                            assert(self@[i] == s0[i]);
                        }
                    }
                    assert forall|i: int| 0 <= i < self@.len() implies trace_wf(
                        (#[trigger] self@[i]).trace,
                    ) by {
                        if i < s0.len() {
                            assert(self@[i] == s0[i]);
                        }
                    }
                    assert(events@ =~= ev0 + spec_span_events(s0, spv, now.0));
                }
            },
        }
    }

    /// Merge a batch of spans at the given instant. Every span is accepted;
    /// the returned count equals the batch length, and the returned events
    /// are the batch's lifecycle events in order, for the caller to publish.
    ///
    /// The instant is injected so eviction and tests need no real clock.
    pub fn ingest_at(&mut self, spans: Vec<Span>, now: Timestamp) -> (r: (u32, Vec<TraceEvent>))
        requires
            old(self).wf(),
            spans@.len() <= u32::MAX,
        ensures
            final(self).wf(),
            final(self)@ == spec_ingest(old(self)@, views_of(spans@), now.0),
            final(self).config == old(self).config,
            r.0 == spans@.len() as u32,
            r.1@ == spec_ingest_events(old(self)@, views_of(spans@), now.0),
    {
        let ghost s0 = self@;
        let ghost bv = views_of(spans@);
        let count = spans.len() as u32;
        let mut events: Vec<TraceEvent> = Vec::new();
        let mut i: usize = 0;
        while i < spans.len()
            invariant
                i <= bv.len(),
                bv == views_of(spans@),
                spans@.len() == bv.len(),
                self@ == spec_ingest(s0, bv.take(i as int), now.0),
                self.config == old(self).config,
                store_wf(self@),
                events@ == spec_ingest_events(s0, bv.take(i as int), now.0),
            decreases bv.len() - i,
        {
            let sp = spans[i].clone();
            proof {
                assert(bv[i as int] == spans@[i as int]@);
                assert(sp@ == bv[i as int]);
                assert(bv.take(i + 1).drop_last() =~= bv.take(i as int));
                assert(bv.take(i + 1).last() == bv[i as int]);
            }
            self.ingest_one(sp, now, &mut events);
            i = i + 1;
        }
        proof {
            assert(bv.take(bv.len() as int) =~= bv);
        }
        (count, events)
    }

    /// Merge a batch of spans, stamped with the wall clock. The lifecycle
    /// events are not collected here: fan-out is the service facade's job.
    pub fn ingest(&mut self, spans: Vec<Span>) -> (r: u32)
        requires
            old(self).wf(),
            spans@.len() <= u32::MAX,
        ensures
            final(self).wf(),
            final(self).config == old(self).config,
            r == spans@.len() as u32,
            exists|n: u64| final(self)@ == spec_ingest(old(self)@, views_of(spans@), n),
    {
        let now = Timestamp::now();
        let (count, _events) = self.ingest_at(spans, now);
        proof {
            assert(self@ == spec_ingest(old(self)@, views_of(spans@), now.0));
        }
        count
    }

    /// A snapshot copy of the trace, unaffected by later ingestion; absent
    /// where the id was never seen or has been evicted.
    pub fn get(&self, trace_id: TraceId) -> (r: Option<Trace>)
        requires
            self.wf(),
        ensures
            match r {
                Some(t) => has_trace(self@, trace_id.0) && t@ == self@[trace_index(
                    self@,
                    trace_id.0,
                )].trace && trace_wf(t@),
                None => !has_trace(self@, trace_id.0),
            },
    {
        match find_entry_index(&self.entries, trace_id) {
            Some(k) => {
                proof {
                    lemma_trace_index_at(self@, trace_id.0, k as int);
                    assert(entry_views(self.entries@)[k as int] == self.entries@[k as int]@);
                }
                Some(self.entries[k].trace.clone())
            },
            None => None,
        }
    }

    /// Remove exactly the traces whose last-modified time plus the TTL has
    /// passed, leaving every other entry untouched, in order.
    pub fn evict_expired(&mut self, now: Timestamp)
        requires
            old(self).wf(),
        ensures
            final(self).wf(),
            final(self).config == old(self).config,
            final(self)@ == old(self)@.filter(live_at(old(self).config.ttl_nanos, now.0)),
    {
        let ghost before = self@;
        let ttl = self.config.ttl_nanos;
        let count = self.entries.len();
        proof {
            assert(before.len() == count);
        }
        let mut i: usize = 0;
        let mut w: usize = 0;
        while w < self.entries.len()
            invariant
                w <= i,
                before.len() <= usize::MAX,
                self.config == old(self).config,
                ttl == self.config.ttl_nanos,
                before == old(self)@,
                entry_views(self.entries@) =~= before.take(i as int).filter(
                    live_at(ttl, now.0),
                ) + before.skip(i as int),
                w == before.take(i as int).filter(live_at(ttl, now.0)).len(),
                entry_views(self.entries@).len() == w + (before.len() - i),
                i <= before.len(),
            decreases before.len() - i,
        {
            let ghost cur = entry_views(self.entries@);
            let ghost fi = before.take(i as int).filter(live_at(ttl, now.0));
            proof {
                assert(cur.len() == self.entries@.len());
                assert(i < before.len());
                assert(before.take(i + 1) =~= before.take(i as int).push(before[i as int]));
                before.take(i as int).lemma_filter_push(before[i as int], live_at(ttl, now.0));
                assert(cur[fi.len() as int] == before.skip(i as int)[0]);
                assert(before.skip(i as int)[0] == before[i as int]);
                assert(before.skip(i as int).skip(1) =~= before.skip(i + 1));
            }
            let last = self.entries[w].last_modified.0;
            let keep = now.0 < last || now.0 - last < ttl;
            proof {
                assert(entry_views(self.entries@)[w as int] == self.entries@[w as int]@);
                assert(keep == live_at(ttl, now.0)(before[i as int]));
            }
            if keep {
                proof {
                    assert(fi.push(before[i as int]) + before.skip(i + 1) =~= cur);
                }
                w = w + 1;
                i = i + 1;
            } else {
                let ghost pre = self.entries@;
                self.entries.remove(w);
                proof {
                    assert(entry_views(pre.remove(w as int)) =~= entry_views(pre).remove(
                        w as int,
                    ));
                    assert(entry_views(self.entries@) =~= fi + before.skip(i + 1));
                }
                i = i + 1;
            }
        }
        proof {
            assert(before.take(before.len() as int) =~= before);
            assert(before.skip(before.len() as int) =~= Seq::<EntryM>::empty());
            assert(entry_views(self.entries@) =~= before.filter(live_at(ttl, now.0)));
            lemma_filter_entries_wf(before, live_at(ttl, now.0));
            let s = self@;
            assert forall|k: int| 0 <= k < s.len() implies trace_wf(
                (#[trigger] s[k]).trace,
            ) by {
                assert(before.contains(s[k]));
                let m = choose|m: int| 0 <= m < before.len() && before[m] == s[k];
                assert(trace_wf((#[trigger] before[m]).trace));
            }
        }
    }
}

/// Filtering entries keeps the store invariants on them.
proof fn lemma_filter_entries_wf(s: Seq<EntryM>, pred: spec_fn(EntryM) -> bool)
    ensures
        forall|i: int| #![trigger s.filter(pred)[i]]
            0 <= i < s.filter(pred).len() ==> s.contains(s.filter(pred)[i]),
        forall|i: int, j: int|
            (forall|m: int, n: int| 0 <= m < n < s.len() ==> (#[trigger] s[m]).trace.trace_id != (
            #[trigger] s[n]).trace.trace_id) && 0 <= i < j < s.filter(pred).len() ==> (
            #[trigger] s.filter(pred)[i]).trace.trace_id != (
            #[trigger] s.filter(pred)[j]).trace.trace_id,
    decreases s.len(),
{
    reveal(Seq::filter);
    broadcast use Seq::lemma_index_contains;

    if s.len() > 0 {
        let d = s.drop_last();
        lemma_filter_entries_wf(d, pred);
        let f = s.filter(pred);
        let fd = d.filter(pred);
        assert forall|i: int| #![trigger f[i]] 0 <= i < f.len() implies s.contains(f[i]) by {
            if pred(s.last()) && i == f.len() - 1 {
            } else {
                assert(f[i] == fd[i]);
                assert(d.contains(fd[i]));
                let k = choose|k: int| 0 <= k < d.len() && d[k] == fd[i];
                assert(s[k] == f[i]);
            }
        }
        if forall|m: int, n: int| 0 <= m < n < s.len() ==> (#[trigger] s[m]).trace.trace_id != (
        #[trigger] s[n]).trace.trace_id {
            assert forall|m: int, n: int| 0 <= m < n < d.len() implies (
            #[trigger] d[m]).trace.trace_id != (#[trigger] d[n]).trace.trace_id by {
                assert(s[m].trace.trace_id != s[n].trace.trace_id);
            }
            assert forall|i: int, j: int| 0 <= i < j < f.len() implies (
            #[trigger] f[i]).trace.trace_id != (#[trigger] f[j]).trace.trace_id by {
                if pred(s.last()) && j == f.len() - 1 {
                    assert(f[i] == fd[i]);
                    assert(d.contains(fd[i]));
                    let k = choose|k: int| 0 <= k < d.len() && d[k] == fd[i];
                    assert(s[k].trace.trace_id != s[s.len() - 1].trace.trace_id);
                } else {
                    assert(f[i] == fd[i] && f[j] == fd[j]);
                }
            }
        }
    }
}

} // verus!
