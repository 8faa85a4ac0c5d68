//! The engine's cross-cutting guarantees, stated and proved once.
//!
//! Everything here is a consequence of the contracts in [`crate::trace`]
//! and [`crate::store`]; the lemmas name the guarantees a maintainer or a
//! caller would want to rely on: what assembly derives from a batch, that
//! re-ingesting a span id replaces rather than duplicates, and that two
//! batches of one trace merge to the same trace in either order.

use vstd::prelude::*;
use vstd::seq_lib::*;

use crate::model::SpanV;
use crate::store::{
    has_trace, spec_ingest, spec_ingest_span, store_wf, trace_index, EntryM,
};
use crate::trace::{
    derive_trace, has_open_span, lemma_derive_wf, lemma_merge_batch_distinct, lemma_merge_batch_wf,
    lemma_merge_span_wf, lemma_span_map_dom, lemma_spans_map_unique, merge_span_spec,
    merge_spans_spec, span_le, span_map, spans_wf, trace_wf,
};

verus! {

/// The span list an ingested trace rests on: the entry's spans where the
/// trace id is already known, nothing otherwise.
pub open spec fn base_spans(s: Seq<EntryM>, trace_id: u128) -> Seq<SpanV> {
    if has_trace(s, trace_id) {
        s[trace_index(s, trace_id)].trace.spans
    } else {
        Seq::empty()
    }
}

/// What one ingested span does to the store: its trace's entry — at its
/// old position, or appended for a fresh trace id — carries the merged
/// span list and the new stamp; every other entry is untouched.
pub proof fn lemma_ingest_span_effect(s: Seq<EntryM>, sp: SpanV, now: u64)
    requires
        store_wf(s),
    ensures
        ({
            let s2 = spec_ingest_span(s, sp, now);
            let j = if has_trace(s, sp.trace_id) {
                trace_index(s, sp.trace_id)
            } else {
                s.len() as int
            };
            &&& store_wf(s2)
            &&& s2.len() == if has_trace(s, sp.trace_id) {
                s.len() as int
            } else {
                (s.len() + 1) as int
            }
            &&& 0 <= j < s2.len()
            &&& has_trace(s2, sp.trace_id)
            &&& trace_index(s2, sp.trace_id) == j
            &&& s2[j].trace == derive_trace(sp.trace_id, merge_span_spec(base_spans(s, sp.trace_id), sp))
            &&& s2[j].last_modified == now
            &&& forall|k: int| 0 <= k < s.len() && k != j ==> #[trigger] s2[k] == s[k]
        }),
{
    let s2 = spec_ingest_span(s, sp, now);
    let base = base_spans(s, sp.trace_id);
    if has_trace(s, sp.trace_id) {
        let i = trace_index(s, sp.trace_id);
        assert(0 <= i < s.len());
        assert(trace_wf(s[i].trace));
        assert(s[i].trace.trace_id == sp.trace_id);
        lemma_merge_span_wf(base, sp, sp.trace_id);
        lemma_derive_wf(sp.trace_id, merge_span_spec(base, sp));
        assert(s2 == s.update(
            i,
            EntryM {
                trace: derive_trace(sp.trace_id, merge_span_spec(base, sp)),
                last_modified: now,
            },
        ));
        assert forall|m: int, n: int| 0 <= m < n < s2.len() implies (
        #[trigger] s2[m]).trace.trace_id != (#[trigger] s2[n]).trace.trace_id by {
            assert(s[m].trace.trace_id != s[n].trace.trace_id);
        }
        assert forall|m: int| 0 <= m < s2.len() implies trace_wf((#[trigger] s2[m]).trace) by {
            if m != i {
                assert(s2[m] == s[m]);
            }
        }
        crate::store::lemma_trace_index_at(s2, sp.trace_id, i);
    } else {
        lemma_merge_span_wf(base, sp, sp.trace_id);
        lemma_derive_wf(sp.trace_id, merge_span_spec(base, sp));
        assert(s2 == s.push(
            EntryM {
                trace: derive_trace(sp.trace_id, merge_span_spec(base, sp)),
                last_modified: now,
            },
        ));
        assert forall|m: int, n: int| 0 <= m < n < s2.len() implies (
        #[trigger] s2[m]).trace.trace_id != (#[trigger] s2[n]).trace.trace_id by {
            if n < s.len() {
                assert(s2[m] == s[m] && s2[n] == s[n]);
                assert(s[m].trace.trace_id != s[n].trace.trace_id);
            } else {
                assert(s2[m] == s[m]);
                assert(s[m].trace.trace_id != sp.trace_id);
            }
        }
        assert forall|m: int| 0 <= m < s2.len() implies trace_wf((#[trigger] s2[m]).trace) by {
            if m < s.len() {
                assert(s2[m] == s[m]);
            }
        }
        crate::store::lemma_trace_index_at(s2, sp.trace_id, s.len() as int);
    }
}

/// What a whole batch of one trace id does to the store: the trace's entry
/// carries the whole batch merged in and the final stamp; every other
/// entry is untouched.
pub proof fn lemma_ingest_batch_effect(s: Seq<EntryM>, batch: Seq<SpanV>, trace_id: u128, now: u64)
    requires
        store_wf(s),
        batch.len() > 0,
        forall|i: int| 0 <= i < batch.len() ==> (#[trigger] batch[i]).trace_id == trace_id,
    ensures
        ({
            let s2 = spec_ingest(s, batch, now);
            let j = if has_trace(s, trace_id) {
                trace_index(s, trace_id)
            } else {
                s.len() as int
            };
            &&& store_wf(s2)
            &&& s2.len() == if has_trace(s, trace_id) {
                s.len() as int
            } else {
                (s.len() + 1) as int
            }
            &&& 0 <= j < s2.len()
            &&& has_trace(s2, trace_id)
            &&& trace_index(s2, trace_id) == j
            &&& s2[j].trace == derive_trace(
                trace_id,
                merge_spans_spec(base_spans(s, trace_id), batch),
            )
            &&& s2[j].last_modified == now
            &&& forall|k: int| 0 <= k < s.len() && k != j ==> #[trigger] spec_ingest(s, batch, now)[k] == s[k]
        }),
    decreases batch.len(),
{
    let s2 = spec_ingest(s, batch, now);
    let base = base_spans(s, trace_id);
    let bl = batch.last();
    let d = batch.drop_last();
    let j = if has_trace(s, trace_id) {
        trace_index(s, trace_id)
    } else {
        s.len() as int
    };
    if d.len() == 0 {
        assert(spec_ingest(s, d, now) == s);
        lemma_ingest_span_effect(s, bl, now);
        assert(merge_spans_spec(base, batch) == merge_span_spec(merge_spans_spec(base, d), bl));
        assert(merge_spans_spec(base, d) == base);
    } else {
        lemma_ingest_batch_effect(s, d, trace_id, now);
        let s1 = spec_ingest(s, d, now);
        lemma_ingest_span_effect(s1, bl, now);
        assert(has_trace(s1, trace_id));
        assert(trace_index(s1, trace_id) == j);
        assert(base_spans(s1, trace_id) == merge_spans_spec(base, d)) by {
            assert(s1[j].trace == derive_trace(trace_id, merge_spans_spec(base, d)));
        }
        assert(s2[j].trace == derive_trace(trace_id, merge_span_spec(merge_spans_spec(base, d), bl)));
        assert(merge_spans_spec(base, batch) == merge_span_spec(merge_spans_spec(base, d), bl));
        assert forall|k: int| 0 <= k < s.len() && k != j implies #[trigger] s2[k] == s[k] by {
            assert(s1[k] == s[k]);
        }
    }
}

/// Assembling a non-empty batch of distinct spans sharing one trace id
/// gives a trace whose start time is the least span start time of the
/// batch, and whose end time is absent exactly when some span of the batch
/// is still open.
pub proof fn lemma_assemble_start_end(batch: Seq<SpanV>)
    requires
        batch.len() > 0,
        forall|i: int| 0 <= i < batch.len() ==> (#[trigger] batch[i]).trace_id == batch[0].trace_id,
        forall|i: int, j: int| 0 <= i < j < batch.len() ==> (#[trigger] batch[i]).span_id != (
        #[trigger] batch[j]).span_id,
    ensures
        ({
            let t = derive_trace(
                batch[0].trace_id,
                merge_spans_spec(Seq::empty(), batch),
            );
            &&& t.spans.len() == batch.len()
            &&& forall|i: int| 0 <= i < batch.len() ==> t.start_time <= (#[trigger] batch[i]).start_time
            &&& exists|i: int| 0 <= i < batch.len() && (#[trigger] batch[i]).start_time == t.start_time
            &&& (t.end_time is None <==> exists|i: int|
                0 <= i < batch.len() && (#[trigger] batch[i]).end_time is None)
        }),
{
    broadcast use Seq::lemma_index_contains;

    let tid = batch[0].trace_id;
    let m = merge_spans_spec(Seq::empty(), batch);
    let t = derive_trace(tid, m);
    lemma_merge_batch_distinct(batch, tid);
    lemma_merge_batch_wf(Seq::empty(), batch, tid);
    assert(m.len() == batch.len());
    assert(t.start_time == m[0].start_time);
    assert forall|i: int| 0 <= i < batch.len() implies t.start_time <= (
    #[trigger] batch[i]).start_time by {
        assert(batch.contains(batch[i]));
        assert(m.contains(batch[i]));
        let k = choose|k: int| 0 <= k < m.len() && m[k] == batch[i];
        if k > 0 {
            assert(crate::trace::span_leq()(m[0], m[k]));
            assert(span_le(m[0], m[k]));
        }
    }
    assert(m.contains(m[0]));
    assert(batch.contains(m[0]));
    let w = choose|w: int| 0 <= w < batch.len() && batch[w] == m[0];
    assert(batch[w].start_time == t.start_time);
    assert((t.end_time is None) == has_open_span(m));
    if has_open_span(m) {
        let k = choose|k: int| 0 <= k < m.len() && (#[trigger] m[k]).end_time is None;
        assert(m.contains(m[k]));
        assert(batch.contains(m[k]));
        let n = choose|n: int| 0 <= n < batch.len() && batch[n] == m[k];
        assert(batch[n].end_time is None);
    }
    if exists|i: int| 0 <= i < batch.len() && (#[trigger] batch[i]).end_time is None {
        let i = choose|i: int| 0 <= i < batch.len() && (#[trigger] batch[i]).end_time is None;
        assert(batch.contains(batch[i]));
        assert(m.contains(batch[i]));
        let k = choose|k: int| 0 <= k < m.len() && m[k] == batch[i];
        assert(has_open_span(m));
    }
}

/// Re-ingesting a span id replaces the older copy: after two ingests of
/// the same trace and span id, the trace holds the second version under
/// that id — once, not twice — and is otherwise what one merge gives.
pub proof fn lemma_last_write_wins(s: Seq<EntryM>, a: SpanV, b: SpanV, n1: u64, n2: u64)
    requires
        store_wf(s),
        a.trace_id == b.trace_id,
        a.span_id == b.span_id,
    ensures
        ({
            let s2 = spec_ingest_span(spec_ingest_span(s, a, n1), b, n2);
            let t = s2[trace_index(s2, b.trace_id)].trace;
            &&& has_trace(s2, b.trace_id)
            &&& span_map(t.spans) == span_map(base_spans(s, b.trace_id)).insert(b.span_id, b)
            &&& t.spans.len() == if span_map(base_spans(s, b.trace_id)).contains_key(b.span_id) {
                base_spans(s, b.trace_id).len() as int
            } else {
                (base_spans(s, b.trace_id).len() + 1) as int
            }
            &&& forall|i: int|
                0 <= i < t.spans.len() && (#[trigger] t.spans[i]).span_id == b.span_id
                    ==> t.spans[i] == b
        }),
{
    let tid = b.trace_id;
    let base = base_spans(s, tid);
    let s1 = spec_ingest_span(s, a, n1);
    lemma_ingest_span_effect(s, a, n1);
    let s2 = spec_ingest_span(s1, b, n2);
    lemma_ingest_span_effect(s1, b, n2);
    let base1 = base_spans(s1, tid);
    assert(base1 == merge_span_spec(base, a));
    let t = s2[trace_index(s2, tid)].trace;
    assert(t.spans == merge_span_spec(merge_span_spec(base, a), b));
    assert(spans_wf(base, tid)) by {
        if has_trace(s, tid) {
            assert(trace_wf(s[trace_index(s, tid)].trace));
        }
    }
    lemma_merge_span_wf(base, a, tid);
    lemma_merge_span_wf(merge_span_spec(base, a), b, tid);
    assert(span_map(t.spans) =~= span_map(base).insert(b.span_id, b));
    assert(t.spans.len() == if span_map(merge_span_spec(base, a)).contains_key(b.span_id) {
        merge_span_spec(base, a).len() as int
    } else {
        (merge_span_spec(base, a).len() + 1) as int
    });
    assert(span_map(merge_span_spec(base, a)) == span_map(base).insert(a.span_id, a));
    assert(span_map(merge_span_spec(base, a)).contains_key(b.span_id));
    crate::trace::lemma_span_map_char(t.spans);
    assert forall|i: int|
        0 <= i < t.spans.len() && (#[trigger] t.spans[i]).span_id == b.span_id implies t.spans[i]
        == b by {
        assert(span_map(t.spans)[t.spans[i].span_id] == t.spans[i]);
        assert(span_map(t.spans)[b.span_id] == b);
    }
}

/// Ingesting two batches of one trace id, with no span id in both batches,
/// leaves the same store in either order: merging is commutative over the
/// combined span set even though each batch alone is last-write-wins.
pub proof fn lemma_batches_commute(
    s: Seq<EntryM>,
    a: Seq<SpanV>,
    b: Seq<SpanV>,
    trace_id: u128,
    n1: u64,
    n2: u64,
)
    requires
        store_wf(s),
        a.len() > 0,
        b.len() > 0,
        forall|i: int| 0 <= i < a.len() ==> (#[trigger] a[i]).trace_id == trace_id,
        forall|i: int| 0 <= i < b.len() ==> (#[trigger] b[i]).trace_id == trace_id,
        forall|i: int, j: int|
            0 <= i < a.len() && 0 <= j < b.len() ==> (#[trigger] a[i]).span_id != (
            #[trigger] b[j]).span_id,
    ensures
        spec_ingest(spec_ingest(s, a, n1), b, n2) == spec_ingest(spec_ingest(s, b, n1), a, n2),
{
    let base = base_spans(s, trace_id);
    assert(spans_wf(base, trace_id)) by {
        if has_trace(s, trace_id) {
            assert(trace_wf(s[trace_index(s, trace_id)].trace));
        }
    }
    let sa = spec_ingest(s, a, n1);
    let sb = spec_ingest(s, b, n1);
    let j = if has_trace(s, trace_id) {
        trace_index(s, trace_id)
    } else {
        s.len() as int
    };
    lemma_ingest_batch_effect(s, a, trace_id, n1);
    lemma_ingest_batch_effect(s, b, trace_id, n1);
    lemma_ingest_batch_effect(sa, b, trace_id, n2);
    lemma_ingest_batch_effect(sb, a, trace_id, n2);
    let s_ab = spec_ingest(sa, b, n2);
    let s_ba = spec_ingest(sb, a, n2);
    assert(base_spans(sa, trace_id) == merge_spans_spec(base, a));
    assert(base_spans(sb, trace_id) == merge_spans_spec(base, b));
    let m_ab = merge_spans_spec(merge_spans_spec(base, a), b);
    let m_ba = merge_spans_spec(merge_spans_spec(base, b), a);
    lemma_merge_batch_wf(base, a, trace_id);
    lemma_merge_batch_wf(base, b, trace_id);
    lemma_merge_batch_wf(merge_spans_spec(base, a), b, trace_id);
    lemma_merge_batch_wf(merge_spans_spec(base, b), a, trace_id);
    assert(m_ab == m_ba) by {
        assert(span_map(m_ab) == span_map(base).union_prefer_right(
            span_map(a),
        ).union_prefer_right(span_map(b)));
        assert(span_map(m_ba) == span_map(base).union_prefer_right(
            span_map(b),
        ).union_prefer_right(span_map(a)));
        lemma_span_map_dom(a);
        lemma_span_map_dom(b);
        assert forall|k: u64| #[trigger] span_map(a).contains_key(k) implies !span_map(
            b,
        ).contains_key(k) by {
            let i = choose|i: int| 0 <= i < a.len() && (#[trigger] a[i]).span_id == k;
            if span_map(b).contains_key(k) {
                let j = choose|j: int| 0 <= j < b.len() && (#[trigger] b[j]).span_id == k;
                assert(a[i].span_id != b[j].span_id);
            }
        }
        assert(span_map(base).union_prefer_right(span_map(a)).union_prefer_right(span_map(b))
            =~= span_map(base).union_prefer_right(span_map(b)).union_prefer_right(span_map(a)));
        lemma_spans_map_unique(m_ab, m_ba, trace_id);
    }
    assert(s_ab.len() == s_ba.len());
    assert(trace_index(sa, trace_id) == j);
    assert(trace_index(sb, trace_id) == j);
    assert forall|k: int| 0 <= k < s_ab.len() implies s_ab[k] == s_ba[k] by {
        if k == j {
            assert(s_ab[j].trace == derive_trace(trace_id, m_ab));
            assert(s_ba[j].trace == derive_trace(trace_id, m_ba));
            assert(s_ab[j].last_modified == n2 && s_ba[j].last_modified == n2);
        } else if 0 <= k < s.len() {
            assert(sa[k] == s[k] && sb[k] == s[k]);
            assert(s_ab[k] == sa[k] && s_ba[k] == sb[k]);
        }
    }
    assert(s_ab =~= s_ba);
}

} // verus!
