//! Traces: assembling a flat collection of spans into a rooted tree.
//!
//! A [`Trace`] is the materialised, growing view of all spans seen so far
//! for one trace id. Its span list is kept sorted by start time (ties broken
//! by span id) with span ids unique: re-ingesting a span id replaces the
//! older copy, last write wins. A batch with no root, or more than one, is
//! not an error — out-of-order arrival makes that a normal transient state —
//! the trace is merely flagged [`Trace::incomplete`].

use vstd::prelude::*;
use vstd::relations::sorted_by;
use vstd::seq_lib::*;

use crate::ids::{SpanId, Timestamp, TraceId};
use crate::model::{Span, SpanV};

verus! {

/// Rejections of a whole span batch; both are caller bugs, reported and
/// never tolerated silently.
#[derive(Clone, Copy, Debug, PartialEq, Eq, Structural)]
pub enum AssemblyError {
    /// The batch held no spans at all.
    EmptyBatch,
    /// The batch mixed spans of two or more trace ids.
    MixedTraceIds,
}

/// Classification thresholds; configuration, not constants of the engine.
#[derive(Clone, Copy, Debug, PartialEq, Eq, Structural)]
pub struct Thresholds {
    /// A finished trace lasting longer than this is `Slow`.
    pub slow_nanos: u64,
    /// A finished trace lasting less than this is `Fast`.
    pub fast_nanos: u64,
}

impl Default for Thresholds {
    /// The documented defaults: slower than one second is `Slow`, faster
    /// than a tenth of a second is `Fast`.
    fn default() -> (r: Self)
        ensures
            r.slow_nanos == 1_000_000_000,
            r.fast_nanos == 100_000_000,
    {
        Thresholds { slow_nanos: 1_000_000_000, fast_nanos: 100_000_000 }
    }
}

/// Derived categorical label of a trace, recomputed from its current state.
#[derive(Clone, Copy, Debug, PartialEq, Eq, Structural)]
pub enum TraceType {
    /// Some span reported an error status.
    Error,
    /// Finished and took longer than the slow threshold.
    Slow,
    /// Finished and took less than the fast threshold.
    Fast,
    /// Anything else, in particular a trace still in flight.
    Normal,
}

/// Span order within a trace: by start time, ties broken by span id so the
/// order is deterministic.
pub open spec fn span_le(a: SpanV, b: SpanV) -> bool {
    a.start_time < b.start_time || (a.start_time == b.start_time && a.span_id <= b.span_id)
}

/// [`span_le`] as a binary relation value, for `sorted_by`.
pub open spec fn span_leq() -> spec_fn(SpanV, SpanV) -> bool {
    |a: SpanV, b: SpanV| span_le(a, b)
}

/// The views of a sequence of spans.
pub open spec fn views_of(s: Seq<Span>) -> Seq<SpanV> {
    s.map_values(|sp: Span| sp@)
}

/// Well-formed span list of a trace: every span carries the trace's id,
/// span ids are unique, and the list is sorted by [`span_le`].
pub open spec fn spans_wf(s: Seq<SpanV>, trace_id: u128) -> bool {
    &&& forall|i: int| 0 <= i < s.len() ==> (#[trigger] s[i]).trace_id == trace_id
    &&& forall|i: int, j: int| 0 <= i < j < s.len() ==> (#[trigger] s[i]).span_id != (
    #[trigger] s[j]).span_id
    &&& sorted_by(s, span_leq())
}

/// The span list as a map from span id to span, later entries winning.
pub open spec fn span_map(s: Seq<SpanV>) -> Map<u64, SpanV>
    decreases s.len(),
{
    if s.len() == 0 {
        Map::empty()
    } else {
        span_map(s.drop_last()).insert(s.last().span_id, s.last())
    }
}

/// The spans with no parent: the candidates for the root of the tree.
pub open spec fn roots(s: Seq<SpanV>) -> Seq<SpanV> {
    s.filter(|x: SpanV| x.parent_span_id is None)
}

/// Whether a span names the given span as its parent, as a predicate value.
pub open spec fn child_of(parent: u64) -> spec_fn(SpanV) -> bool {
    |x: SpanV| x.parent_span_id == Some(parent)
}

/// Whether some span is still open (has no end time).
pub open spec fn has_open_span(s: Seq<SpanV>) -> bool {
    exists|i: int| 0 <= i < s.len() && (#[trigger] s[i]).end_time is None
}

/// Whether some span reported an error status.
pub open spec fn has_error_span(s: Seq<SpanV>) -> bool {
    exists|i: int| 0 <= i < s.len() && (#[trigger] s[i]).status is Error
}

/// A span's end time, reading an open span as zero. Only meaningful where
/// no span is open.
pub open spec fn end_or_zero(sp: SpanV) -> u64 {
    match sp.end_time {
        Some(e) => e,
        None => 0u64,
    }
}

/// Latest end time over the list, reading open spans as zero.
pub open spec fn max_end(s: Seq<SpanV>) -> u64
    decreases s.len(),
{
    if s.len() == 0 {
        0u64
    } else {
        let rest = max_end(s.drop_last());
        if end_or_zero(s.last()) >= rest {
            end_or_zero(s.last())
        } else {
            rest
        }
    }
}

/// The span list with any copy of the given span id taken out.
pub open spec fn remove_id(s: Seq<SpanV>, id: u64) -> Seq<SpanV> {
    s.filter(|x: SpanV| x.span_id != id)
}

/// Insertion into a sorted span list, keeping the order.
pub open spec fn insert_sorted(s: Seq<SpanV>, sp: SpanV) -> Seq<SpanV>
    decreases s.len(),
{
    if s.len() == 0 {
        seq![sp]
    } else if span_le(sp, s[0]) {
        seq![sp] + s
    } else {
        seq![s[0]] + insert_sorted(s.drop_first(), sp)
    }
}

/// Merge one span into a well-formed span list: the older copy of its span
/// id, if any, is replaced — last write wins.
pub open spec fn merge_span_spec(s: Seq<SpanV>, sp: SpanV) -> Seq<SpanV> {
    insert_sorted(remove_id(s, sp.span_id), sp)
}

/// Merge a whole batch, in batch order.
pub open spec fn merge_spans_spec(s: Seq<SpanV>, batch: Seq<SpanV>) -> Seq<SpanV>
    decreases batch.len(),
{
    if batch.len() == 0 {
        s
    } else {
        merge_span_spec(merge_spans_spec(s, batch.drop_last()), batch.last())
    }
}

/// [`span_le`] is total: any two spans are ordered, and two spans ordered
/// both ways share start time and span id.
pub proof fn lemma_span_le_total(a: SpanV, b: SpanV)
    ensures
        span_le(a, b) || span_le(b, a),
        span_le(a, b) && span_le(b, a) ==> a.start_time == b.start_time && a.span_id == b.span_id,
{
}

/// Filtering keeps a span list sorted.
pub proof fn lemma_sorted_filter(s: Seq<SpanV>, pred: spec_fn(SpanV) -> bool)
    requires
        sorted_by(s, span_leq()),
    ensures
        sorted_by(s.filter(pred), span_leq()),
    decreases s.len(),
{
    reveal(Seq::filter);
    if s.len() > 0 {
        assert(sorted_by(s.drop_last(), span_leq()));
        lemma_sorted_filter(s.drop_last(), pred);
        let f = s.filter(pred);
        let fd = s.drop_last().filter(pred);
        if pred(s.last()) {
            assert forall|i: int, j: int| 0 <= i < j < f.len() implies span_leq()(f[i], f[j]) by {
                if j < f.len() - 1 {
                    assert(span_leq()(fd[i], fd[j]));
                } else {
                    assert(f[i] == fd[i]);
                    assert(s.drop_last().contains(fd[i])) by {
                        broadcast use Seq::lemma_index_contains;

                        s.drop_last().lemma_filter_contains_rev(pred, fd[i]);
                    }
                    let k = choose|k: int|
                        0 <= k < s.drop_last().len() && s.drop_last()[k] == fd[i];
                    assert(span_leq()(s[k], s[s.len() - 1]));
                }
            }
        }
    }
}

/// Filtering keeps span ids distinct.
pub proof fn lemma_filter_distinct_ids(s: Seq<SpanV>, pred: spec_fn(SpanV) -> bool)
    requires
        forall|i: int, j: int| 0 <= i < j < s.len() ==> (#[trigger] s[i]).span_id != (
        #[trigger] s[j]).span_id,
    ensures
        forall|i: int, j: int| 0 <= i < j < s.filter(pred).len() ==> (#[trigger] s.filter(
            pred,
        )[i]).span_id != (#[trigger] s.filter(pred)[j]).span_id,
    decreases s.len(),
{
    reveal(Seq::filter);
    if s.len() > 0 {
        let d = s.drop_last();
        lemma_filter_distinct_ids(d, pred);
        let f = s.filter(pred);
        let fd = d.filter(pred);
        if pred(s.last()) {
            assert forall|i: int, j: int| 0 <= i < j < f.len() implies (#[trigger] f[i]).span_id
                != (#[trigger] f[j]).span_id by {
                if j == f.len() - 1 {
                    assert(f[i] == fd[i]);
                    assert(d.contains(fd[i])) by {
                        broadcast use Seq::lemma_index_contains;

                        d.lemma_filter_contains_rev(pred, fd[i]);
                    }
                    let k = choose|k: int| 0 <= k < d.len() && d[k] == fd[i];
                    assert(s[k].span_id != s.last().span_id);
                } else {
                    assert(f[i] == fd[i] && f[j] == fd[j]);
                }
            }
        }
    }
}

/// What `span_map` holds: one key per distinct span id, mapping to the span
/// that carries it.
pub proof fn lemma_span_map_char(s: Seq<SpanV>)
    requires
        forall|i: int, j: int| 0 <= i < j < s.len() ==> (#[trigger] s[i]).span_id != (
        #[trigger] s[j]).span_id,
    ensures
        forall|id: u64| #[trigger]
            span_map(s).contains_key(id) <==> exists|i: int|
                0 <= i < s.len() && (#[trigger] s[i]).span_id == id,
        forall|i: int|
            0 <= i < s.len() ==> span_map(s).contains_key((#[trigger] s[i]).span_id) && span_map(
                s,
            )[s[i].span_id] == s[i],
        span_map(s).dom().finite(),
        span_map(s).dom().len() == s.len(),
    decreases s.len(),
{
    if s.len() > 0 {
        let d = s.drop_last();
        lemma_span_map_char(d);
        assert(!span_map(d).contains_key(s.last().span_id));
        assert forall|id: u64| #[trigger] span_map(s).contains_key(id) implies exists|i: int|
            0 <= i < s.len() && (#[trigger] s[i]).span_id == id by {
            if id == s.last().span_id {
                assert(s[s.len() - 1].span_id == id);
            } else {
                let i = choose|i: int| 0 <= i < d.len() && (#[trigger] d[i]).span_id == id;
                assert(s[i].span_id == id);
            }
        }
        assert forall|i: int| 0 <= i < s.len() implies span_map(s).contains_key(
            (#[trigger] s[i]).span_id,
        ) && span_map(s)[s[i].span_id] == s[i] by {
            if i < s.len() - 1 {
                assert(d[i] == s[i]);
                assert(span_map(d)[s[i].span_id] == s[i]);
                assert(s[i].span_id != s.last().span_id);
            }
        }
    }
}

/// Removing a span id takes out exactly that key of the span map and keeps
/// the list well formed.
pub proof fn lemma_remove_id_props(s: Seq<SpanV>, id: u64, trace_id: u128)
    requires
        spans_wf(s, trace_id),
    ensures
        spans_wf(remove_id(s, id), trace_id),
        forall|i: int| 0 <= i < remove_id(s, id).len() ==> (#[trigger] remove_id(s, id)[i]).span_id
            != id,
        forall|x: SpanV| #[trigger]
            remove_id(s, id).contains(x) <==> s.contains(x) && x.span_id != id,
        span_map(remove_id(s, id)) == span_map(s).remove(id),
        remove_id(s, id).len() == if span_map(s).contains_key(id) {
            s.len() - 1
        } else {
            s.len() as int
        },
{
    let pred = |x: SpanV| x.span_id != id;
    let r = s.filter(pred);
    lemma_sorted_filter(s, pred);
    lemma_filter_distinct_ids(s, pred);
    broadcast use Seq::lemma_filter_pred;

    assert forall|i: int| 0 <= i < r.len() implies (#[trigger] r[i]).trace_id == trace_id
        && r[i].span_id != id by {
        broadcast use Seq::lemma_index_contains;

        s.lemma_filter_contains_rev(pred, r[i]);
        let k = choose|k: int| 0 <= k < s.len() && s[k] == r[i];
        assert(s[k].trace_id == trace_id);
    }
    assert forall|x: SpanV| #[trigger] r.contains(x) <==> s.contains(x) && x.span_id != id by {
        if r.contains(x) {
            s.lemma_filter_contains_rev(pred, x);
            let k = choose|k: int| 0 <= k < r.len() && r[k] == x;
            assert(pred(r[k]));
        }
        if s.contains(x) && x.span_id != id {
            let k = choose|k: int| 0 <= k < s.len() && s[k] == x;
            s.lemma_filter_contains(pred, k);
        }
    }
    lemma_remove_id_map(s, id);
    lemma_span_map_char(s);
    lemma_span_map_char(r);
    if span_map(s).contains_key(id) {
        assert(span_map(r).dom() =~= span_map(s).dom().remove(id));
        assert(span_map(s).dom().remove(id).len() == s.len() - 1);
    } else {
        assert(span_map(r).dom() =~= span_map(s).dom());
    }
}

/// The span map of a filtered list is the map with that key removed.
proof fn lemma_remove_id_map(s: Seq<SpanV>, id: u64)
    ensures
        span_map(remove_id(s, id)) == span_map(s).remove(id),
    decreases s.len(),
{
    reveal(Seq::filter);
    let pred = |x: SpanV| x.span_id != id;
    if s.len() == 0 {
        assert(span_map(remove_id(s, id)) =~= span_map(s).remove(id));
    } else {
        let d = s.drop_last();
        lemma_remove_id_map(d, id);
        if pred(s.last()) {
            assert(remove_id(s, id) == remove_id(d, id).push(s.last()));
            assert(remove_id(s, id).drop_last() == remove_id(d, id));
            assert(remove_id(s, id).last() == s.last());
            assert(span_map(remove_id(s, id)) =~= span_map(s).remove(id));
        } else {
            assert(remove_id(s, id) == remove_id(d, id));
            assert(span_map(remove_id(s, id)) =~= span_map(s).remove(id));
        }
    }
}

/// Sorted insertion: one longer, still sorted, contents grown by the span.
#[verifier::rlimit(50)]
pub proof fn lemma_insert_sorted_props(s: Seq<SpanV>, sp: SpanV)
    requires
        sorted_by(s, span_leq()),
    ensures
        insert_sorted(s, sp).len() == s.len() + 1,
        sorted_by(insert_sorted(s, sp), span_leq()),
        forall|x: SpanV| #[trigger] insert_sorted(s, sp).contains(x) <==> s.contains(x) || x == sp,
    decreases s.len(),
{
    broadcast use Seq::lemma_index_contains;

    let r = insert_sorted(s, sp);
    if s.len() == 0 {
        assert forall|x: SpanV| #[trigger] r.contains(x) <==> s.contains(x) || x == sp by {
            if r.contains(x) {
                assert(x == r[0]);
            }
            if x == sp {
                assert(r[0] == x);
            }
        }
    } else if span_le(sp, s[0]) {
        assert forall|i: int, j: int| 0 <= i < j < r.len() implies span_leq()(r[i], r[j]) by {
            if i == 0 {
                assert(span_le(sp, s[0]));
                if j > 1 {
                    assert(span_leq()(s[0], s[j - 1]));
                }
            } else {
                assert(span_leq()(s[i - 1], s[j - 1]));
            }
        }
        assert forall|x: SpanV| #[trigger] r.contains(x) <==> s.contains(x) || x == sp by {
            if r.contains(x) {
                let k = choose|k: int| 0 <= k < r.len() && r[k] == x;
                if k == 0 {
                } else {
                    assert(s[k - 1] == x);
                }
            }
            if s.contains(x) {
                let k = choose|k: int| 0 <= k < s.len() && s[k] == x;
                assert(r[k + 1] == x);
            }
            if x == sp {
                assert(r[0] == x);
            }
        }
    } else {
        let d = s.drop_first();
        assert(sorted_by(d, span_leq()));
        lemma_insert_sorted_props(d, sp);
        let rd = insert_sorted(d, sp);
        assert(r == seq![s[0]] + rd);
        lemma_span_le_total(sp, s[0]);
        assert forall|k: int| 0 <= k < rd.len() implies span_leq()(s[0], rd[k]) by {
            assert(rd.contains(rd[k]));
            if rd[k] == sp {
                assert(span_le(s[0], sp));
            } else {
                let m = choose|m: int| 0 <= m < d.len() && d[m] == rd[k];
                assert(span_leq()(s[0], s[m + 1]));
            }
        }
        assert forall|i: int, j: int| 0 <= i < j < r.len() implies span_leq()(r[i], r[j]) by {
            if i == 0 {
                assert(r[j] == rd[j - 1]);
            } else {
                assert(r[i] == rd[i - 1] && r[j] == rd[j - 1]);
                assert(sorted_by(rd, span_leq()));
            }
        }
        assert forall|x: SpanV| #[trigger] r.contains(x) <==> s.contains(x) || x == sp by {
            if r.contains(x) {
                let k = choose|k: int| 0 <= k < r.len() && r[k] == x;
                if k == 0 {
                    assert(s[0] == x);
                } else {
                    assert(rd[k - 1] == x);
                    if d.contains(x) {
                        let m = choose|m: int| 0 <= m < d.len() && d[m] == x;
                        assert(s[m + 1] == x);
                    }
                }
            }
            if s.contains(x) {
                let k = choose|k: int| 0 <= k < s.len() && s[k] == x;
                if k == 0 {
                    assert(r[0] == x);
                } else {
                    assert(d[k - 1] == x);
                    assert(rd.contains(x));
                    let m = choose|m: int| 0 <= m < rd.len() && rd[m] == x;
                    assert(r[m + 1] == x);
                }
            }
            if x == sp {
                assert(rd.contains(x));
                let m = choose|m: int| 0 <= m < rd.len() && rd[m] == x;
                assert(r[m + 1] == x);
            }
        }
    }
}

/// Where the insertion point is known, sorted insertion is `Seq::insert`.
pub proof fn lemma_insert_sorted_at(s: Seq<SpanV>, sp: SpanV, j: int)
    requires
        sorted_by(s, span_leq()),
        0 <= j <= s.len(),
        forall|k: int| 0 <= k < j ==> !span_le(sp, #[trigger] s[k]),
        j < s.len() ==> span_le(sp, s[j]),
    ensures
        insert_sorted(s, sp) == s.insert(j, sp),
    decreases j,
{
    if j == 0 {
        if s.len() == 0 {
            assert(insert_sorted(s, sp) =~= s.insert(0, sp));
        } else {
            assert(insert_sorted(s, sp) =~= s.insert(0, sp));
        }
    } else {
        assert(!span_le(sp, s[0]));
        let d = s.drop_first();
        assert(sorted_by(d, span_leq()));
        assert(forall|k: int| 0 <= k < j - 1 ==> !span_le(sp, #[trigger] d[k]));
        lemma_insert_sorted_at(d, sp, j - 1);
        assert(insert_sorted(s, sp) == seq![s[0]] + d.insert(j - 1, sp));
        assert(seq![s[0]] + d.insert(j - 1, sp) =~= s.insert(j, sp));
    }
}

/// Merging one span updates exactly its key of the span map and keeps the
/// list well formed; the length grows only for a fresh span id.
pub proof fn lemma_merge_span_wf(s: Seq<SpanV>, sp: SpanV, trace_id: u128)
    requires
        spans_wf(s, trace_id),
        sp.trace_id == trace_id,
    ensures
        spans_wf(merge_span_spec(s, sp), trace_id),
        span_map(merge_span_spec(s, sp)) == span_map(s).insert(sp.span_id, sp),
        forall|x: SpanV| #[trigger]
            merge_span_spec(s, sp).contains(x) <==> (s.contains(x) && x.span_id != sp.span_id) || x
                == sp,
        merge_span_spec(s, sp).len() == if span_map(s).contains_key(sp.span_id) {
            s.len() as int
        } else {
            (s.len() + 1) as int
        },
{
    broadcast use Seq::lemma_index_contains;

    let removed = remove_id(s, sp.span_id);
    lemma_remove_id_props(s, sp.span_id, trace_id);
    lemma_insert_sorted_props(removed, sp);
    let m = merge_span_spec(s, sp);
    assert forall|i: int| 0 <= i < m.len() implies (#[trigger] m[i]).trace_id == trace_id by {
        assert(m.contains(m[i]));
    }
    lemma_insert_sorted_distinct(removed, sp);
    lemma_span_map_char(s);
    lemma_span_map_char(m);
    assert(span_map(m) =~= span_map(s).insert(sp.span_id, sp)) by {
        lemma_span_map_char(s);
        lemma_span_map_char(m);
        assert forall|id: u64| span_map(m).contains_key(id) <==> span_map(s).insert(
            sp.span_id,
            sp,
        ).contains_key(id) by {
            if span_map(m).contains_key(id) {
                let i = choose|i: int| 0 <= i < m.len() && (#[trigger] m[i]).span_id == id;
                assert(m.contains(m[i]));
                if m[i] != sp {
                    assert(s.contains(m[i]));
                    let k = choose|k: int| 0 <= k < s.len() && s[k] == m[i];
                    assert(span_map(s).contains_key(id));
                }
            }
            if id != sp.span_id && span_map(s).contains_key(id) {
                let i = choose|i: int| 0 <= i < s.len() && (#[trigger] s[i]).span_id == id;
                assert(s.contains(s[i]));
                assert(m.contains(s[i]));
                let k = choose|k: int| 0 <= k < m.len() && m[k] == s[i];
            }
            if id == sp.span_id {
                assert(m.contains(sp));
                let k = choose|k: int| 0 <= k < m.len() && m[k] == sp;
            }
        }
        assert forall|id: u64| span_map(m).contains_key(id) implies span_map(m)[id] == span_map(
            s,
        ).insert(sp.span_id, sp)[id] by {
            let i = choose|i: int| 0 <= i < m.len() && (#[trigger] m[i]).span_id == id;
            assert(span_map(m)[id] == m[i]);
            assert(m.contains(m[i]));
            if m[i] == sp {
            } else {
                assert(s.contains(m[i]) && id != sp.span_id);
                let k = choose|k: int| 0 <= k < s.len() && s[k] == m[i];
                assert(span_map(s)[id] == s[k]);
            }
        }
    }
    if span_map(s).contains_key(sp.span_id) {
        assert(m.len() == s.len());
    } else {
        assert(!s.contains(sp)) by {
            if s.contains(sp) {
                let k = choose|k: int| 0 <= k < s.len() && s[k] == sp;
                lemma_span_map_char(s);
            }
        }
        assert(m.len() == s.len() + 1);
    }
}

/// Inserting a fresh span id keeps span ids pairwise distinct.
proof fn lemma_insert_sorted_distinct(s: Seq<SpanV>, sp: SpanV)
    requires
        sorted_by(s, span_leq()),
        forall|k: int| 0 <= k < s.len() ==> (#[trigger] s[k]).span_id != sp.span_id,
        forall|i: int, j: int| 0 <= i < j < s.len() ==> (#[trigger] s[i]).span_id != (
        #[trigger] s[j]).span_id,
    ensures
        forall|i: int, j: int| 0 <= i < j < insert_sorted(s, sp).len() ==> (#[trigger] insert_sorted(
            s,
            sp,
        )[i]).span_id != (#[trigger] insert_sorted(s, sp)[j]).span_id,
    decreases s.len(),
{
    broadcast use Seq::lemma_index_contains;

    let r = insert_sorted(s, sp);
    if s.len() == 0 {
    } else if span_le(sp, s[0]) {
        assert(r == seq![sp] + s);
        assert forall|i: int, j: int| 0 <= i < j < r.len() implies (#[trigger] r[i]).span_id != (
        #[trigger] r[j]).span_id by {
            if i == 0 {
                assert(r[j] == s[j - 1]);
            } else {
                assert(r[i] == s[i - 1] && r[j] == s[j - 1]);
            }
        }
    } else {
        let d = s.drop_first();
        assert(sorted_by(d, span_leq()));
        lemma_insert_sorted_distinct(d, sp);
        lemma_insert_sorted_props(d, sp);
        let rd = insert_sorted(d, sp);
        assert(r == seq![s[0]] + rd);
        assert forall|i: int, j: int| 0 <= i < j < r.len() implies (#[trigger] r[i]).span_id != (
        #[trigger] r[j]).span_id by {
            if i == 0 {
                assert(r[j] == rd[j - 1]);
                assert(rd.contains(rd[j - 1]));
                if rd[j - 1] == sp {
                } else {
                    let k = choose|k: int| 0 <= k < d.len() && d[k] == rd[j - 1];
                    assert(s[k + 1] == rd[j - 1]);
                }
            } else {
                assert(r[i] == rd[i - 1] && r[j] == rd[j - 1]);
            }
        }
    }
}

/// Merging a batch folds the batch's span map over the list's, the batch
/// winning on shared span ids.
pub proof fn lemma_merge_batch_wf(s: Seq<SpanV>, batch: Seq<SpanV>, trace_id: u128)
    requires
        spans_wf(s, trace_id),
        forall|i: int| 0 <= i < batch.len() ==> (#[trigger] batch[i]).trace_id == trace_id,
    ensures
        spans_wf(merge_spans_spec(s, batch), trace_id),
        span_map(merge_spans_spec(s, batch)) == span_map(s).union_prefer_right(span_map(batch)),
        batch.len() > 0 || s.len() > 0 ==> merge_spans_spec(s, batch).len() > 0,
    decreases batch.len(),
{
    if batch.len() == 0 {
        assert(span_map(merge_spans_spec(s, batch)) =~= span_map(s).union_prefer_right(
            span_map(batch),
        ));
    } else {
        let d = batch.drop_last();
        lemma_merge_batch_wf(s, d, trace_id);
        let m = merge_spans_spec(s, d);
        lemma_merge_span_wf(m, batch.last(), trace_id);
        assert(span_map(batch) == span_map(d).insert(batch.last().span_id, batch.last()));
        assert(span_map(m).insert(batch.last().span_id, batch.last())
            =~= span_map(s).union_prefer_right(span_map(batch)));
    }
}

/// The span map's keys are exactly the span ids present.
pub proof fn lemma_span_map_dom(s: Seq<SpanV>)
    ensures
        forall|id: u64| #[trigger]
            span_map(s).contains_key(id) <==> exists|i: int|
                0 <= i < s.len() && (#[trigger] s[i]).span_id == id,
    decreases s.len(),
{
    if s.len() > 0 {
        let d = s.drop_last();
        lemma_span_map_dom(d);
        assert forall|id: u64| #[trigger] span_map(s).contains_key(id) implies exists|i: int|
            0 <= i < s.len() && (#[trigger] s[i]).span_id == id by {
            assert(span_map(s) == span_map(d).insert(s.last().span_id, s.last()));
            if id == s.last().span_id {
                assert(s[s.len() - 1].span_id == id);
            } else {
                assert(span_map(d).contains_key(id));
                let i = choose|i: int| 0 <= i < d.len() && (#[trigger] d[i]).span_id == id;
                assert(s[i] == d[i]);
                assert(s[i].span_id == id);
            }
        }
        assert forall|id: u64|
            (exists|i: int| 0 <= i < s.len() && (#[trigger] s[i]).span_id == id) implies #[trigger] span_map(
            s,
        ).contains_key(id) by {
            assert(span_map(s) == span_map(d).insert(s.last().span_id, s.last()));
            let i = choose|i: int| 0 <= i < s.len() && (#[trigger] s[i]).span_id == id;
            if i < s.len() - 1 {
                assert(d[i].span_id == id);
                assert(span_map(d).contains_key(id));
            }
        }
    }
}

/// Two well-formed span lists with the same span map are the same list:
/// sorting and unique ids leave no freedom.
pub proof fn lemma_spans_map_unique(s1: Seq<SpanV>, s2: Seq<SpanV>, trace_id: u128)
    requires
        spans_wf(s1, trace_id),
        spans_wf(s2, trace_id),
        span_map(s1) == span_map(s2),
    ensures
        s1 == s2,
    decreases s1.len(),
{
    lemma_span_map_char(s1);
    lemma_span_map_char(s2);
    if s1.len() == 0 {
        if s2.len() > 0 {
            assert(span_map(s2).contains_key(s2[0].span_id));
        }
        assert(s1 =~= s2);
    } else {
        assert(span_map(s1).contains_key(s1[s1.len() - 1].span_id));
        assert(s2.len() > 0) by {
            if s2.len() == 0 {
                assert(span_map(s2) =~= Map::<u64, SpanV>::empty());
            }
        }
        let a = s1.last();
        let b = s2.last();
        assert(span_map(s2).contains_key(a.span_id));
        let i = choose|i: int| 0 <= i < s2.len() && (#[trigger] s2[i]).span_id == a.span_id;
        assert(span_map(s2)[a.span_id] == s2[i]);
        assert(span_map(s1)[a.span_id] == a);
        assert(s2[i] == a);
        assert(span_map(s1).contains_key(b.span_id));
        let j = choose|j: int| 0 <= j < s1.len() && (#[trigger] s1[j]).span_id == b.span_id;
        assert(s1[j] == b);
        assert(span_le(a, s1[s1.len() - 1]) || j == s1.len() - 1) by {
            if j < s1.len() - 1 {
            }
        }
        assert(span_le(b, a) || b == a) by {
            if j < s1.len() - 1 {
                assert(span_leq()(s1[j], s1[s1.len() - 1]));
            }
        }
        assert(span_le(a, b) || a == b) by {
            if i < s2.len() - 1 {
                assert(span_leq()(s2[i], s2[s2.len() - 1]));
            }
        }
        assert(a == b) by {
            if a != b {
                lemma_span_le_total(a, b);
                assert(a.span_id == b.span_id);
                assert(span_map(s1)[a.span_id] == a);
                assert(span_map(s2)[b.span_id] == b);
            }
        }
        let d1 = s1.drop_last();
        let d2 = s2.drop_last();
        assert(spans_wf(d1, trace_id));
        assert(spans_wf(d2, trace_id));
        assert(!span_map(d1).contains_key(a.span_id)) by {
            lemma_span_map_dom(d1);
            if span_map(d1).contains_key(a.span_id) {
                let k = choose|k: int|
                    0 <= k < d1.len() && (#[trigger] d1[k]).span_id == a.span_id;
                assert(s1[k].span_id == s1[s1.len() - 1].span_id);
            }
        }
        assert(!span_map(d2).contains_key(a.span_id)) by {
            lemma_span_map_dom(d2);
            if span_map(d2).contains_key(a.span_id) {
                let k = choose|k: int|
                    0 <= k < d2.len() && (#[trigger] d2[k]).span_id == a.span_id;
                assert(s2[k].span_id == s2[s2.len() - 1].span_id);
            }
        }
        assert(span_map(d1) =~= span_map(d2)) by {
            assert(span_map(s1) == span_map(d1).insert(a.span_id, a));
            assert(span_map(s2) == span_map(d2).insert(a.span_id, a));
            assert forall|k: u64| #[trigger] span_map(d1).contains_key(k) implies span_map(
                d2,
            ).contains_key(k) && span_map(d2)[k] == span_map(d1)[k] by {
                assert(k != a.span_id);
                assert(span_map(s1).contains_key(k));
                assert(span_map(d1)[k] == span_map(s1)[k]);
                assert(span_map(d2)[k] == span_map(s2)[k]);
            }
            assert forall|k: u64| #[trigger] span_map(d2).contains_key(k) implies span_map(
                d1,
            ).contains_key(k) by {
                assert(k != a.span_id);
                assert(span_map(s2).contains_key(k));
            }
        }
        lemma_spans_map_unique(d1, d2, trace_id);
        assert(d1 == d2);
        assert(s1.len() == s2.len());
        assert forall|k: int| 0 <= k < s1.len() implies s1[k] == s2[k] by {
            if k < s1.len() - 1 {
                assert(s1[k] == d1[k]);
                assert(s2[k] == d2[k]);
            }
        }
        assert(s1 =~= s2);
    }
}

/// Deriving from a well-formed non-empty span list gives a well-formed
/// trace.
pub proof fn lemma_derive_wf(trace_id: u128, spans: Seq<SpanV>)
    requires
        spans_wf(spans, trace_id),
        spans.len() > 0,
    ensures
        trace_wf(derive_trace(trace_id, spans)),
{
}

/// Merging a batch of distinct fresh span ids into nothing keeps every
/// span: the result is a sorted permutation of the batch.
pub proof fn lemma_merge_batch_distinct(batch: Seq<SpanV>, trace_id: u128)
    requires
        forall|i: int| 0 <= i < batch.len() ==> (#[trigger] batch[i]).trace_id == trace_id,
        forall|i: int, j: int| 0 <= i < j < batch.len() ==> (#[trigger] batch[i]).span_id != (
        #[trigger] batch[j]).span_id,
    ensures
        merge_spans_spec(Seq::empty(), batch).len() == batch.len(),
        forall|x: SpanV| #[trigger]
            merge_spans_spec(Seq::empty(), batch).contains(x) <==> batch.contains(x),
    decreases batch.len(),
{
    broadcast use Seq::lemma_index_contains;

    if batch.len() == 0 {
        let m = merge_spans_spec(Seq::empty(), batch);
        assert forall|x: SpanV| #[trigger] m.contains(x) <==> batch.contains(x) by {}
    } else {
        let d = batch.drop_last();
        let bl = batch.last();
        lemma_merge_batch_distinct(d, trace_id);
        let m0 = merge_spans_spec(Seq::empty(), d);
        lemma_merge_batch_wf(Seq::empty(), d, trace_id);
        lemma_merge_span_wf(m0, bl, trace_id);
        let m = merge_spans_spec(Seq::empty(), batch);
        assert(m == merge_span_spec(m0, bl));
        assert(!span_map(m0).contains_key(bl.span_id)) by {
            lemma_span_map_dom(m0);
            if span_map(m0).contains_key(bl.span_id) {
                let k = choose|k: int|
                    0 <= k < m0.len() && (#[trigger] m0[k]).span_id == bl.span_id;
                assert(m0.contains(m0[k]));
                assert(d.contains(m0[k]));
                let n = choose|n: int| 0 <= n < d.len() && d[n] == m0[k];
                assert(batch[n].span_id != batch[batch.len() - 1].span_id);
            }
        }
        assert(m.len() == batch.len());
        assert forall|x: SpanV| #[trigger] m.contains(x) <==> batch.contains(x) by {
            if m.contains(x) {
                if x == bl {
                    assert(batch[batch.len() - 1] == x);
                } else {
                    assert(d.contains(x));
                    let k = choose|k: int| 0 <= k < d.len() && d[k] == x;
                    assert(batch[k] == x);
                }
            }
            if batch.contains(x) {
                let k = choose|k: int| 0 <= k < batch.len() && batch[k] == x;
                if k == batch.len() - 1 {
                    assert(m.contains(bl));
                } else {
                    assert(d[k] == x);
                    assert(d.contains(x));
                    assert(x.span_id != bl.span_id || x == bl) by {
                        if k < batch.len() - 1 {
                            assert(batch[k].span_id != batch[batch.len() - 1].span_id);
                        }
                    }
                }
            }
        }
    }
}

/// Removing an absent span id changes nothing.
proof fn lemma_remove_id_absent(s: Seq<SpanV>, id: u64)
    requires
        forall|i: int| 0 <= i < s.len() ==> (#[trigger] s[i]).span_id != id,
    ensures
        remove_id(s, id) == s,
    decreases s.len(),
{
    reveal(Seq::filter);
    if s.len() > 0 {
        lemma_remove_id_absent(s.drop_last(), id);
        assert(remove_id(s, id) =~= s);
    }
}

/// Where span ids are distinct, removing an id is removing its one index.
proof fn lemma_remove_id_at(s: Seq<SpanV>, id: u64, k: int)
    requires
        forall|i: int, j: int| 0 <= i < j < s.len() ==> (#[trigger] s[i]).span_id != (
        #[trigger] s[j]).span_id,
        0 <= k < s.len(),
        s[k].span_id == id,
    ensures
        remove_id(s, id) == s.remove(k),
    decreases s.len(),
{
    reveal(Seq::filter);
    let d = s.drop_last();
    if k == s.len() - 1 {
        assert(forall|i: int| 0 <= i < d.len() ==> (#[trigger] d[i]).span_id != id);
        lemma_remove_id_absent(d, id);
        assert(remove_id(s, id) =~= s.remove(k));
    } else {
        lemma_remove_id_at(d, id, k);
        assert(s.last().span_id != id);
        assert(remove_id(s, id) == d.remove(k).push(s.last()));
        assert(remove_id(s, id) =~= s.remove(k));
    }
}

/// Views commute with removal of one index.
proof fn lemma_views_remove(v: Seq<Span>, k: int)
    requires
        0 <= k < v.len(),
    ensures
        views_of(v.remove(k)) == views_of(v).remove(k),
{
    assert(views_of(v.remove(k)) =~= views_of(v).remove(k));
}

/// Views commute with insertion at one index.
proof fn lemma_views_insert(v: Seq<Span>, k: int, sp: Span)
    requires
        0 <= k <= v.len(),
    ensures
        views_of(v.insert(k, sp)) == views_of(v).insert(k, sp@),
{
    assert(views_of(v.insert(k, sp)) =~= views_of(v).insert(k, sp@));
}

/// How the root candidates grow while scanning one more span.
proof fn lemma_roots_take_step(s: Seq<SpanV>, i: int)
    requires
        0 <= i < s.len(),
    ensures
        roots(s.take(i + 1)) == if s[i].parent_span_id is None {
            roots(s.take(i)).push(s[i])
        } else {
            roots(s.take(i))
        },
{
    broadcast use Seq::lemma_take_succ_push, Seq::lemma_filter_push;

    assert(s.take(i + 1) == s.take(i).push(s[i]));
}

/// How openness and the latest end time grow while scanning one more span.
proof fn lemma_open_end_take_step(s: Seq<SpanV>, i: int)
    requires
        0 <= i < s.len(),
    ensures
        has_open_span(s.take(i + 1)) == (has_open_span(s.take(i)) || s[i].end_time is None),
        max_end(s.take(i + 1)) == if end_or_zero(s[i]) >= max_end(s.take(i)) {
            end_or_zero(s[i])
        } else {
            max_end(s.take(i))
        },
{
    let t1 = s.take(i + 1);
    let t0 = s.take(i);
    assert(t1.drop_last() =~= t0);
    assert(t1.last() == s[i]);
    if has_open_span(t0) {
        let k = choose|k: int| 0 <= k < t0.len() && (#[trigger] t0[k]).end_time is None;
        assert(t1[k].end_time is None);
    }
    if s[i].end_time is None {
        assert(t1[i].end_time is None);
    }
    if has_open_span(t1) && !(s[i].end_time is None) {
        let k = choose|k: int| 0 <= k < t1.len() && (#[trigger] t1[k]).end_time is None;
        assert(k < i);
        assert(t0[k].end_time is None);
    }
}

/// Exec mirror of [`span_le`].
fn span_le_exec(a: &Span, b: &Span) -> (r: bool)
    ensures
        r == span_le(a@, b@),
{
    a.start_time.0 < b.start_time.0 || (a.start_time.0 == b.start_time.0 && a.span_id.0
        <= b.span_id.0)
}

/// Index of the span carrying the given id, if present.
pub(crate) fn find_span_index(spans: &Vec<Span>, id: SpanId) -> (r: Option<usize>)
    ensures
        match r {
            Some(k) => k < spans@.len() && views_of(spans@)[k as int].span_id == id.0,
            None => forall|i: int|
                0 <= i < spans@.len() ==> (#[trigger] views_of(spans@)[i]).span_id != id.0,
        },
{
    let mut i: usize = 0;
    while i < spans.len()
        invariant
            i <= spans@.len(),
            forall|j: int| 0 <= j < i ==> (#[trigger] views_of(spans@)[j]).span_id != id.0,
        decreases spans@.len() - i,
    {
        if spans[i].span_id == id {
            proof {
                assert(views_of(spans@)[i as int] == spans@[i as int]@);
            }
            return Some(i);
        }
        i = i + 1;
    }
    None
}

/// First position whose span the new span must precede; the length where
/// the new span goes last.
fn insertion_point(spans: &Vec<Span>, sp: &Span) -> (j: usize)
    ensures
        j <= spans@.len(),
        forall|k: int| 0 <= k < j ==> !span_le(sp@, (#[trigger] views_of(spans@)[k])),
        j < spans@.len() ==> span_le(sp@, views_of(spans@)[j as int]),
{
    let mut j: usize = 0;
    while j < spans.len()
        invariant
            j <= spans@.len(),
            forall|k: int| 0 <= k < j ==> !span_le(sp@, (#[trigger] views_of(spans@)[k])),
        decreases spans@.len() - j,
    {
        if span_le_exec(sp, &spans[j]) {
            proof {
                assert(views_of(spans@)[j as int] == spans@[j as int]@);
            }
            return j;
        }
        proof {
            assert(views_of(spans@)[j as int] == spans@[j as int]@);
        }
        j = j + 1;
    }
    j
}

/// Merge one span into a well-formed span list, replacing any older copy of
/// its span id and keeping the sort order.
fn merge_one(spans: &mut Vec<Span>, sp: Span)
    requires
        spans_wf(views_of(old(spans)@), sp@.trace_id),
    ensures
        views_of(final(spans)@) == merge_span_spec(views_of(old(spans)@), sp@),
        spans_wf(views_of(final(spans)@), sp@.trace_id),
{
    let ghost s0 = views_of(spans@);
    let ghost spv = sp@;
    proof {
        lemma_remove_id_props(s0, spv.span_id, spv.trace_id);
        lemma_merge_span_wf(s0, spv, spv.trace_id);
    }
    match find_span_index(spans, sp.span_id) {
        Some(k) => {
            proof {
                lemma_remove_id_at(s0, spv.span_id, k as int);
                lemma_views_remove(spans@, k as int);
            }
            spans.remove(k);
        },
        None => {
            proof {
                lemma_remove_id_absent(s0, spv.span_id);
            }
        },
    }
    let ghost s1 = views_of(spans@);
    proof {
        assert(s1 == remove_id(s0, spv.span_id));
    }
    let j = insertion_point(spans, &sp);
    proof {
        lemma_insert_sorted_at(s1, spv, j as int);
        lemma_views_insert(spans@, j as int, sp);
    }
    spans.insert(j, sp);
}

/// Merge a batch in batch order: within one batch, as across batches, the
/// later copy of a span id wins.
fn merge_batch_into(spans: &mut Vec<Span>, batch: &Vec<Span>, trace_id: TraceId)
    requires
        spans_wf(views_of(old(spans)@), trace_id.0),
        forall|i: int|
            0 <= i < batch@.len() ==> (#[trigger] views_of(batch@)[i]).trace_id == trace_id.0,
    ensures
        views_of(final(spans)@) == merge_spans_spec(views_of(old(spans)@), views_of(batch@)),
        spans_wf(views_of(final(spans)@), trace_id.0),
{
    let ghost s0 = views_of(spans@);
    let ghost bv = views_of(batch@);
    let mut i: usize = 0;
    while i < batch.len()
        invariant
            i <= bv.len(),
            bv == views_of(batch@),
            batch@.len() == bv.len(),
            forall|k: int| 0 <= k < bv.len() ==> (#[trigger] bv[k]).trace_id == trace_id.0,
            views_of(spans@) == merge_spans_spec(s0, bv.take(i as int)),
            spans_wf(views_of(spans@), trace_id.0),
        decreases bv.len() - i,
    {
        let sp = batch[i].clone();
        proof {
            assert(bv[i as int] == batch@[i as int]@);
            assert(sp@ == bv[i as int]);
            assert(bv.take(i + 1).drop_last() =~= bv.take(i as int));
            assert(bv.take(i + 1).last() == bv[i as int]);
        }
        merge_one(spans, sp);
        i = i + 1;
    }
    proof {
        assert(bv.take(bv.len() as int) =~= bv);
    }
}

/// Ghost view of [`Trace`].
pub struct TraceM {
    pub trace_id: u128,
    pub spans: Seq<SpanV>,
    pub root_span_id: u64,
    pub start_time: u64,
    pub end_time: Option<u64>,
    pub incomplete: bool,
}

/// A trace: the spans sharing one trace id, viewed as a rooted tree.
///
/// The derived fields are functions of the span list: `start_time` is the
/// earliest span start; `end_time` is the latest span end, or absent while
/// any span is still open; `root_span_id` names the unique parentless span,
/// or falls back to the earliest span (and `incomplete` is set) while no
/// unambiguous root has arrived.
#[derive(Debug)]
pub struct Trace {
    pub trace_id: TraceId,
    pub spans: Vec<Span>,
    pub root_span_id: SpanId,
    pub start_time: Timestamp,
    pub end_time: Option<Timestamp>,
    pub incomplete: bool,
}

impl View for Trace {
    type V = TraceM;

    open spec fn view(&self) -> TraceM {
        TraceM {
            trace_id: self.trace_id.0,
            spans: views_of(self.spans@),
            root_span_id: self.root_span_id.0,
            start_time: self.start_time.0,
            end_time: match self.end_time {
                Some(t) => Some(t.0),
                None => None,
            },
            incomplete: self.incomplete,
        }
    }
}

impl Clone for Trace {
    fn clone(&self) -> (res: Self)
        ensures
            res@ == self@,
    {
        let res = Trace {
            trace_id: self.trace_id,
            spans: self.spans.clone(),
            root_span_id: self.root_span_id,
            start_time: self.start_time,
            end_time: self.end_time,
            incomplete: self.incomplete,
        };
        proof {
            assert(forall|i: int| 0 <= i < self.spans@.len() ==> (#[trigger] res.spans@[i])@
                == self.spans@[i]@);
            assert(res@.spans =~= self@.spans);
        }
        res
    }
}

/// The derived fields a well-formed trace must carry.
pub open spec fn derived_ok(t: TraceM) -> bool {
    &&& t.spans.len() > 0
    &&& t.start_time == t.spans[0].start_time
    &&& t.incomplete == (roots(t.spans).len() != 1)
    &&& t.root_span_id == if roots(t.spans).len() == 1 {
        roots(t.spans)[0].span_id
    } else {
        t.spans[0].span_id
    }
    &&& t.end_time == if has_open_span(t.spans) {
        Option::<u64>::None
    } else {
        Some(max_end(t.spans))
    }
}

/// The trace a well-formed span list induces: all derived fields computed.
pub open spec fn derive_trace(trace_id: u128, spans: Seq<SpanV>) -> TraceM {
    TraceM {
        trace_id,
        spans,
        root_span_id: if roots(spans).len() == 1 {
            roots(spans)[0].span_id
        } else {
            spans[0].span_id
        },
        start_time: spans[0].start_time,
        end_time: if has_open_span(spans) {
            Option::<u64>::None
        } else {
            Some(max_end(spans))
        },
        incomplete: roots(spans).len() != 1,
    }
}

/// Well-formedness of a trace view: span list well formed and non-empty,
/// derived fields in agreement with it.
pub open spec fn trace_wf(t: TraceM) -> bool {
    &&& spans_wf(t.spans, t.trace_id)
    &&& derived_ok(t)
}

/// A well-formed trace is exactly what its span list derives.
pub proof fn lemma_wf_is_derived(t: TraceM)
    requires
        derived_ok(t),
    ensures
        t == derive_trace(t.trace_id, t.spans),
{
}

/// Merging a one-span batch is merging that span.
pub proof fn lemma_merge_single(s: Seq<SpanV>, sp: SpanV)
    ensures
        merge_spans_spec(s, seq![sp]) == merge_span_spec(s, sp),
{
    let batch = seq![sp];
    assert(batch.drop_last() =~= Seq::<SpanV>::empty());
    assert(merge_spans_spec(s, batch.drop_last()) == s);
    assert(batch.last() == sp);
    assert(merge_spans_spec(s, batch) == merge_span_spec(merge_spans_spec(s, batch.drop_last()),
        batch.last()));
}

/// Merging one span into nothing gives exactly that span.
pub proof fn lemma_merge_into_empty(sp: SpanV)
    ensures
        merge_span_spec(Seq::empty(), sp) == seq![sp],
{
    reveal(Seq::filter);
    assert(remove_id(Seq::empty(), sp.span_id) =~= Seq::<SpanV>::empty());
}

/// Duration of a finished trace, saturating when the clock ran backwards.
pub open spec fn trace_duration(t: TraceM) -> Option<u64> {
    crate::model::spec_duration(t.start_time, t.end_time)
}

/// The derived classification: errors trump speed;
/// a trace without a finished duration is `Normal`.
pub open spec fn spec_classify(t: TraceM, thresholds: Thresholds) -> TraceType {
    if has_error_span(t.spans) {
        TraceType::Error
    } else {
        match trace_duration(t) {
            Some(d) => if d > thresholds.slow_nanos {
                TraceType::Slow
            } else if d < thresholds.fast_nanos {
                TraceType::Fast
            } else {
                TraceType::Normal
            },
            None => TraceType::Normal,
        }
    }
}

/// A trace counts as completed once it has an unambiguous root and that
/// root span has ended; children that never close do not hold completion
/// back (their lateness is tolerated by design).
pub open spec fn spec_completed(t: TraceM) -> bool {
    !t.incomplete && exists|i: int|
        0 <= i < t.spans.len() && (#[trigger] t.spans[i]).span_id == t.root_span_id
            && t.spans[i].end_time is Some
}

impl Trace {
    /// Well-formedness: the span list is sorted, unique by span id, all on
    /// this trace id, and the derived fields agree with it.
    pub open spec fn wf(&self) -> bool {
        trace_wf(self@)
    }

    /// Number of spans seen so far.
    pub fn span_count(&self) -> (r: usize)
        ensures
            r == self@.spans.len(),
    {
        self.spans.len()
    }

    /// Duration from earliest start to latest end, absent while any span is
    /// still open; saturating to zero when the clock ran backwards.
    pub fn duration_nanos(&self) -> (r: Option<u64>)
        ensures
            r == trace_duration(self@),
    {
        match self.end_time {
            Some(end) => Some(end.saturating_nanos_since(self.start_time)),
            None => None,
        }
    }

    /// Whether any span of this trace reported an error.
    pub fn has_errors(&self) -> (r: bool)
        ensures
            r == has_error_span(self@.spans),
    {
        let mut i: usize = 0;
        while i < self.spans.len()
            invariant
                i <= self.spans.len(),
                forall|j: int| 0 <= j < i ==> !((#[trigger] views_of(self.spans@)[j]).status
                    is Error),
            decreases self.spans.len() - i,
        {
            if self.spans[i].status.is_error() {
                proof {
                    assert(views_of(self.spans@)[i as int] == self.spans@[i as int]@);
                }
                return true;
            }
            i = i + 1;
        }
        false
    }

    /// The derived classification: `Error` if any span failed, else `Slow`
    /// or `Fast` against the thresholds, else `Normal`.
    pub fn classify_type(&self, thresholds: &Thresholds) -> (r: TraceType)
        ensures
            r == spec_classify(self@, *thresholds),
    {
        if self.has_errors() {
            TraceType::Error
        } else {
            match self.duration_nanos() {
                Some(d) => {
                    if d > thresholds.slow_nanos {
                        TraceType::Slow
                    } else if d < thresholds.fast_nanos {
                        TraceType::Fast
                    } else {
                        TraceType::Normal
                    }
                },
                None => TraceType::Normal,
            }
        }
    }

    /// Whether the trace counts as completed: unambiguous root, and the
    /// root span has ended.
    pub fn is_completed(&self) -> (r: bool)
        requires
            self.wf(),
        ensures
            r == spec_completed(self@),
    {
        if self.incomplete {
            return false;
        }
        let mut i: usize = 0;
        while i < self.spans.len()
            invariant
                i <= self.spans.len(),
                !self@.incomplete,
                forall|j: int| 0 <= j < i ==> !((#[trigger] views_of(self.spans@)[j]).span_id
                    == self@.root_span_id && views_of(self.spans@)[j].end_time is Some),
            decreases self.spans.len() - i,
        {
            if self.spans[i].span_id == self.root_span_id && self.spans[i].end_time.is_some() {
                proof {
                    assert(views_of(self.spans@)[i as int] == self.spans@[i as int]@);
                }
                return true;
            }
            i = i + 1;
        }
        false
    }

    /// Build a trace from a non-empty batch of spans sharing one trace id.
    ///
    /// The batch is deduplicated by span id (the later copy wins) and sorted
    /// by start time. An empty batch or mixed trace ids are rejected; zero
    /// or several root candidates are tolerated and flagged `incomplete`.
    pub fn from_spans(spans: Vec<Span>) -> (r: Result<Trace, AssemblyError>)
        ensures
            match r {
                Ok(t) => {
                    &&& spans@.len() > 0
                    &&& forall|i: int|
                        0 <= i < spans@.len() ==> (#[trigger] views_of(spans@)[i]).trace_id
                            == views_of(spans@)[0].trace_id
                    &&& t.wf()
                    &&& t@.trace_id == views_of(spans@)[0].trace_id
                    &&& t@.spans == merge_spans_spec(Seq::empty(), views_of(spans@))
                    &&& span_map(t@.spans) == span_map(views_of(spans@))
                },
                Err(e) => match e {
                    AssemblyError::EmptyBatch => spans@.len() == 0,
                    AssemblyError::MixedTraceIds => spans@.len() > 0 && exists|i: int|
                        0 <= i < spans@.len() && (#[trigger] views_of(spans@)[i]).trace_id
                            != views_of(spans@)[0].trace_id,
                },
            },
    {
        let ghost bv = views_of(spans@);
        if spans.len() == 0 {
            return Err(AssemblyError::EmptyBatch);
        }
        let trace_id = spans[0].trace_id;
        proof {
            assert(bv[0] == spans@[0]@);
        }
        let mut i: usize = 1;
        while i < spans.len()
            invariant
                1 <= i <= bv.len(),
                bv == views_of(spans@),
                spans@.len() == bv.len(),
                trace_id.0 == bv[0].trace_id,
                forall|j: int| 0 <= j < i ==> (#[trigger] bv[j]).trace_id == trace_id.0,
            decreases bv.len() - i,
        {
            if spans[i].trace_id != trace_id {
                proof {
                    assert(bv[i as int] == spans@[i as int]@);
                }
                return Err(AssemblyError::MixedTraceIds);
            }
            proof {
                assert(bv[i as int] == spans@[i as int]@);
            }
            i = i + 1;
        }
        let mut merged: Vec<Span> = Vec::new();
        proof {
            assert(views_of(merged@) =~= Seq::<SpanV>::empty());
            lemma_merge_batch_wf(Seq::empty(), bv, trace_id.0);
            assert(span_map(Seq::<SpanV>::empty()) =~= Map::<u64, SpanV>::empty());
            assert(Map::<u64, SpanV>::empty().union_prefer_right(span_map(bv)) =~= span_map(bv));
        }
        merge_batch_into(&mut merged, &spans, trace_id);
        Ok(Self::recompute(trace_id, merged))
    }

    /// Merge a batch of spans of this trace, last write winning per span
    /// id, and bring the derived fields up to date.
    pub fn merge_batch(&mut self, batch: Vec<Span>)
        requires
            old(self).wf(),
            forall|i: int|
                0 <= i < batch@.len() ==> (#[trigger] views_of(batch@)[i]).trace_id == old(
                    self,
                )@.trace_id,
        ensures
            final(self).wf(),
            final(self)@.trace_id == old(self)@.trace_id,
            final(self)@.spans == merge_spans_spec(old(self)@.spans, views_of(batch@)),
            span_map(final(self)@.spans) == span_map(old(self)@.spans).union_prefer_right(
                span_map(views_of(batch@)),
            ),
    {
        let ghost s0 = self@.spans;
        let ghost bv = views_of(batch@);
        proof {
            lemma_merge_batch_wf(s0, bv, self@.trace_id);
        }
        let trace_id = self.trace_id;
        merge_batch_into(&mut self.spans, &batch, trace_id);
        let (root_span_id, start_time, end_time, incomplete) = Self::compute_derived(&self.spans);
        self.root_span_id = root_span_id;
        self.start_time = start_time;
        self.end_time = end_time;
        self.incomplete = incomplete;
    }

    /// Sort and deduplication done: attach freshly computed derived fields
    /// to a well-formed non-empty span list.
    pub(crate) fn recompute(trace_id: TraceId, spans: Vec<Span>) -> (t: Trace)
        requires
            spans_wf(views_of(spans@), trace_id.0),
            spans@.len() > 0,
        ensures
            t.wf(),
            t@.trace_id == trace_id.0,
            t@.spans == views_of(spans@),
    {
        let (root_span_id, start_time, end_time, incomplete) = Self::compute_derived(&spans);
        Trace { trace_id, spans, root_span_id, start_time, end_time, incomplete }
    }

    /// Scan a non-empty span list for its root candidate, earliest start,
    /// latest end and completeness flag.
    fn compute_derived(spans: &Vec<Span>) -> (r: (SpanId, Timestamp, Option<Timestamp>, bool))
        requires
            views_of(spans@).len() > 0,
        ensures
            r.0.0 == if roots(views_of(spans@)).len() == 1 {
                roots(views_of(spans@))[0].span_id
            } else {
                views_of(spans@)[0].span_id
            },
            r.1.0 == views_of(spans@)[0].start_time,
            (match r.2 {
                Some(t) => !has_open_span(views_of(spans@)) && t.0 == max_end(views_of(spans@)),
                None => has_open_span(views_of(spans@)),
            }),
            r.3 == (roots(views_of(spans@)).len() != 1),
    {
        let ghost sv = views_of(spans@);
        let n = spans.len();
        let mut root_count: usize = 0;
        let mut root_id: SpanId = spans[0].span_id;
        let mut i: usize = 0;
        while i < n
            invariant
                i <= n,
                n == spans@.len(),
                sv == views_of(spans@),
                root_count == roots(sv.take(i as int)).len(),
                root_count <= i,
                root_count >= 1 ==> root_id.0 == roots(sv.take(i as int))[0].span_id,
            decreases n - i,
        {
            proof {
                lemma_roots_take_step(sv, i as int);
                broadcast use Seq::lemma_filter_len;

                assert(sv[i as int] == spans@[i as int]@);
            }
            if spans[i].parent_span_id.is_none() {
                if root_count == 0 {
                    root_id = spans[i].span_id;
                }
                root_count = root_count + 1;
            }
            i = i + 1;
        }
        let mut open = false;
        let mut maxe: u64 = 0;
        let mut k: usize = 0;
        while k < n
            invariant
                k <= n,
                n == spans@.len(),
                sv == views_of(spans@),
                open == has_open_span(sv.take(k as int)),
                maxe == max_end(sv.take(k as int)),
            decreases n - k,
        {
            proof {
                lemma_open_end_take_step(sv, k as int);
                assert(sv[k as int] == spans@[k as int]@);
            }
            match &spans[k].end_time {
                Some(e) => {
                    if e.0 >= maxe {
                        maxe = e.0;
                    }
                },
                None => {
                    open = true;
                },
            }
            k = k + 1;
        }
        proof {
            assert(sv.take(n as int) =~= sv);
            assert(sv[0] == spans@[0]@);
        }
        let root_span_id = if root_count == 1 {
            root_id
        } else {
            spans[0].span_id
        };
        let start_time = spans[0].start_time;
        let end_time = if open {
            None
        } else {
            Some(Timestamp(maxe))
        };
        (root_span_id, start_time, end_time, root_count != 1)
    }

    /// The spans whose parent is the given span, in assembled order.
    pub fn children(&self, span_id: SpanId) -> (r: Vec<&Span>)
        ensures
            r@.map_values(|s: &Span| s@) == self@.spans.filter(child_of(span_id.0)),
    {
        let ghost sv = self@.spans;
        let mut r: Vec<&Span> = Vec::new();
        let mut i: usize = 0;
        while i < self.spans.len()
            invariant
                i <= self.spans@.len(),
                sv == views_of(self.spans@),
                r@.map_values(|s: &Span| s@) == sv.take(i as int).filter(child_of(span_id.0)),
            decreases self.spans@.len() - i,
        {
            proof {
                assert(sv.take(i + 1) =~= sv.take(i as int).push(sv[i as int]));
                sv.take(i as int).lemma_filter_push(sv[i as int], child_of(span_id.0));
                assert(sv[i as int] == self.spans@[i as int]@);
            }
            let matches_parent = match &self.spans[i].parent_span_id {
                Some(p) => p.0 == span_id.0,
                None => false,
            };
            proof {
                assert(matches_parent == (sv[i as int].parent_span_id == Some(span_id.0)));
                assert(child_of(span_id.0)(sv[i as int]) == (sv[i as int].parent_span_id == Some(
                    span_id.0,
                )));
            }
            if matches_parent {
                let ghost rv0 = r@;
                r.push(&self.spans[i]);
                proof {
                    assert(r@.drop_last() =~= rv0);
                    assert(r@.map_values(|s: &Span| s@) =~= rv0.map_values(|s: &Span| s@).push(
                        sv[i as int],
                    ));
                }
            }
            i = i + 1;
        }
        proof {
            assert(sv.take(self.spans@.len() as int) =~= sv);
        }
        r
    }
}

} // verus!
