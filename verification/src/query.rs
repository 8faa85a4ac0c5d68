//! Filtering, sorting and summarisation over the store, read-only.
//!
//! `list` projects every stored trace to a [`TraceSummary`], keeps those
//! matching every set predicate of a [`TraceFilter`] (a logical AND),
//! orders them most recent first — ties broken by trace id so the order is
//! deterministic — and truncates to the filter's limit, where one is set.

use vstd::prelude::*;
use vstd::relations::sorted_by;
use vstd::multiset::Multiset;
use vstd::seq_lib::*;

use crate::ids::{Timestamp, TraceId};
use crate::store::{entry_views, store_wf, EntryM, TraceStore};
use crate::trace::{
    has_error_span, spec_classify, trace_duration, trace_wf, Thresholds, Trace, TraceM, TraceType,
};

verus! {

/// Read-only projection of one trace for listing.
#[derive(Debug)]
pub struct TraceSummary {
    pub trace_id: TraceId,
    /// Name of the root span (of the earliest span while no root arrived).
    pub root_span_name: String,
    /// Service that emitted the root span.
    pub service_name: String,
    pub start_time: Timestamp,
    /// Total duration, absent while any span is still open.
    pub duration_nanos: Option<u64>,
    pub span_count: usize,
    /// Whether any span reported an error status.
    pub has_errors: bool,
    /// The derived classification at listing time.
    pub trace_type: TraceType,
}

/// Ghost view of [`TraceSummary`].
pub struct SummaryM {
    pub trace_id: u128,
    pub root_span_name: Seq<char>,
    pub service_name: Seq<char>,
    pub start_time: u64,
    pub duration_nanos: Option<u64>,
    pub span_count: nat,
    pub has_errors: bool,
    pub trace_type: TraceType,
}

impl View for TraceSummary {
    type V = SummaryM;

    open spec fn view(&self) -> SummaryM {
        SummaryM {
            trace_id: self.trace_id.0,
            root_span_name: self.root_span_name@,
            service_name: self.service_name@,
            start_time: self.start_time.0,
            duration_nanos: self.duration_nanos,
            span_count: self.span_count as nat,
            has_errors: self.has_errors,
            trace_type: self.trace_type,
        }
    }
}

impl Clone for TraceSummary {
    fn clone(&self) -> (res: Self)
        ensures
            res@ == self@,
    {
        TraceSummary {
            trace_id: self.trace_id,
            root_span_name: self.root_span_name.clone(),
            service_name: self.service_name.clone(),
            start_time: self.start_time,
            duration_nanos: self.duration_nanos,
            span_count: self.span_count,
            has_errors: self.has_errors,
            trace_type: self.trace_type,
        }
    }
}

/// Optional predicates for listing; an absent field is unconstrained.
#[derive(Debug)]
pub struct TraceFilter {
    /// Keep only traces whose root span's service equals this name.
    pub service: Option<String>,
    /// Keep only finished traces lasting at least this long (inclusive).
    pub min_duration_nanos: Option<u64>,
    /// Keep only finished traces lasting at most this long (inclusive).
    pub max_duration_nanos: Option<u64>,
    /// Keep only traces with (without) at least one error-status span.
    pub has_errors: Option<bool>,
    /// Return at most this many summaries; unset returns all matches.
    pub limit: Option<usize>,
}

/// Ghost view of [`TraceFilter`].
pub struct FilterM {
    pub service: Option<Seq<char>>,
    pub min_duration_nanos: Option<u64>,
    pub max_duration_nanos: Option<u64>,
    pub has_errors: Option<bool>,
    pub limit: Option<usize>,
}

impl View for TraceFilter {
    type V = FilterM;

    open spec fn view(&self) -> FilterM {
        FilterM {
            service: match self.service {
                Some(ref s) => Some(s@),
                None => None,
            },
            min_duration_nanos: self.min_duration_nanos,
            max_duration_nanos: self.max_duration_nanos,
            has_errors: self.has_errors,
            limit: self.limit,
        }
    }
}

impl Clone for TraceFilter {
    fn clone(&self) -> (res: Self)
        ensures
            res@ == self@,
    {
        TraceFilter {
            service: match &self.service {
                Some(s) => Some(s.clone()),
                None => None,
            },
            min_duration_nanos: self.min_duration_nanos,
            max_duration_nanos: self.max_duration_nanos,
            has_errors: self.has_errors,
            limit: self.limit,
        }
    }
}

impl Default for TraceFilter {
    /// The unconstrained filter: everything matches, nothing is truncated.
    fn default() -> (r: Self)
        ensures
            r@.service is None,
            r@.min_duration_nanos is None,
            r@.max_duration_nanos is None,
            r@.has_errors is None,
            r@.limit is None,
    {
        TraceFilter {
            service: None,
            min_duration_nanos: None,
            max_duration_nanos: None,
            has_errors: None,
            limit: None,
        }
    }
}

/// The index of the trace's root span within its span list.
pub open spec fn root_index(t: TraceM) -> int {
    choose|i: int| 0 <= i < t.spans.len() && (#[trigger] t.spans[i]).span_id == t.root_span_id
}

/// A well-formed trace holds its root span.
pub proof fn lemma_root_present(t: TraceM)
    requires
        trace_wf(t),
    ensures
        0 <= root_index(t) < t.spans.len(),
        t.spans[root_index(t)].span_id == t.root_span_id,
{
    broadcast use Seq::lemma_index_contains;

    if crate::trace::roots(t.spans).len() == 1 {
        let r = crate::trace::roots(t.spans)[0];
        t.spans.lemma_filter_contains_rev(
            |x: crate::model::SpanV| x.parent_span_id is None,
            r,
        );
        let k = choose|k: int| 0 <= k < t.spans.len() && t.spans[k] == r;
        assert(t.spans[k].span_id == t.root_span_id);
    } else {
        assert(t.spans[0].span_id == t.root_span_id);
    }
}

/// The listing projection of one trace.
pub open spec fn summary_of(t: TraceM, thresholds: Thresholds) -> SummaryM {
    SummaryM {
        trace_id: t.trace_id,
        root_span_name: t.spans[root_index(t)].name,
        service_name: t.spans[root_index(t)].service_name,
        start_time: t.start_time,
        duration_nanos: trace_duration(t),
        span_count: t.spans.len(),
        has_errors: has_error_span(t.spans),
        trace_type: spec_classify(t, thresholds),
    }
}

/// Whether a summary satisfies every set predicate of the filter — the
/// conjunction of the set fields; absent fields constrain nothing. A trace
/// without a finished duration fails any duration bound.
pub open spec fn matches_filter(s: SummaryM, f: FilterM) -> bool {
    &&& match f.service {
        Some(sv) => s.service_name == sv,
        None => true,
    }
    &&& match f.min_duration_nanos {
        Some(m) => match s.duration_nanos {
            Some(d) => d >= m,
            None => false,
        },
        None => true,
    }
    &&& match f.max_duration_nanos {
        Some(m) => match s.duration_nanos {
            Some(d) => d <= m,
            None => false,
        },
        None => true,
    }
    &&& match f.has_errors {
        Some(b) => s.has_errors == b,
        None => true,
    }
}

/// Listing order: most recent start first, ties broken by ascending trace
/// id so listing is deterministic.
pub open spec fn newer_first(a: SummaryM, b: SummaryM) -> bool {
    a.start_time > b.start_time || (a.start_time == b.start_time && a.trace_id <= b.trace_id)
}

/// [`newer_first`] as a relation value, for `sorted_by`.
pub open spec fn newer_leq() -> spec_fn(SummaryM, SummaryM) -> bool {
    |a: SummaryM, b: SummaryM| newer_first(a, b)
}

/// Insertion into a list sorted newest first.
pub open spec fn insert_newer(s: Seq<SummaryM>, x: SummaryM) -> Seq<SummaryM>
    decreases s.len(),
{
    if s.len() == 0 {
        seq![x]
    } else if newer_first(x, s[0]) {
        seq![x] + s
    } else {
        seq![s[0]] + insert_newer(s.drop_first(), x)
    }
}

/// The list sorted newest first, by repeated insertion.
pub open spec fn sort_newer(s: Seq<SummaryM>) -> Seq<SummaryM>
    decreases s.len(),
{
    if s.len() == 0 {
        s
    } else {
        insert_newer(sort_newer(s.drop_last()), s.last())
    }
}

/// The views of a sequence of summaries.
pub open spec fn summary_views(s: Seq<TraceSummary>) -> Seq<SummaryM> {
    s.map_values(|x: TraceSummary| x@)
}

/// The projections of all stored traces.
pub open spec fn summaries_of(s: Seq<EntryM>, thresholds: Thresholds) -> Seq<SummaryM> {
    s.map_values(|e: EntryM| summary_of(e.trace, thresholds))
}

/// What `list` returns: project, filter, sort newest first, truncate.
pub open spec fn spec_list(s: Seq<EntryM>, f: FilterM, thresholds: Thresholds) -> Seq<SummaryM> {
    let sorted = sort_newer(
        summaries_of(s, thresholds).filter(|x: SummaryM| matches_filter(x, f)),
    );
    match f.limit {
        Some(l) => if l < sorted.len() {
            sorted.take(l as int)
        } else {
            sorted
        },
        None => sorted,
    }
}

/// Sorted insertion: one longer, still sorted, contents grown by the item.
proof fn lemma_insert_newer_props(s: Seq<SummaryM>, x: SummaryM)
    requires
        sorted_by(s, newer_leq()),
    ensures
        insert_newer(s, x).len() == s.len() + 1,
        sorted_by(insert_newer(s, x), newer_leq()),
        insert_newer(s, x).to_multiset() == s.to_multiset().insert(x),
        forall|y: SummaryM| #[trigger] insert_newer(s, x).contains(y) <==> s.contains(y) || y == x,
    decreases s.len(),
{
    broadcast use Seq::lemma_index_contains, group_to_multiset_ensures;

    let r = insert_newer(s, x);
    if s.len() == 0 {
        assert(r =~= Seq::empty().push(x));
        assert(r.drop_last() =~= Seq::<SummaryM>::empty());
        assert(r.to_multiset() =~= s.to_multiset().insert(x));
        assert forall|y: SummaryM| #[trigger] r.contains(y) <==> s.contains(y) || y == x by {
            if r.contains(y) {
                assert(y == r[0]);
            }
            if y == x {
                assert(r[0] == y);
            }
        }
    } else if newer_first(x, s[0]) {
        assert(r == seq![x] + s);
        assert(r =~= Seq::empty().push(x) + s);
        assert forall|i: int, j: int| 0 <= i < j < r.len() implies newer_leq()(r[i], r[j]) by {
            if i == 0 {
                if j > 1 {
                    assert(newer_leq()(s[0], s[j - 1]));
                }
            } else {
                assert(newer_leq()(s[i - 1], s[j - 1]));
            }
        }
        assert(r.to_multiset() =~= s.to_multiset().insert(x)) by {
            assert((Seq::empty().push(x) + s).to_multiset() == Seq::empty().push(
                x,
            ).to_multiset().add(s.to_multiset())) by {
                lemma_multiset_commutative(Seq::empty().push(x), s);
            }
            assert(Seq::empty().push(x).to_multiset() =~= Multiset::empty().insert(x));
        }
        assert forall|y: SummaryM| #[trigger] r.contains(y) <==> s.contains(y) || y == x by {
            if r.contains(y) {
                let k = choose|k: int| 0 <= k < r.len() && r[k] == y;
                if k > 0 {
                    assert(s[k - 1] == y);
                }
            }
            if s.contains(y) {
                let k = choose|k: int| 0 <= k < s.len() && s[k] == y;
                assert(r[k + 1] == y);
            }
            if y == x {
                assert(r[0] == y);
            }
        }
    } else {
        let d = s.drop_first();
        assert(sorted_by(d, newer_leq()));
        lemma_insert_newer_props(d, x);
        let rd = insert_newer(d, x);
        assert(r == seq![s[0]] + rd);
        assert(newer_first(s[0], x));
        assert forall|k: int| 0 <= k < rd.len() implies newer_leq()(s[0], rd[k]) by {
            assert(rd.contains(rd[k]));
            if rd[k] == x {
            } else {
                let m = choose|m: int| 0 <= m < d.len() && d[m] == rd[k];
                assert(newer_leq()(s[0], s[m + 1]));
            }
        }
        assert forall|i: int, j: int| 0 <= i < j < r.len() implies newer_leq()(r[i], r[j]) by {
            if i == 0 {
                assert(r[j] == rd[j - 1]);
            } else {
                assert(r[i] == rd[i - 1] && r[j] == rd[j - 1]);
                assert(sorted_by(rd, newer_leq()));
            }
        }
        assert(r.to_multiset() =~= s.to_multiset().insert(x)) by {
            lemma_multiset_commutative(seq![s[0]], rd);
            lemma_multiset_commutative(seq![s[0]], d);
            assert(seq![s[0]] + d =~= s);
            assert(seq![s[0]].to_multiset() =~= Multiset::empty().insert(s[0]));
        }
        assert forall|y: SummaryM| #[trigger] r.contains(y) <==> s.contains(y) || y == x by {
            assert(r.to_multiset().contains(y) <==> r.contains(y));
            assert(s.to_multiset().contains(y) <==> s.contains(y));
            assert(r.to_multiset() == s.to_multiset().insert(x));
        }
    }
}

/// Sorting by insertion: sorted, same contents.
proof fn lemma_sort_newer_props(s: Seq<SummaryM>)
    ensures
        sort_newer(s).len() == s.len(),
        sorted_by(sort_newer(s), newer_leq()),
        sort_newer(s).to_multiset() == s.to_multiset(),
        forall|y: SummaryM| #[trigger] sort_newer(s).contains(y) <==> s.contains(y),
    decreases s.len(),
{
    broadcast use group_to_multiset_ensures;

    if s.len() == 0 {
    } else {
        let d = s.drop_last();
        lemma_sort_newer_props(d);
        lemma_insert_newer_props(sort_newer(d), s.last());
        assert(sort_newer(s).to_multiset() =~= s.to_multiset()) by {
            assert(sort_newer(s).to_multiset() == sort_newer(d).to_multiset().insert(s.last()));
            assert(d.push(s.last()).to_multiset() == d.to_multiset().insert(s.last()));
            assert(d.push(s.last()) =~= s);
        }
        assert forall|y: SummaryM| #[trigger] sort_newer(s).contains(y) <==> s.contains(y) by {
            assert(sort_newer(s).contains(y) <==> sort_newer(s).to_multiset().contains(y));
            assert(s.contains(y) <==> s.to_multiset().contains(y));
        }
    }
}

/// Exec mirror of [`newer_first`].
fn newer_first_exec(a: &TraceSummary, b: &TraceSummary) -> (r: bool)
    ensures
        r == newer_first(a@, b@),
{
    a.start_time.0 > b.start_time.0 || (a.start_time.0 == b.start_time.0 && a.trace_id.0
        <= b.trace_id.0)
}

/// First position whose summary the new one must precede; the length where
/// it goes last.
fn summary_insertion_point(out: &Vec<TraceSummary>, x: &TraceSummary) -> (j: usize)
    ensures
        j <= out@.len(),
        forall|m: int|
            0 <= m < j ==> !newer_first(x@, (#[trigger] summary_views(out@)[m])),
        j < out@.len() ==> newer_first(x@, summary_views(out@)[j as int]),
{
    let mut j: usize = 0;
    while j < out.len()
        invariant
            j <= out@.len(),
            forall|m: int|
                0 <= m < j ==> !newer_first(
                    x@,
                    (#[trigger] summary_views(out@)[m]),
                ),
        decreases out@.len() - j,
    {
        proof {
            assert(summary_views(out@)[j as int] == out@[j as int]@);
        }
        if newer_first_exec(x, &out[j]) {
            return j;
        }
        j = j + 1;
    }
    j
}

/// Exec mirror of [`matches_filter`].
fn matches_filter_exec(s: &TraceSummary, f: &TraceFilter) -> (r: bool)
    ensures
        r == matches_filter(s@, f@),
{
    let service_ok = match &f.service {
        Some(sv) => *sv == s.service_name,
        None => true,
    };
    let min_ok = match f.min_duration_nanos {
        Some(m) => match s.duration_nanos {
            Some(d) => d >= m,
            None => false,
        },
        None => true,
    };
    let max_ok = match f.max_duration_nanos {
        Some(m) => match s.duration_nanos {
            Some(d) => d <= m,
            None => false,
        },
        None => true,
    };
    let errors_ok = match f.has_errors {
        Some(b) => s.has_errors == b,
        None => true,
    };
    service_ok && min_ok && max_ok && errors_ok
}

/// Project one trace to its listing summary.
pub fn summarize(trace: &Trace, thresholds: &Thresholds) -> (r: TraceSummary)
    requires
        trace.wf(),
    ensures
        r@ == summary_of(trace@, *thresholds),
{
    proof {
        lemma_root_present(trace@);
    }
    let root = match crate::trace::find_span_index(&trace.spans, trace.root_span_id) {
        Some(k) => k,
        None => {
            proof {
                let ri = root_index(trace@);
                assert(crate::trace::views_of(trace.spans@)[ri].span_id == trace@.root_span_id);
                assert(false);
            }
            0
        },
    };
    proof {
        let ri = root_index(trace@);
        let k = root as int;
        if k != ri {
            if k < ri {
                assert(trace@.spans[k].span_id != trace@.spans[ri].span_id);
            } else {
                assert(trace@.spans[ri].span_id != trace@.spans[k].span_id);
            }
        }
        assert(crate::trace::views_of(trace.spans@)[root as int] == trace.spans@[root as int]@);
    }
    TraceSummary {
        trace_id: trace.trace_id,
        root_span_name: trace.spans[root].name.clone(),
        service_name: trace.spans[root].service_name.clone(),
        start_time: trace.start_time,
        duration_nanos: trace.duration_nanos(),
        span_count: trace.span_count(),
        has_errors: trace.has_errors(),
        trace_type: trace.classify_type(thresholds),
    }
}

impl TraceStore {
    /// List the stored traces as summaries: those matching every set
    /// predicate of the filter, most recent first (ties broken by trace
    /// id), truncated to the filter's limit where one is set.
    pub fn list(&self, filter: &TraceFilter) -> (r: Vec<TraceSummary>)
        requires
            self.wf(),
        ensures
            summary_views(r@) == spec_list(
                self@,
                filter@,
                self.config.thresholds,
            ),
    {
        let ghost fv = filter@;
        let ghost th = self.config.thresholds;
        let ghost all = summaries_of(self@, th);
        let thresholds = self.config.thresholds;
        let mut matched: Vec<TraceSummary> = Vec::new();
        let mut i: usize = 0;
        while i < self.entries.len()
            invariant
                i <= self.entries@.len(),
                all == summaries_of(self@, th),
                self@ == entry_views(self.entries@),
                store_wf(self@),
                th == self.config.thresholds,
                thresholds == th,
                fv == filter@,
                summary_views(matched@) == all.take(i as int).filter(
                    |x: SummaryM| matches_filter(x, fv),
                ),
            decreases self.entries@.len() - i,
        {
            proof {
                assert(all.take(i + 1) =~= all.take(i as int).push(all[i as int]));
                all.take(i as int).lemma_filter_push(
                    all[i as int],
                    |x: SummaryM| matches_filter(x, fv),
                );
                assert(entry_views(self.entries@)[i as int] == self.entries@[i as int]@);
                assert(all[i as int] == summary_of(self@[i as int].trace, th));
            }
            let summary = summarize(&self.entries[i].trace, &thresholds);
            let keep = matches_filter_exec(&summary, filter);
            if keep {
                let ghost mv0 = matched@;
                matched.push(summary);
                proof {
                    assert(matched@.drop_last() =~= mv0);
                    assert(summary_views(matched@) =~= summary_views(mv0).push(all[i as int]));
                }
            }
            i = i + 1;
        }
        proof {
            assert(all.take(all.len() as int) =~= all);
        }
        let ghost mf = all.filter(|x: SummaryM| matches_filter(x, fv));
        let mut out: Vec<TraceSummary> = Vec::new();
        let mut j: usize = 0;
        while j < matched.len()
            invariant
                j <= matched@.len(),
                mf == summary_views(matched@),
                summary_views(out@) == sort_newer(mf.take(j as int)),
                sorted_by(summary_views(out@), newer_leq()),
            decreases matched@.len() - j,
        {
            let ghost ov = summary_views(out@);
            proof {
                assert(mf.take(j + 1) =~= mf.take(j as int).push(mf[j as int]));
                assert(mf.take(j + 1).drop_last() =~= mf.take(j as int));
                assert(mf[j as int] == matched@[j as int]@);
            }
            let x = matched[j].clone();
            let k = summary_insertion_point(&out, &x);
            proof {
                lemma_insert_newer_at(ov, x@, k as int);
            }
            let ghost pre = out@;
            out.insert(k, x);
            proof {
                assert(summary_views(out@) =~= summary_views(pre).insert(k as int, mf[j as int]));
                lemma_insert_newer_props(ov, mf[j as int]);
            }
            j = j + 1;
        }
        proof {
            assert(mf.take(mf.len() as int) =~= mf);
        }
        match filter.limit {
            Some(l) => {
                if l < out.len() {
                    out.truncate(l);
                    proof {
                        assert(summary_views(out@) =~= sort_newer(mf).take(
                            l as int,
                        ));
                    }
                }
            },
            None => {},
        }
        out
    }
}

/// Where the insertion point is known, sorted insertion is `Seq::insert`.
proof fn lemma_insert_newer_at(s: Seq<SummaryM>, x: SummaryM, j: int)
    requires
        sorted_by(s, newer_leq()),
        0 <= j <= s.len(),
        forall|k: int| 0 <= k < j ==> !newer_first(x, #[trigger] s[k]),
        j < s.len() ==> newer_first(x, s[j]),
    ensures
        insert_newer(s, x) == s.insert(j, x),
    decreases j,
{
    if j == 0 {
        assert(insert_newer(s, x) =~= s.insert(0, x));
    } else {
        assert(!newer_first(x, s[0]));
        let d = s.drop_first();
        assert(sorted_by(d, newer_leq()));
        assert(forall|k: int| 0 <= k < j - 1 ==> !newer_first(x, #[trigger] d[k]));
        lemma_insert_newer_at(d, x, j - 1);
        assert(insert_newer(s, x) == seq![s[0]] + d.insert(j - 1, x));
        assert(seq![s[0]] + d.insert(j - 1, x) =~= s.insert(j, x));
    }
}

/// Everything `list` returns matches the filter and is the summary of a
/// stored trace: a listed entry with `has_errors` demanded true really
/// holds an error span, a demanded minimum duration really holds, and the
/// filter's set predicates hold together, as a conjunction.
pub proof fn lemma_list_sound(s: Seq<EntryM>, f: FilterM, thresholds: Thresholds, i: int)
    requires
        0 <= i < spec_list(s, f, thresholds).len(),
    ensures
        matches_filter(spec_list(s, f, thresholds)[i], f),
        exists|k: int|
            0 <= k < s.len() && spec_list(s, f, thresholds)[i] == summary_of(
                (#[trigger] s[k]).trace,
                thresholds,
            ),
        f.has_errors == Some(true) ==> spec_list(s, f, thresholds)[i].has_errors,
        f.has_errors == Some(false) ==> !spec_list(s, f, thresholds)[i].has_errors,
        match f.min_duration_nanos {
            Some(m) => spec_list(s, f, thresholds)[i].duration_nanos is Some && m <= spec_list(
                s,
                f,
                thresholds,
            )[i].duration_nanos->0,
            None => true,
        },
{
    broadcast use Seq::lemma_index_contains, Seq::lemma_filter_pred;

    let all = summaries_of(s, thresholds);
    let mf = all.filter(|x: SummaryM| matches_filter(x, f));
    let sorted = sort_newer(mf);
    let out = spec_list(s, f, thresholds);
    lemma_sort_newer_props(mf);
    assert(out[i] == sorted[i]) by {
        match f.limit {
            Some(l) => {
                if l < sorted.len() {
                    assert(out == sorted.take(l as int));
                }
            },
            None => {},
        }
    }
    assert(sorted.contains(sorted[i]));
    assert(mf.contains(sorted[i]));
    let k = choose|k: int| 0 <= k < mf.len() && mf[k] == sorted[i];
    assert(matches_filter(mf[k], f));
    all.lemma_filter_contains_rev(|x: SummaryM| matches_filter(x, f), sorted[i]);
    let m = choose|m: int| 0 <= m < all.len() && all[m] == sorted[i];
    assert(all[m] == summary_of(s[m].trace, thresholds));
}

/// A summary reports an error exactly when its trace holds an error span,
/// and its duration is the trace's duration: what the filter tests is what
/// the trace contains.
pub proof fn lemma_summary_faithful(t: TraceM, thresholds: Thresholds)
    ensures
        summary_of(t, thresholds).has_errors == has_error_span(t.spans),
        summary_of(t, thresholds).duration_nanos == trace_duration(t),
        summary_of(t, thresholds).trace_id == t.trace_id,
        summary_of(t, thresholds).span_count == t.spans.len(),
{
}

} // verus!
