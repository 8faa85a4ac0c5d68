//! Bounded fan-out of trace lifecycle events to live subscribers.
//!
//! Each subscriber owns a queue of fixed capacity. Publishing never blocks
//! and never fails: when a subscriber's queue is full, the oldest buffered
//! event is dropped to make room, so a slow reader can only lose its own
//! events, never stall ingestion. Events are not replayed: a subscriber
//! only ever sees events published after it registered.

use vstd::prelude::*;

use crate::ids::{SpanId, TraceId};

verus! {

/// A lifecycle event of one trace.
#[derive(Clone, Copy, Debug, PartialEq, Eq, Structural)]
pub enum TraceEvent {
    /// The first span of a new trace id arrived.
    TraceCreated(TraceId),
    /// A span was merged into its trace.
    SpanAdded(TraceId, SpanId),
    /// The trace's root span closed.
    TraceCompleted(TraceId),
}

/// Ghost view of one subscriber: its handle and buffered events, oldest
/// first.
pub struct SubM {
    pub id: u64,
    pub queue: Seq<TraceEvent>,
}

/// One subscriber's bounded buffer.
#[derive(Debug)]
pub struct Subscriber {
    id: u64,
    queue: Vec<TraceEvent>,
}

impl View for Subscriber {
    type V = SubM;

    closed spec fn view(&self) -> SubM {
        SubM { id: self.id, queue: self.queue@ }
    }
}

/// Ghost view of [`EventBus`].
pub struct BusM {
    pub capacity: usize,
    pub next_id: u64,
    pub subs: Seq<SubM>,
}

/// The views of a sequence of subscribers.
pub open spec fn sub_views(s: Seq<Subscriber>) -> Seq<SubM> {
    s.map_values(|x: Subscriber| x@)
}

/// The fan-out registry: subscriber queues fed by the ingestion path.
#[derive(Debug)]
pub struct EventBus {
    capacity: usize,
    next_id: u64,
    subs: Vec<Subscriber>,
}

impl View for EventBus {
    type V = BusM;

    closed spec fn view(&self) -> BusM {
        BusM { capacity: self.capacity, next_id: self.next_id, subs: sub_views(self.subs@) }
    }
}

/// Appending under the capacity bound: a full queue first drops its oldest
/// event.
pub open spec fn push_bounded(q: Seq<TraceEvent>, e: TraceEvent, capacity: usize) -> Seq<
    TraceEvent,
> {
    if q.len() < capacity {
        q.push(e)
    } else {
        q.skip(1).push(e)
    }
}

/// A queue after a whole sequence of events was published to it.
pub open spec fn queue_after(q: Seq<TraceEvent>, es: Seq<TraceEvent>, capacity: usize) -> Seq<
    TraceEvent,
>
    decreases es.len(),
{
    if es.len() == 0 {
        q
    } else {
        push_bounded(queue_after(q, es.drop_last(), capacity), es.last(), capacity)
    }
}

/// What one publish does to the whole bus.
pub open spec fn spec_publish(b: BusM, e: TraceEvent) -> BusM {
    BusM {
        capacity: b.capacity,
        next_id: b.next_id,
        subs: b.subs.map_values(
            |s: SubM| SubM { id: s.id, queue: push_bounded(s.queue, e, b.capacity) },
        ),
    }
}

/// The bus after a whole sequence of events was published.
pub open spec fn spec_publish_all(b: BusM, es: Seq<TraceEvent>) -> BusM
    decreases es.len(),
{
    if es.len() == 0 {
        b
    } else {
        spec_publish(spec_publish_all(b, es.drop_last()), es.last())
    }
}

/// Bus well-formedness: capacity at least one, handles distinct and below
/// the next handle, queues within capacity.
pub open spec fn bus_wf(b: BusM) -> bool {
    &&& b.capacity >= 1
    &&& forall|i: int| 0 <= i < b.subs.len() ==> (#[trigger] b.subs[i]).id < b.next_id
    &&& forall|i: int, j: int| 0 <= i < j < b.subs.len() ==> (#[trigger] b.subs[i]).id != (
    #[trigger] b.subs[j]).id
    &&& forall|i: int| 0 <= i < b.subs.len() ==> (#[trigger] b.subs[i]).queue.len() <= b.capacity
}

impl EventBus {
    /// Bus well-formedness, on the view.
    pub open spec fn wf(&self) -> bool {
        bus_wf(self@)
    }

    /// A fresh bus with the given per-subscriber queue capacity.
    pub fn new(capacity: usize) -> (r: EventBus)
        requires
            capacity >= 1,
        ensures
            r.wf(),
            r@.capacity == capacity,
            r@.subs == Seq::<SubM>::empty(),
    {
        let r = EventBus { capacity, next_id: 0, subs: Vec::new() };
        proof {
            assert(sub_views(r.subs@) =~= Seq::<SubM>::empty());
        }
        r
    }

    /// Whether another subscriber handle can still be issued; handles are
    /// never reused, so a bus that has issued every value is full.
    pub fn can_subscribe(&self) -> (r: bool)
        ensures
            r == (self@.next_id < u64::MAX),
    {
        self.next_id < u64::MAX
    }

    /// Register a new subscriber; it starts with an empty queue and sees
    /// only events published from now on.
    pub fn subscribe(&mut self) -> (id: u64)
        requires
            old(self).wf(),
            old(self)@.next_id < u64::MAX,
        ensures
            final(self).wf(),
            id == old(self)@.next_id,
            final(self)@.capacity == old(self)@.capacity,
            final(self)@.next_id == old(self)@.next_id + 1,
            final(self)@.subs == old(self)@.subs.push(SubM { id, queue: Seq::empty() }),
    {
        let id = self.next_id;
        self.next_id = self.next_id + 1;
        let ghost before = sub_views(self.subs@);
        self.subs.push(Subscriber { id, queue: Vec::new() });
        proof {
            assert(sub_views(self.subs@) =~= before.push(SubM { id, queue: Seq::empty() }));
            assert(before == old(self)@.subs);
            let subs = self@.subs;
            assert forall|k: int| 0 <= k < subs.len() implies (#[trigger] subs[k]).id
                < self@.next_id && subs[k].queue.len() <= self@.capacity by {
                if k < before.len() {
                    assert(subs[k] == before[k]);
                    assert((#[trigger] old(self)@.subs[k]).id < old(self)@.next_id);
                    assert(old(self)@.subs[k].queue.len() <= old(self)@.capacity);
                }
            }
            assert forall|m: int, n: int| 0 <= m < n < subs.len() implies (#[trigger] subs[m]).id
                != (#[trigger] subs[n]).id by {
                if n < before.len() {
                    assert(subs[m] == before[m] && subs[n] == before[n]);
                    assert((#[trigger] old(self)@.subs[m]).id != (#[trigger] old(
                        self,
                    )@.subs[n]).id);
                } else {
                    assert(subs[m] == before[m] && subs[n].id == id);
                    assert((#[trigger] old(self)@.subs[m]).id < old(self)@.next_id);
                }
            }
        }
        id
    }

    /// Drop a subscriber, releasing its queue.
    pub fn unsubscribe(&mut self, id: u64)
        requires
            old(self).wf(),
        ensures
            final(self).wf(),
            final(self)@.capacity == old(self)@.capacity,
            final(self)@.next_id == old(self)@.next_id,
            final(self)@.subs == old(self)@.subs.filter(|s: SubM| s.id != id),
    {
        let ghost before = sub_views(self.subs@);
        let count = self.subs.len();
        proof {
            assert(before.len() == count);
        }
        let mut i: usize = 0;
        let mut w: usize = 0;
        while w < self.subs.len()
            invariant
                w <= i,
                before.len() <= usize::MAX,
                old(self)@.capacity == self@.capacity,
                old(self)@.next_id == self@.next_id,
                sub_views(self.subs@) =~= before.take(i as int).filter(|s: SubM| s.id != id)
                    + before.skip(i as int),
                w == before.take(i as int).filter(|s: SubM| s.id != id).len(),
                sub_views(self.subs@).len() == w + (before.len() - i),
                i <= before.len(),
                before == old(self)@.subs,
            decreases before.len() - i,
        {
            let ghost cur = sub_views(self.subs@);
            let ghost fi = before.take(i as int).filter(|s: SubM| s.id != id);
            proof {
                assert(cur.len() == self.subs@.len());
                assert(i < before.len());
                assert(before.take(i + 1) =~= before.take(i as int).push(before[i as int]));
                before.take(i as int).lemma_filter_push(before[i as int], |s: SubM| s.id != id);
                assert(cur[fi.len() as int] == before.skip(i as int)[0]);
                assert(before.skip(i as int)[0] == before[i as int]);
                assert(before.skip(i as int).skip(1) =~= before.skip(i + 1));
            }
            let keep = self.subs[w].id != id;
            proof {
                assert(sub_views(self.subs@)[w as int] == self.subs@[w as int]@);
                assert(keep == (before[i as int].id != id));
            }
            if keep {
                proof {
                    assert(fi.push(before[i as int]) + before.skip(i + 1) =~= cur);
                }
                w = w + 1;
                i = i + 1;
            } else {
                let ghost pre = self.subs@;
                self.subs.remove(w);
                proof {
                    assert(sub_views(pre.remove(fi.len() as int)) =~= sub_views(pre).remove(
                        fi.len() as int,
                    ));
                    assert(sub_views(self.subs@) =~= fi + before.skip(i + 1));
                }
                i = i + 1;
            }
        }
        proof {
            assert(before.take(before.len() as int) =~= before);
            assert(before.skip(before.len() as int) =~= Seq::<SubM>::empty());
            assert(sub_views(self.subs@) =~= before.filter(|s: SubM| s.id != id));
            lemma_filter_sub_wf(before, |s: SubM| s.id != id);
            let subs = self@.subs;
            assert forall|k: int| 0 <= k < subs.len() implies (#[trigger] subs[k]).id
                < self@.next_id && subs[k].queue.len() <= self@.capacity by {
                assert(before.contains(subs[k]));
                let m = choose|m: int| 0 <= m < before.len() && before[m] == subs[k];
                assert((#[trigger] old(self)@.subs[m]).id < old(self)@.next_id);
                assert(old(self)@.subs[m].queue.len() <= old(self)@.capacity);
            }
        }
    }

    /// Deliver one event to every subscriber, dropping the oldest buffered
    /// event of any queue already at capacity. Never blocks, never fails.
    pub fn publish(&mut self, event: TraceEvent)
        requires
            old(self).wf(),
        ensures
            final(self).wf(),
            final(self)@ == spec_publish(old(self)@, event),
    {
        let ghost before = sub_views(self.subs@);
        let ghost goal = before.map_values(
            |s: SubM| SubM { id: s.id, queue: push_bounded(s.queue, event, old(self)@.capacity) },
        );
        let capacity = self.capacity;
        let mut i: usize = 0;
        while i < self.subs.len()
            invariant
                i <= before.len(),
                self.subs@.len() == before.len(),
                self@.capacity == capacity,
                old(self)@.capacity == capacity,
                old(self)@.next_id == self@.next_id,
                capacity >= 1,
                before == old(self)@.subs,
                goal == before.map_values(
                    |s: SubM| SubM { id: s.id, queue: push_bounded(s.queue, event, capacity) },
                ),
                forall|k: int| 0 <= k < before.len() ==> (#[trigger] before[k]).queue.len()
                    <= capacity,
                forall|k: int|
                    i <= k < before.len() ==> (#[trigger] sub_views(self.subs@)[k]) == before[k],
                forall|k: int| 0 <= k < i ==> (#[trigger] sub_views(self.subs@)[k]) == goal[k],
            decreases before.len() - i,
        {
            let ghost pre0 = self.subs@;
            let mut sub = self.subs.remove(i);
            proof {
                assert(sub_views(pre0)[i as int] == pre0[i as int]@);
                assert(sub@ == before[i as int]);
            }
            if sub.queue.len() == capacity {
                sub.queue.remove(0);
                proof {
                    assert(sub.queue@ =~= before[i as int].queue.skip(1));
                }
            }
            sub.queue.push(event);
            proof {
                assert(sub@.queue == push_bounded(before[i as int].queue, event, capacity));
            }
            let ghost pre = self.subs@;
            self.subs.insert(i, sub);
            proof {
                assert forall|k: int| 0 <= k < sub_views(self.subs@).len() implies #[trigger] sub_views(
                    self.subs@,
                )[k] == self.subs@[k]@ by {}
                assert forall|k: int| 0 <= k < i + 1 implies (#[trigger] sub_views(self.subs@)[k])
                    == goal[k] by {
                    if k < i {
                        assert(self.subs@[k] == pre[k]);
                        assert(pre[k] == pre0[k]);
                        assert((#[trigger] sub_views(pre0)[k]) == pre0[k]@);
                    } else {
                        assert(self.subs@[k] == sub);
                        assert(goal[k] == SubM {
                            id: before[k].id,
                            queue: push_bounded(before[k].queue, event, capacity),
                        });
                    }
                }
                assert forall|k: int| i + 1 <= k < before.len() implies (#[trigger] sub_views(
                    self.subs@,
                )[k]) == before[k] by {
                    assert(self.subs@[k] == pre[k - 1]);
                    assert(pre[k - 1] == pre0[k]);
                    assert((#[trigger] sub_views(pre0)[k]) == pre0[k]@);
                }
            }
            i = i + 1;
        }
        proof {
            assert(sub_views(self.subs@) =~= goal);
            assert(self@ =~= spec_publish(old(self)@, event));
            let subs = self@.subs;
            assert forall|k: int| 0 <= k < subs.len() implies (#[trigger] subs[k]).id
                < self@.next_id && subs[k].queue.len() <= self@.capacity by {
                assert(subs[k] == goal[k]);
                assert(goal[k] == SubM {
                    id: before[k].id,
                    queue: push_bounded(before[k].queue, event, capacity),
                });
            }
            assert forall|m: int, n: int| 0 <= m < n < subs.len() implies (#[trigger] subs[m]).id
                != (#[trigger] subs[n]).id by {
                assert(subs[m] == goal[m] && subs[n] == goal[n]);
                assert(goal[m].id == before[m].id && goal[n].id == before[n].id);
            }
        }
    }

    /// Hand a subscriber everything buffered for it, oldest first, leaving
    /// its queue empty; an unknown handle yields nothing.
    pub fn drain(&mut self, id: u64) -> (r: Vec<TraceEvent>)
        requires
            old(self).wf(),
        ensures
            final(self).wf(),
            final(self)@.capacity == old(self)@.capacity,
            final(self)@.next_id == old(self)@.next_id,
            final(self)@.subs.len() == old(self)@.subs.len(),
            forall|i: int|
                0 <= i < old(self)@.subs.len()
                    ==> (#[trigger] final(self)@.subs[i]).id == old(self)@.subs[i].id,
            match spec_find_sub(old(self)@.subs, id) {
                Some(k) => r@ == old(self)@.subs[k].queue && final(self)@.subs[k].queue
                    == Seq::<TraceEvent>::empty() && (forall|i: int|
                    0 <= i < old(self)@.subs.len() && i != k
                        ==> (#[trigger] final(self)@.subs[i]).queue == old(self)@.subs[i].queue),
                None => r@ == Seq::<TraceEvent>::empty() && final(self)@.subs == old(self)@.subs,
            },
    {
        let ghost before = sub_views(self.subs@);
        let mut i: usize = 0;
        while i < self.subs.len()
            invariant
                i <= before.len(),
                sub_views(self.subs@) == before,
                before == old(self)@.subs,
                self@.capacity == old(self)@.capacity,
                self@.next_id == old(self)@.next_id,
                bus_wf(old(self)@),
                forall|k: int| 0 <= k < i ==> (#[trigger] before[k]).id != id,
            decreases before.len() - i,
        {
            proof {
                assert(sub_views(self.subs@)[i as int] == self.subs@[i as int]@);
            }
            if self.subs[i].id == id {
                proof {
                    lemma_find_sub_at(before, id, i as int);
                }
                let ghost pre0 = self.subs@;
                let mut sub = self.subs.remove(i);
                let events = sub.queue;
                sub.queue = Vec::new();
                let ghost pre = self.subs@;
                self.subs.insert(i, sub);
                proof {
                    assert(sub_views(pre0)[i as int] == pre0[i as int]@);
                    assert(events@ == before[i as int].queue);
                    assert forall|k: int|
                        0 <= k < sub_views(self.subs@).len() implies #[trigger] sub_views(
                        self.subs@,
                    )[k] == self.subs@[k]@ by {}
                    assert(sub_views(self.subs@) =~= before.update(
                        i as int,
                        SubM { id, queue: Seq::empty() },
                    ));
                    let subs = self@.subs;
                    assert forall|k: int| 0 <= k < subs.len() implies (#[trigger] subs[k]).id
                        == before[k].id && subs[k].queue.len() <= self@.capacity by {
                        if k != i {
                            assert(subs[k] == before[k]);
                        }
                    }
                    assert forall|m: int, n: int| 0 <= m < n < subs.len() implies (
                    #[trigger] subs[m]).id != (#[trigger] subs[n]).id by {
                        assert(before[m].id != before[n].id);
                    }
                }
                return events;
            }
            i = i + 1;
        }
        proof {
            lemma_find_sub_absent(before, id);
        }
        Vec::new()
    }
}

/// Index of the subscriber with a handle, as a spec value.
pub open spec fn spec_find_sub(subs: Seq<SubM>, id: u64) -> Option<int> {
    if exists|i: int| 0 <= i < subs.len() && (#[trigger] subs[i]).id == id {
        Some(choose|i: int| 0 <= i < subs.len() && (#[trigger] subs[i]).id == id)
    } else {
        None
    }
}

/// With distinct handles, the found index is the one that matches.
proof fn lemma_find_sub_at(subs: Seq<SubM>, id: u64, k: int)
    requires
        forall|i: int, j: int| 0 <= i < j < subs.len() ==> (#[trigger] subs[i]).id != (
        #[trigger] subs[j]).id,
        0 <= k < subs.len(),
        subs[k].id == id,
    ensures
        spec_find_sub(subs, id) == Some(k),
{
    let i = choose|i: int| 0 <= i < subs.len() && (#[trigger] subs[i]).id == id;
    if i != k {
        if i < k {
            assert(subs[i].id != subs[k].id);
        } else {
            assert(subs[k].id != subs[i].id);
        }
    }
}

/// No subscriber carries the handle: the lookup is empty.
proof fn lemma_find_sub_absent(subs: Seq<SubM>, id: u64)
    requires
        forall|i: int| 0 <= i < subs.len() ==> (#[trigger] subs[i]).id != id,
    ensures
        spec_find_sub(subs, id) is None,
{
}

/// Filtering subscribers keeps the bus invariants on them.
proof fn lemma_filter_sub_wf(subs: Seq<SubM>, pred: spec_fn(SubM) -> bool)
    ensures
        forall|i: int| #![trigger subs.filter(pred)[i]]
            0 <= i < subs.filter(pred).len() ==> subs.contains(subs.filter(pred)[i]),
        forall|i: int, j: int|
            (forall|m: int, n: int| 0 <= m < n < subs.len() ==> (#[trigger] subs[m]).id != (
            #[trigger] subs[n]).id) && 0 <= i < j < subs.filter(pred).len() ==> (
            #[trigger] subs.filter(pred)[i]).id != (#[trigger] subs.filter(pred)[j]).id,
    decreases subs.len(),
{
    reveal(Seq::filter);
    broadcast use Seq::lemma_index_contains;

    if subs.len() > 0 {
        let d = subs.drop_last();
        lemma_filter_sub_wf(d, pred);
        let f = subs.filter(pred);
        let fd = d.filter(pred);
        assert forall|i: int| #![trigger f[i]] 0 <= i < f.len() implies subs.contains(f[i]) by {
            if pred(subs.last()) && i == f.len() - 1 {
            } else {
                assert(f[i] == fd[i]);
                assert(d.contains(fd[i]));
                let k = choose|k: int| 0 <= k < d.len() && d[k] == fd[i];
                assert(subs[k] == f[i]);
            }
        }
        if forall|m: int, n: int| 0 <= m < n < subs.len() ==> (#[trigger] subs[m]).id != (
        #[trigger] subs[n]).id {
            assert forall|m: int, n: int| 0 <= m < n < d.len() implies (#[trigger] d[m]).id != (
            #[trigger] d[n]).id by {
                assert(subs[m].id != subs[n].id);
            }
            assert forall|i: int, j: int| 0 <= i < j < f.len() implies (#[trigger] f[i]).id != (
            #[trigger] f[j]).id by {
                if pred(subs.last()) && j == f.len() - 1 {
                    assert(f[i] == fd[i]);
                    assert(d.contains(fd[i]));
                    let k = choose|k: int| 0 <= k < d.len() && d[k] == fd[i];
                    assert(subs[k].id != subs[subs.len() - 1].id);
                } else {
                    assert(f[i] == fd[i] && f[j] == fd[j]);
                }
            }
        }
    }
}

/// A queue fed from empty holds exactly the newest events that fit: the
/// last `capacity` of what was published after the subscriber registered.
/// In particular it never holds an event published before registration.
pub proof fn lemma_fresh_queue_is_suffix(es: Seq<TraceEvent>, capacity: usize)
    requires
        capacity >= 1,
    ensures
        queue_after(Seq::empty(), es, capacity) == if es.len() <= capacity {
            es
        } else {
            es.skip(es.len() - capacity)
        },
    decreases es.len(),
{
    if es.len() > 0 {
        let d = es.drop_last();
        lemma_fresh_queue_is_suffix(d, capacity);
        let q = queue_after(Seq::empty(), d, capacity);
        if es.len() <= capacity {
            assert(q.push(es.last()) =~= es);
        } else if es.len() == capacity + 1 {
            assert(q.skip(1).push(es.last()) =~= es.skip(es.len() - capacity));
        } else {
            assert(d.skip(d.len() - capacity).skip(1) =~= es.skip(es.len() - capacity).drop_last());
            assert(q.skip(1).push(es.last()) =~= es.skip(es.len() - capacity));
        }
    }
}

/// Publishing a sequence of events drives every queue through
/// [`queue_after`], and touches neither handles nor capacity.
pub proof fn lemma_publish_all_queues(b: BusM, es: Seq<TraceEvent>)
    ensures
        spec_publish_all(b, es).capacity == b.capacity,
        spec_publish_all(b, es).next_id == b.next_id,
        spec_publish_all(b, es).subs.len() == b.subs.len(),
        forall|i: int|
            0 <= i < b.subs.len() ==> (#[trigger] spec_publish_all(b, es).subs[i]).id
                == b.subs[i].id && spec_publish_all(b, es).subs[i].queue == queue_after(
                b.subs[i].queue,
                es,
                b.capacity,
            ),
    decreases es.len(),
{
    if es.len() > 0 {
        lemma_publish_all_queues(b, es.drop_last());
    }
}

/// A subscriber that registers only after a sequence of events was
/// published never holds any of them: everything it will ever see was
/// published after it registered, and its queue is exactly the newest
/// events that fit its capacity.
pub proof fn lemma_late_subscriber_misses_earlier_events(
    b: BusM,
    earlier: Seq<TraceEvent>,
    later: Seq<TraceEvent>,
)
    requires
        bus_wf(b),
        b.next_id < u64::MAX,
    ensures
        ({
            let joined = spec_publish_all(b, earlier).subs.push(
                SubM { id: spec_publish_all(b, earlier).next_id, queue: Seq::empty() },
            );
            let after = spec_publish_all(
                BusM {
                    capacity: b.capacity,
                    next_id: (b.next_id + 1) as u64,
                    subs: joined,
                },
                later,
            );
            &&& after.subs[after.subs.len() - 1].queue == if later.len() <= b.capacity {
                later
            } else {
                later.skip(later.len() - b.capacity)
            }
            &&& forall|x: TraceEvent|
                after.subs[after.subs.len() - 1].queue.contains(x) ==> later.contains(x)
        }),
{
    let b1 = spec_publish_all(b, earlier);
    lemma_publish_all_queues(b, earlier);
    let joined = b1.subs.push(SubM { id: b1.next_id, queue: Seq::empty() });
    let b2 = BusM { capacity: b.capacity, next_id: (b.next_id + 1) as u64, subs: joined };
    lemma_publish_all_queues(b2, later);
    let after = spec_publish_all(b2, later);
    assert(joined[joined.len() - 1].queue == Seq::<TraceEvent>::empty());
    lemma_fresh_queue_is_suffix(later, b.capacity);
    assert(after.subs[after.subs.len() - 1].queue == queue_after(
        Seq::empty(),
        later,
        b.capacity,
    ));
    let q = after.subs[after.subs.len() - 1].queue;
    assert forall|x: TraceEvent| q.contains(x) implies later.contains(x) by {
        let k = choose|k: int| 0 <= k < q.len() && q[k] == x;
        if later.len() <= b.capacity {
        } else {
            assert(later.skip(later.len() - b.capacity)[k] == later[later.len() - b.capacity + k]);
        }
    }
}

} // verus!
