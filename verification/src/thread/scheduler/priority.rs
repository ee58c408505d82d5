//! Strict-priority scheduler with one FIFO queue per level.
//!
//! Each queue is written front to back: `register` adds at the front and the
//! scheduler takes from the back, so the back of a queue is the thread that
//! has waited longest at that level.

use crate::thread::{Status, Thread, ThreadView, thread_views, PRI_LEVELS};
use std::collections::VecDeque;
use vstd::prelude::*;
use vstd::seq_lib::{lemma_multiset_commutative, to_multiset_build};

verus! {

/// Predicate "thread `t` has priority `level`" as a function of `t`.
pub open spec fn at_level(threads: Seq<ThreadView>, level: int) -> spec_fn(usize) -> bool {
    |t: usize| threads[t as int].priority == level
}

/// The threads of `q` whose priority is `level`, in the order of `q`.
pub open spec fn keep(q: Seq<usize>, threads: Seq<ThreadView>, level: int) -> Seq<usize> {
    q.filter(at_level(threads, level))
}

/// The threads of priority `level` found in the first `n` queues other than
/// queue `level`, by ascending queue and front to back within a queue.
pub open spec fn movers(queues: Seq<Seq<usize>>, threads: Seq<ThreadView>, level: int, n: int) -> Seq<
    usize,
>
    decreases n,
{
    if n <= 0 {
        Seq::empty()
    } else if n - 1 == level {
        movers(queues, threads, level, n - 1)
    } else {
        movers(queues, threads, level, n - 1) + keep(queues[n - 1], threads, level)
    }
}

/// The queues after every thread has been moved to the level of its priority.
///
/// A queue keeps the threads that belong to it in their order; the threads that
/// arrive from other queues follow them, towards the back.
pub open spec fn rebucket(queues: Seq<Seq<usize>>, threads: Seq<ThreadView>) -> Seq<Seq<usize>> {
    Seq::new(
        queues.len(),
        |j: int| keep(queues[j], threads, j) + movers(queues, threads, j, queues.len() as int),
    )
}

/// Highest level below `n` whose queue holds a thread, or -1.
pub open spec fn top_level(queues: Seq<Seq<usize>>, n: int) -> int
    decreases n,
{
    if n <= 0 {
        -1
    } else if queues[n - 1].len() > 0 {
        n - 1
    } else {
        top_level(queues, n - 1)
    }
}

/// Whether the running thread keeps the processor against `candidate`.
pub open spec fn keeps_running(threads: Seq<ThreadView>, current: usize, candidate: usize) -> bool {
    threads[candidate as int].priority < threads[current as int].priority
        && threads[current as int].status == Status::Running
}

/// Thread chosen from queues in which every thread sits at its level.
pub open spec fn pick(queues: Seq<Seq<usize>>, threads: Seq<ThreadView>, current: usize) -> Option<
    usize,
> {
    let top = top_level(queues, queues.len() as int);
    if top < 0 {
        None
    } else if keeps_running(threads, current, queues[top].last()) {
        None
    } else {
        Some(queues[top].last())
    }
}

/// Queues left behind by [`pick`].
pub open spec fn after_pick(queues: Seq<Seq<usize>>, threads: Seq<ThreadView>, current: usize) -> Seq<
    Seq<usize>,
> {
    let top = top_level(queues, queues.len() as int);
    if pick(queues, threads, current) is Some {
        queues.update(top, queues[top].drop_last())
    } else {
        queues
    }
}

/// Whether `t` sits in one of the queues.
pub open spec fn queued(queues: Seq<Seq<usize>>, t: usize) -> bool {
    exists|j: int| 0 <= j < queues.len() && #[trigger] queues[j].contains(t)
}

/// Every queued thread exists and has a priority that names a queue.
pub open spec fn queues_fit(queues: Seq<Seq<usize>>, threads: Seq<ThreadView>) -> bool {
    forall|j: int, k: int|
        0 <= j < queues.len() && 0 <= k < queues[j].len() ==> {
            &&& (#[trigger] queues[j][k]) < threads.len()
            &&& threads[queues[j][k] as int].priority < queues.len()
        }
}

/// A filter keeps a sequence whose elements all pass.
pub proof fn lemma_filter_all<A>(s: Seq<A>, pred: spec_fn(A) -> bool)
    requires
        forall|k: int| 0 <= k < s.len() ==> pred(#[trigger] s[k]),
    ensures
        s.filter(pred) == s,
    decreases s.len(),
{
    reveal(Seq::filter);
    if s.len() > 0 {
        lemma_filter_all(s.drop_last(), pred);
        assert(s.drop_last().push(s.last()) =~= s);
    }
}

/// A filter empties a sequence none of whose elements pass.
pub proof fn lemma_filter_none<A>(s: Seq<A>, pred: spec_fn(A) -> bool)
    requires
        forall|k: int| 0 <= k < s.len() ==> !pred(#[trigger] s[k]),
    ensures
        s.filter(pred) == Seq::<A>::empty(),
    decreases s.len(),
{
    reveal(Seq::filter);
    if s.len() > 0 {
        lemma_filter_none(s.drop_last(), pred);
    }
}

/// Every thread among the movers to a level has that level's priority.
pub proof fn lemma_movers_level(queues: Seq<Seq<usize>>, threads: Seq<ThreadView>, level: int, n: int)
    ensures
        forall|k: int|
            0 <= k < movers(queues, threads, level, n).len() ==> threads[(#[trigger] movers(
                queues,
                threads,
                level,
                n,
            )[k]) as int].priority == level,
    decreases n,
{
    if n > 0 {
        lemma_movers_level(queues, threads, level, n - 1);
        if n - 1 != level {
            let a = movers(queues, threads, level, n - 1);
            let b = keep(queues[n - 1], threads, level);
            assert forall|k: int| 0 <= k < (a + b).len() implies threads[(#[trigger] (a + b)[k]) as int].priority
                == level by {
                if k >= a.len() {
                    queues[n - 1].lemma_filter_pred(at_level(threads, level), k - a.len());
                }
            }
        }
    }
}

/// Every thread that [`keep`] retains has the level's priority and comes from the queue.
pub proof fn lemma_keep_level(q: Seq<usize>, threads: Seq<ThreadView>, level: int)
    ensures
        forall|k: int|
            0 <= k < keep(q, threads, level).len() ==> {
                &&& threads[(#[trigger] keep(q, threads, level)[k]) as int].priority == level
                &&& q.contains(keep(q, threads, level)[k])
            },
{
    assert forall|k: int| 0 <= k < keep(q, threads, level).len() implies {
        &&& threads[(#[trigger] keep(q, threads, level)[k]) as int].priority == level
        &&& q.contains(keep(q, threads, level)[k])
    } by {
        q.lemma_filter_pred(at_level(threads, level), k);
        assert(keep(q, threads, level).contains(keep(q, threads, level)[k]));
        q.lemma_filter_contains_rev(at_level(threads, level), keep(q, threads, level)[k]);
    }
}


/// How often `t` occurs in the first `n` queues.
pub open spec fn occurrences(queues: Seq<Seq<usize>>, t: usize, n: int) -> nat
    decreases n,
{
    if n <= 0 {
        0
    } else {
        occurrences(queues, t, n - 1) + queues[n - 1].to_multiset().count(t)
    }
}

/// How often `t` occurs in the queues.
pub open spec fn times_queued(queues: Seq<Seq<usize>>, t: usize) -> nat {
    occurrences(queues, t, queues.len() as int)
}

/// A filter keeps every occurrence of a value that passes and none of one that does not.
pub proof fn lemma_filter_count<A>(s: Seq<A>, pred: spec_fn(A) -> bool, x: A)
    ensures
        s.filter(pred).to_multiset().count(x) == if pred(x) {
            s.to_multiset().count(x)
        } else {
            0
        },
    decreases s.len(),
{
    reveal(Seq::filter);
    if s.len() == 0 {
        s.to_multiset_ensures();
        assert(!s.contains(x));
    } else {
        let front = s.drop_last();
        lemma_filter_count(front, pred, x);
        assert(front.push(s.last()) =~= s);
        to_multiset_build(front, s.last());
        if pred(s.last()) {
            to_multiset_build(front.filter(pred), s.last());
        }
    }
}

/// When no queue among the first `n` holds `t`, it occurs zero times in them, and conversely.
pub proof fn lemma_occurrences_zero(queues: Seq<Seq<usize>>, t: usize, n: int)
    requires
        0 <= n <= queues.len(),
    ensures
        occurrences(queues, t, n) == 0 <==> forall|j: int|
            0 <= j < n ==> !(#[trigger] queues[j]).contains(t),
    decreases n,
{
    if n > 0 {
        lemma_occurrences_zero(queues, t, n - 1);
        queues[n - 1].to_multiset_ensures();
    }
}

/// A thread is queued exactly when it occurs at least once.
pub proof fn lemma_queued_iff_occurs(queues: Seq<Seq<usize>>, t: usize)
    ensures
        queued(queues, t) <==> times_queued(queues, t) > 0,
{
    lemma_occurrences_zero(queues, t, queues.len() as int);
}

/// The movers to a level hold each thread of that level as often as the
/// queues they come from, and no other thread.
pub proof fn lemma_movers_count(
    queues: Seq<Seq<usize>>,
    threads: Seq<ThreadView>,
    level: int,
    n: int,
    t: usize,
)
    requires
        0 <= n <= queues.len(),
    ensures
        movers(queues, threads, level, n).to_multiset().count(t) == if threads[t as int].priority
            == level {
            occurrences(queues, t, n) - if 0 <= level < n {
                queues[level].to_multiset().count(t)
            } else {
                0
            }
        } else {
            0
        },
    decreases n,
{
    if n <= 0 {
        Seq::<usize>::empty().to_multiset_ensures();
        assert(!Seq::<usize>::empty().contains(t));
    } else {
        lemma_movers_count(queues, threads, level, n - 1, t);
        if n - 1 != level {
            lemma_multiset_commutative(
                movers(queues, threads, level, n - 1),
                keep(queues[n - 1], threads, level),
            );
            lemma_filter_count(queues[n - 1], at_level(threads, level), t);
        }
    }
}

/// Occurrences in queues of which at most queue `p` holds `t`.
proof fn lemma_occurrences_single(queues: Seq<Seq<usize>>, t: usize, p: int, n: int)
    requires
        0 <= n <= queues.len(),
        forall|j: int| 0 <= j < n && j != p ==> (#[trigger] queues[j]).to_multiset().count(t) == 0,
    ensures
        occurrences(queues, t, n) == if 0 <= p < n {
            queues[p].to_multiset().count(t)
        } else {
            0
        },
    decreases n,
{
    if n > 0 {
        lemma_occurrences_single(queues, t, p, n - 1);
    }
}

/// Rebucketing moves threads between queues and neither drops nor repeats one.
pub proof fn lemma_rebucket_occurrences(queues: Seq<Seq<usize>>, threads: Seq<ThreadView>, t: usize)
    requires
        queues_fit(queues, threads),
    ensures
        times_queued(rebucket(queues, threads), t) == times_queued(queues, t),
{
    let r = rebucket(queues, threads);
    let n = queues.len() as int;
    let p = threads[t as int].priority as int;
    assert forall|j: int| 0 <= j < n implies (#[trigger] r[j]).to_multiset().count(t) == if j == p {
        times_queued(queues, t)
    } else {
        0
    } by {
        lemma_multiset_commutative(keep(queues[j], threads, j), movers(queues, threads, j, n));
        lemma_filter_count(queues[j], at_level(threads, j), t);
        lemma_movers_count(queues, threads, j, n, t);
    }
    lemma_occurrences_single(r, t, p, n);
    if !(0 <= p < n) {
        assert forall|j: int| 0 <= j < n implies !(#[trigger] queues[j]).contains(t) by {
            if queues[j].contains(t) {
                let k = choose|k: int| 0 <= k < queues[j].len() && queues[j][k] == t;
                assert(threads[queues[j][k] as int].priority < queues.len());
            }
        }
        lemma_occurrences_zero(queues, t, n);
    }
}

/// After rebucketing, every queued thread sits in the queue of its priority.
pub proof fn lemma_rebucket_levels(queues: Seq<Seq<usize>>, threads: Seq<ThreadView>)
    ensures
        forall|j: int, k: int|
            0 <= j < queues.len() && 0 <= k < rebucket(queues, threads)[j].len()
                ==> threads[(#[trigger] rebucket(queues, threads)[j][k]) as int].priority == j,
{
    let r = rebucket(queues, threads);
    assert forall|j: int, k: int| 0 <= j < queues.len() && 0 <= k < r[j].len() implies threads[(
    #[trigger] r[j][k]) as int].priority == j by {
        lemma_keep_level(queues[j], threads, j);
        lemma_movers_level(queues, threads, j, queues.len() as int);
        let a = keep(queues[j], threads, j);
        if k < a.len() {
            assert(r[j][k] == a[k]);
        } else {
            assert(r[j][k] == movers(queues, threads, j, queues.len() as int)[k - a.len()]);
        }
    }
}


/// The top level is the highest non-empty queue below `n`, or -1 when all are empty.
pub proof fn lemma_top_level(queues: Seq<Seq<usize>>, n: int)
    requires
        0 <= n <= queues.len(),
    ensures
        -1 <= top_level(queues, n) < n,
        top_level(queues, n) >= 0 ==> queues[top_level(queues, n)].len() > 0,
        forall|j: int| top_level(queues, n) < j < n ==> (#[trigger] queues[j]).len() == 0,
    decreases n,
{
    if n > 0 && queues[n - 1].len() == 0 {
        lemma_top_level(queues, n - 1);
    }
}

/// Strict priority: a thread handed out by the scheduler is one of the queued
/// threads and no queued thread has a higher priority. When threads are
/// queued and none is handed out, the current thread is running and its
/// priority is above that of every queued thread.
pub proof fn lemma_pick_highest(queues: Seq<Seq<usize>>, threads: Seq<ThreadView>, current: usize)
    requires
        queues_fit(queues, threads),
    ensures
        pick(rebucket(queues, threads), threads, current) matches Some(c) ==> {
            &&& queued(queues, c)
            &&& forall|t: usize|
                queued(queues, t) ==> threads[t as int].priority <= threads[c as int].priority
        },
        pick(rebucket(queues, threads), threads, current) is None ==> {
            ||| forall|t: usize| !queued(queues, t)
            ||| {
                &&& threads[current as int].status == Status::Running
                &&& forall|t: usize|
                    queued(queues, t) ==> threads[t as int].priority
                        < threads[current as int].priority
            }
        },
{
    let r = rebucket(queues, threads);
    let n = queues.len() as int;
    let top = top_level(r, n);
    lemma_top_level(r, n);
    lemma_rebucket_levels(queues, threads);
    assert forall|t: usize| queued(queues, t) implies 0 <= top && threads[t as int].priority
        <= top by {
        lemma_queued_iff_occurs(queues, t);
        lemma_rebucket_occurrences(queues, threads, t);
        lemma_queued_iff_occurs(r, t);
        let j = choose|j: int| 0 <= j < r.len() && #[trigger] r[j].contains(t);
        let k = choose|k: int| 0 <= k < r[j].len() && r[j][k] == t;
        assert(threads[r[j][k] as int].priority == j);
    }
    if top >= 0 {
        let c = r[top].last();
        assert(threads[r[top][r[top].len() - 1] as int].priority == top);
        assert(r[top].contains(c));
        lemma_queued_iff_occurs(r, c);
        lemma_rebucket_occurrences(queues, threads, c);
        lemma_queued_iff_occurs(queues, c);
    }
}


/// Replacing one queue changes a thread's occurrences by the difference between the two queues.
pub proof fn lemma_update_occurrences(
    queues: Seq<Seq<usize>>,
    j: int,
    q: Seq<usize>,
    t: usize,
    n: int,
)
    requires
        0 <= j < queues.len(),
        0 <= n <= queues.len(),
    ensures
        occurrences(queues.update(j, q), t, n) == if j < n {
            occurrences(queues, t, n) - queues[j].to_multiset().count(t) + q.to_multiset().count(t)
        } else {
            occurrences(queues, t, n) as int
        },
        j < n ==> occurrences(queues, t, n) >= queues[j].to_multiset().count(t),
    decreases n,
{
    if n > 0 {
        lemma_update_occurrences(queues, j, q, t, n - 1);
    }
}

/// Registering `x` at `level` adds one occurrence of `x` and changes no other count.
pub proof fn lemma_register_occurrences(queues: Seq<Seq<usize>>, level: int, x: usize, t: usize)
    requires
        0 <= level < queues.len(),
    ensures
        times_queued(queues.update(level, seq![x] + queues[level]), t) == times_queued(queues, t)
            + if t == x {
            1nat
        } else {
            0nat
        },
{
    lemma_update_occurrences(queues, level, seq![x] + queues[level], t, queues.len() as int);
    lemma_multiset_commutative(seq![x], queues[level]);
    assert(seq![x] =~= Seq::<usize>::empty().push(x));
    to_multiset_build(Seq::<usize>::empty(), x);
    Seq::<usize>::empty().to_multiset_ensures();
    assert(!Seq::<usize>::empty().contains(t));
}

/// Taking the last thread of queue `level` removes one occurrence of it and changes no other count.
pub proof fn lemma_take_occurrences(queues: Seq<Seq<usize>>, level: int, t: usize)
    requires
        0 <= level < queues.len(),
        queues[level].len() > 0,
    ensures
        times_queued(queues.update(level, queues[level].drop_last()), t) + if t
            == queues[level].last() {
            1nat
        } else {
            0nat
        } == times_queued(queues, t),
{
    let q = queues[level];
    lemma_update_occurrences(queues, level, q.drop_last(), t, queues.len() as int);
    assert(q.drop_last().push(q.last()) =~= q);
    to_multiset_build(q.drop_last(), q.last());
}


/// Rebucketing keeps the queues within the arena and the priority range.
pub proof fn lemma_rebucket_fits(queues: Seq<Seq<usize>>, threads: Seq<ThreadView>)
    requires
        queues_fit(queues, threads),
    ensures
        queues_fit(rebucket(queues, threads), threads),
{
    let r = rebucket(queues, threads);
    assert forall|j: int, k: int| 0 <= j < r.len() && 0 <= k < r[j].len() implies {
        &&& (#[trigger] r[j][k]) < threads.len()
        &&& threads[r[j][k] as int].priority < r.len()
    } by {
        let t = r[j][k];
        assert(r[j].contains(t));
        lemma_queued_iff_occurs(r, t);
        lemma_rebucket_occurrences(queues, threads, t);
        lemma_queued_iff_occurs(queues, t);
        let j0 = choose|j0: int| 0 <= j0 < queues.len() && #[trigger] queues[j0].contains(t);
        let k0 = choose|k0: int| 0 <= k0 < queues[j0].len() && queues[j0][k0] == t;
        assert(queues[j0][k0] < threads.len());
    }
}


/// Priority scheduler.
pub struct PriorityScheduler {
    queues: Vec<VecDeque<usize>>,
}

impl View for PriorityScheduler {
    type V = Seq<Seq<usize>>;

    closed spec fn view(&self) -> Seq<Seq<usize>> {
        Seq::new(self.queues@.len(), |j: int| self.queues@[j]@)
    }
}

impl PriorityScheduler {
    /// A scheduler with 64 empty queues.
    pub fn new() -> (s: Self)
        ensures
            s@.len() == PRI_LEVELS,
            forall|j: int| 0 <= j < PRI_LEVELS ==> s@[j] == Seq::<usize>::empty(),
    {
        let mut queues: Vec<VecDeque<usize>> = Vec::new();
        let mut i: usize = 0;
        while i < PRI_LEVELS
            invariant
                i <= PRI_LEVELS,
                queues@.len() == i,
                forall|j: int| 0 <= j < i ==> queues@[j]@ == Seq::<usize>::empty(),
            decreases PRI_LEVELS - i,
        {
            queues.push(VecDeque::new());
            i += 1;
        }
        PriorityScheduler { queues }
    }

    /// Adds `thread` at the front of the queue of level `priority`.
    pub fn register(&mut self, thread: usize, priority: u32)
        requires
            old(self)@.len() == PRI_LEVELS,
            priority < PRI_LEVELS,
        ensures
            final(self)@ == old(self)@.update(
                priority as int,
                seq![thread] + old(self)@[priority as int],
            ),
    {
        self.queues[priority as usize].push_front(thread);
        assert(self@ =~= old(self)@.update(
            priority as int,
            seq![thread] + old(self)@[priority as int],
        ));
    }

    /// Moves every queued thread to the queue of its present priority.
    ///
    /// Priorities change while a thread waits in a queue; this restores the
    /// rule that queue `j` holds exactly the threads of priority `j`.
    pub fn update_priority(&mut self, threads: &Vec<Thread>)
        requires
            old(self)@.len() == PRI_LEVELS,
            queues_fit(old(self)@, thread_views(threads@)),
        ensures
            final(self)@ == rebucket(old(self)@, thread_views(threads@)),
            queues_fit(final(self)@, thread_views(threads@)),
    {
        let ghost ts = thread_views(threads@);
        let ghost old0 = self@;
        let mut i: usize = 0;
        while i < PRI_LEVELS
            invariant
                i <= PRI_LEVELS,
                ts == thread_views(threads@),
                old0.len() == PRI_LEVELS,
                self@.len() == PRI_LEVELS,
                queues_fit(self@, ts),
                forall|j: int|
                    0 <= j < i ==> #[trigger] self@[j] == keep(old0[j], ts, j) + movers(
                        old0,
                        ts,
                        j,
                        i as int,
                    ),
                forall|j: int|
                    i <= j < PRI_LEVELS ==> #[trigger] self@[j] == old0[j] + movers(
                        old0,
                        ts,
                        j,
                        i as int,
                    ),
            decreases PRI_LEVELS - i,
        {
            let ghost base = self@;
            let ghost q = base[i as int];
            let ghost mut k: int = 0;
            let mut temp: VecDeque<usize> = VecDeque::new();
            assert(q.subrange(0, 0) =~= Seq::<usize>::empty());
            assert(q.subrange(0, q.len() as int) =~= q);
            proof {
                assert forall|j: int| 0 <= j < PRI_LEVELS implies #[trigger] keep(
                    q.subrange(0, 0),
                    ts,
                    j,
                ) == Seq::<usize>::empty() by {
                    lemma_filter_none(q.subrange(0, 0), at_level(ts, j));
                }
            }
            while self.queues[i].len() > 0
                invariant
                    i < PRI_LEVELS,
                    ts == thread_views(threads@),
                    self@.len() == PRI_LEVELS,
                    base.len() == PRI_LEVELS,
                    q == base[i as int],
                    0 <= k <= q.len(),
                    queues_fit(self@, ts),
                    self@[i as int] == q.subrange(k, q.len() as int),
                    temp@ == keep(q.subrange(0, k), ts, i as int),
                    forall|j: int|
                        0 <= j < PRI_LEVELS && j != i ==> #[trigger] self@[j] == base[j] + keep(
                            q.subrange(0, k),
                            ts,
                            j,
                        ),
                decreases q.len() - k,
            {
                let ghost before = self@;
                assert(before[i as int][0] == q[k]);
                let t = self.queues[i].pop_front().unwrap();
                let p = threads[t].priority as usize;
                proof {
                    assert(q.subrange(0, k + 1) =~= q.subrange(0, k).push(t));
                    assert forall|j: int| 0 <= j < PRI_LEVELS implies #[trigger] keep(
                        q.subrange(0, k + 1),
                        ts,
                        j,
                    ) == if j == p {
                        keep(q.subrange(0, k), ts, j).push(t)
                    } else {
                        keep(q.subrange(0, k), ts, j)
                    } by {
                        q.subrange(0, k).lemma_filter_push(t, at_level(ts, j));
                    }
                }
                if p == i {
                    temp.push_back(t);
                } else {
                    self.queues[p].push_back(t);
                }
                proof {
                    k = k + 1;
                    assert(self@[i as int] =~= q.subrange(k, q.len() as int));
                    assert forall|j: int| 0 <= j < PRI_LEVELS && j != i implies #[trigger] self@[j]
                        == base[j] + keep(q.subrange(0, k), ts, j) by {
                        assert(before[j] == base[j] + keep(q.subrange(0, k - 1), ts, j));
                        if j == p {
                            assert(self@[j] == before[j].push(t));
                            assert(keep(q.subrange(0, k), ts, j) == keep(q.subrange(0, k - 1), ts, j).push(t));
                        } else {
                            assert(self@[j] == before[j]);
                            assert(keep(q.subrange(0, k), ts, j) == keep(q.subrange(0, k - 1), ts, j));
                        }
                        assert(self@[j] =~= base[j] + keep(q.subrange(0, k), ts, j));
                    }
                    assert forall|j: int, n: int|
                        0 <= j < self@.len() && 0 <= n < self@[j].len() implies {
                        &&& (#[trigger] self@[j][n]) < ts.len()
                        &&& ts[self@[j][n] as int].priority < self@.len()
                    } by {
                        if j == i {
                            assert(self@[j][n] == before[j][n + 1]);
                        } else if j == p && n == before[j].len() {
                            assert(self@[j][n] == before[i as int][0]);
                        } else {
                            assert(self@[j][n] == before[j][n]);
                        }
                    }
                }
            }
            let ghost mid = self@;
            self.queues[i] = temp;
            proof {
                assert(q.subrange(0, k) =~= q);
                lemma_movers_level(old0, ts, i as int, i as int);
                let mv = movers(old0, ts, i as int, i as int);
                Seq::filter_distributes_over_add(old0[i as int], mv, at_level(ts, i as int));
                lemma_filter_all(mv, at_level(ts, i as int));
                assert(self@[i as int] == keep(old0[i as int], ts, i as int) + movers(
                    old0,
                    ts,
                    i as int,
                    i + 1,
                ));
                assert forall|j: int| 0 <= j < PRI_LEVELS && j != i implies #[trigger] self@[j]
                    == mid[j] && keep(q, ts, j) == keep(old0[i as int], ts, j) by {
                    Seq::filter_distributes_over_add(old0[i as int], mv, at_level(ts, j));
                    lemma_filter_none(mv, at_level(ts, j));
                    assert(keep(old0[i as int], ts, j) + Seq::<usize>::empty() =~= keep(
                        old0[i as int],
                        ts,
                        j,
                    ));
                }
                assert forall|j: int| 0 <= j < i + 1 implies #[trigger] self@[j] == keep(
                    old0[j],
                    ts,
                    j,
                ) + movers(old0, ts, j, i + 1) by {
                    if j != i {
                        assert(self@[j] =~= keep(old0[j], ts, j) + movers(old0, ts, j, i + 1));
                    }
                }
                assert forall|j: int| i + 1 <= j < PRI_LEVELS implies #[trigger] self@[j]
                    == old0[j] + movers(old0, ts, j, i + 1) by {
                    assert(self@[j] =~= old0[j] + movers(old0, ts, j, i + 1));
                }
                lemma_keep_level(q, ts, i as int);
                assert forall|j: int, n: int|
                    0 <= j < self@.len() && 0 <= n < self@[j].len() implies {
                    &&& (#[trigger] self@[j][n]) < ts.len()
                    &&& ts[self@[j][n] as int].priority < self@.len()
                } by {
                    if j == i {
                        let x = keep(q, ts, i as int)[n];
                        assert(q.contains(x));
                        let idx = choose|idx: int| 0 <= idx < q.len() && q[idx] == x;
                        assert(base[i as int][idx] == x);
                    } else {
                        assert(self@[j][n] == mid[j][n]);
                    }
                }
            }
            i += 1;
        }
        assert(self@ =~= rebucket(old0, ts));
    }

    /// Chooses the thread to run next, or `None` if the running thread keeps the processor.
    ///
    /// The queues are first put in order by [`Self::update_priority`]. The
    /// candidate is the thread at the back of the highest queue that holds
    /// one. It is handed out and leaves its queue unless the current thread is
    /// still running and has a strictly higher priority.
    pub fn schedule(&mut self, threads: &Vec<Thread>, current: usize) -> (next: Option<usize>)
        requires
            old(self)@.len() == PRI_LEVELS,
            queues_fit(old(self)@, thread_views(threads@)),
            current < threads.len(),
        ensures
            next == pick(
                rebucket(old(self)@, thread_views(threads@)),
                thread_views(threads@),
                current,
            ),
            final(self)@ == after_pick(
                rebucket(old(self)@, thread_views(threads@)),
                thread_views(threads@),
                current,
            ),
            queues_fit(final(self)@, thread_views(threads@)),
            final(self)@.len() == PRI_LEVELS,
    {
        self.update_priority(threads);
        let ghost ts = thread_views(threads@);
        let ghost r = self@;
        let mut i: usize = PRI_LEVELS;
        while i > 0
            invariant
                i <= PRI_LEVELS,
                self@ == r,
                r == rebucket(old(self)@, ts),
                r.len() == PRI_LEVELS,
                ts == thread_views(threads@),
                current < threads.len(),
                queues_fit(r, ts),
                top_level(r, PRI_LEVELS as int) == top_level(r, i as int),
            decreases i,
        {
            i -= 1;
            if self.queues[i].len() > 0 {
                assert(top_level(r, PRI_LEVELS as int) == i);
                let chosen = self.queues[i].pop_back().unwrap();
                assert(chosen == r[i as int].last());
                assert(chosen == r[i as int][r[i as int].len() - 1]);
                if threads[chosen].priority < threads[current].priority
                    && threads[current].status == Status::Running {
                    self.queues[i].push_back(chosen);
                    assert(self@[i as int] =~= r[i as int]);
                    assert(self@ =~= r);
                    return None;
                } else {
                    assert(self@ =~= r.update(i as int, r[i as int].drop_last()));
                    assert forall|j: int, n: int|
                        0 <= j < self@.len() && 0 <= n < self@[j].len() implies {
                        &&& (#[trigger] self@[j][n]) < ts.len()
                        &&& ts[self@[j][n] as int].priority < self@.len()
                    } by {
                        assert(self@[j][n] == r[j][n]);
                    }
                    return Some(chosen);
                }
            }
        }
        None
    }
}

impl Default for PriorityScheduler {
    fn default() -> (s: Self)
        ensures
            s@.len() == PRI_LEVELS,
            forall|j: int| 0 <= j < PRI_LEVELS ==> s@[j] == Seq::<usize>::empty(),
    {
        PriorityScheduler::new()
    }
}

} // verus!
