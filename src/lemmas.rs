//! Facts that hold of every well-formed scheduler and of its transitions.
use vstd::prelude::*;
use vstd::multiset::Multiset;
use crate::manager::{has_id, lineage_ok, link_ok};
use crate::task::{N_BANDS, Task};
use crate::scheduler::{
    Release, Scheduler, Slot, SlotState, as_ready, goes, has_ready, ids, is_pick, pick_index, released,
    release_queue, running, select_from, stays, lemma_pick_exists, lemma_pick_unique,
    SchedConfig, after_greedy, put_back, yield_slot,
};

verus! {

broadcast use vstd::multiset::group_multiset_axioms, vstd::seq_lib::group_to_multiset_ensures;

/// Ready slots.
pub open spec fn ready_slot() -> spec_fn(Slot) -> bool {
    |s: Slot| s.state == SlotState::Ready
}

/// Slots blocked on a reason.
pub open spec fn wait_slot() -> spec_fn(Slot) -> bool {
    |s: Slot| s.state is Wait
}

/// Slots sleeping until a deadline.
pub open spec fn sleep_slot() -> spec_fn(Slot) -> bool {
    |s: Slot| s.state is Sleep
}

/// Slots on the die list.
pub open spec fn dead_slot() -> spec_fn(Slot) -> bool {
    |s: Slot| s.state == SlotState::Dead
}

/// The running task, followed by the idle task when it is not running.
pub open spec fn running_seq(current: u64, idle: u64) -> Seq<u64> {
    if current == idle {
        seq![current]
    } else {
        seq![current, idle]
    }
}

/// Every queued slot is in exactly one of the ready, wait, sleep and die lists.
pub proof fn lemma_lists_partition(q: Seq<Slot>)
    ensures
        q.filter(ready_slot()).len() + q.filter(wait_slot()).len() + q.filter(sleep_slot()).len()
            + q.filter(dead_slot()).len() == q.len(),
    decreases q.len(),
{
    if q.len() == 0 {
        assert(q.filter(ready_slot()) =~= Seq::<Slot>::empty()) by {
            q.lemma_filter_len(ready_slot());
        }
        assert(q.filter(wait_slot()) =~= Seq::<Slot>::empty()) by {
            q.lemma_filter_len(wait_slot());
        }
        assert(q.filter(sleep_slot()) =~= Seq::<Slot>::empty()) by {
            q.lemma_filter_len(sleep_slot());
        }
        assert(q.filter(dead_slot()) =~= Seq::<Slot>::empty()) by {
            q.lemma_filter_len(dead_slot());
        }
    } else {
        let p = q.drop_last();
        lemma_lists_partition(p);
        assert(q == p.push(q.last()));
        p.lemma_filter_push(q.last(), ready_slot());
        p.lemma_filter_push(q.last(), wait_slot());
        p.lemma_filter_push(q.last(), sleep_slot());
        p.lemma_filter_push(q.last(), dead_slot());
    }
}

/// The ready lists, the wait list, the sleep list, the die list and the
/// running task together hold as many tasks as the pool has in use; the idle
/// task, when it is not running, adds one.
pub proof fn lemma_task_count(s: Scheduler)
    requires
        s.wf(),
    ensures
        s.queue().filter(ready_slot()).len() + s.queue().filter(wait_slot()).len()
            + s.queue().filter(sleep_slot()).len() + s.queue().filter(dead_slot()).len() + 1
            + (if s.current() == s.idle() { 0int } else { 1int }) == s.manager().use_count(),
{
    lemma_lists_partition(s.queue());
    assert(ids(s.queue()).len() == s.queue().len());
    assert(running(s.current(), s.idle()).len() == if s.current() == s.idle() { 1int } else { 2int });
}

/// No task is in two places at once: the ids of the queued slots, the running
/// task and the idle task are pairwise distinct.
pub proof fn lemma_no_task_twice(s: Scheduler)
    requires
        s.wf(),
    ensures
        (ids(s.queue()) + running_seq(s.current(), s.idle())).no_duplicates(),
{
    let a = ids(s.queue());
    let b = running_seq(s.current(), s.idle());
    vstd::seq_lib::lemma_multiset_commutative(a, b);
    if s.current() == s.idle() {
        assert(b.to_multiset() =~= Multiset::singleton(s.current())) by {
            assert(b =~= Seq::<u64>::empty().push(s.current()));
        }
    } else {
        assert(b.to_multiset() =~= Multiset::singleton(s.current()).insert(s.idle())) by {
            assert(b =~= Seq::<u64>::empty().push(s.current()).push(s.idle()));
        }
    }
    assert((a + b).to_multiset() =~= s.members());
    assert forall|x: u64| (a + b).to_multiset().contains(x) implies (a + b).to_multiset().count(x) == 1 by {
        assert(s.members().count(x) <= 1);
    }
    (a + b).lemma_multiset_has_no_duplicates_conv();
}

/// The FPU owner, when there is one, is a live task that has used the FPU.
pub proof fn lemma_fpu_owner_live(s: Scheduler)
    requires
        s.wf(),
    ensures
        s.fpu_owner() matches Some(o) ==> has_id(s.tasks(), o) && s.task(o).fpu_used_once,
{
}

/// Every lineage link of a live task names a live task.
pub proof fn lemma_lineage_live(s: Scheduler, i: int)
    requires
        s.wf(),
        0 <= i < s.tasks().len(),
    ensures
        link_ok(s.tasks(), s.tasks()[i].parent),
        link_ok(s.tasks(), s.tasks()[i].child),
        link_ok(s.tasks(), s.tasks()[i].sibling),
{
    assert(lineage_ok(s.tasks()));
}

/// A release reorders the queue but keeps every task in it.
pub proof fn lemma_release_keeps_tasks(q: Seq<Slot>, k: Release)
    ensures
        ids(release_queue(q, k)).to_multiset() == ids(q).to_multiset(),
    decreases q.len(),
{
    let r = release_queue(q, k);
    let a = q.filter(stays(k));
    let b = q.filter(goes(k)).map_values(|s: Slot| as_ready(s));
    assert(ids(r) =~= ids(a) + ids(b));
    vstd::seq_lib::lemma_multiset_commutative(ids(a), ids(b));
    if q.len() == 0 {
        q.lemma_filter_len(stays(k));
        q.lemma_filter_len(goes(k));
        assert(ids(q) =~= Seq::<u64>::empty());
        assert(ids(a) =~= Seq::<u64>::empty());
        assert(ids(b) =~= Seq::<u64>::empty());
    } else {
        let p = q.drop_last();
        let x = q.last();
        assert(q == p.push(x));
        lemma_release_keeps_tasks(p, k);
        p.lemma_filter_push(x, stays(k));
        p.lemma_filter_push(x, goes(k));
        let pa = p.filter(stays(k));
        let pb = p.filter(goes(k)).map_values(|s: Slot| as_ready(s));
        assert(ids(release_queue(p, k)) =~= ids(pa) + ids(pb));
        vstd::seq_lib::lemma_multiset_commutative(ids(pa), ids(pb));
        assert(ids(q) =~= ids(p).push(x.id));
        if released(x, k) {
            assert(b =~= pb.push(as_ready(x)));
            assert(ids(b) =~= ids(pb).push(x.id));
            assert(a == pa);
        } else {
            assert(a =~= pa.push(x));
            assert(ids(a) =~= ids(pa).push(x.id));
            assert(b =~= pb);
        }
        assert(ids(r).to_multiset() =~= ids(q).to_multiset());
    }
}

/// A task that blocks on `r` and is then woken by `r` stands in the queue
/// exactly once, ready in its band, and no task waits on `r` any more.
pub proof fn lemma_block_then_wake(s: Scheduler, r: u64)
    requires
        s.wf(),
        s.current() != s.idle(),
    ensures
        ({
            let c = s.current();
            let w = Slot { id: c, band: s.task(c).band, state: SlotState::Wait(r) };
            let q2 = release_queue(select_from(s.queue().push(w), s.idle()).0, Release::Reason(r));
            &&& ids(q2).to_multiset().count(c) == 1
            &&& exists|i: int| 0 <= i < q2.len() && q2[i] == as_ready(w)
            &&& forall|i: int| 0 <= i < q2.len() ==> q2[i].state != SlotState::Wait(r)
        }),
{
    let c = s.current();
    let w = Slot { id: c, band: s.task(c).band, state: SlotState::Wait(r) };
    let q0 = s.queue();
    let qp = q0.push(w);
    let k = Release::Reason(r);
    assert(running(c, s.idle()).count(c) == 1);
    assert(s.members().count(c) <= 1);
    assert(ids(q0).to_multiset().count(c) == 0);
    assert(ids(qp) =~= ids(q0).push(c));
    let q1 = select_from(qp, s.idle()).0;
    // The wait slot is still queued after selection, and it is the only one of `c`.
    let j: int = if has_ready(qp) { q0.len() - 1 } else { q0.len() as int };
    if has_ready(qp) {
        lemma_pick_exists(qp);
        let i = pick_index(qp);
        assert(i != q0.len());
        assert(ids(q1) =~= ids(qp).remove(i));
        assert(ids(qp)[i] == q0[i].id);
        assert(ids(q0)[i] == q0[i].id);
        assert(ids(q0).to_multiset().count(q0[i].id) > 0);
        assert(q0[i].id != c);
        assert(q1[j] == w);
    } else {
        assert(q1[j] == w);
    }
    assert(ids(q1).to_multiset().count(c) == 1);
    let q2 = release_queue(q1, k);
    lemma_release_keeps_tasks(q1, k);
    let a = q1.filter(stays(k));
    let g = q1.filter(goes(k));
    q1.filter_lemma(goes(k));
    q1.filter_lemma(stays(k));
    assert(goes(k)(q1[j]));
    assert(g.contains(w));
    let m = choose|m: int| 0 <= m < g.len() && g[m] == w;
    assert(q2[a.len() + m] == as_ready(w));
    assert forall|i: int| 0 <= i < q2.len() implies q2[i].state != SlotState::Wait(r) by {
        if i < a.len() {
            assert(stays(k)(a[i]));
        } else {
            assert(q2[i] == as_ready(g[i - a.len()]));
        }
    }
}

/// Selection within one band is first in, first out: when every queued slot
/// is ready and in the band of the yielding task's slot `c`, the head runs
/// next and `c` goes to the tail.
pub proof fn lemma_fifo_step(q: Seq<Slot>, c: Slot, idle: u64)
    requires
        q.len() > 0,
        c.state == SlotState::Ready,
        forall|i: int| 0 <= i < q.len() ==> #[trigger] q[i] .state == SlotState::Ready && q[i].band == c.band,
    ensures
        select_from(q.push(c), idle) == (q.drop_first().push(c), q[0].id),
{
    let qc = q.push(c);
    assert(is_pick(qc, 0));
    assert(has_ready(qc)) by {
        assert(qc[0].state == SlotState::Ready);
    }
    lemma_pick_exists(qc);
    lemma_pick_unique(qc, 0, pick_index(qc));
    assert(qc.remove(0) =~= q.drop_first().push(c));
}

/// The ids that run over `k` yields in a row, starting from queue `q` with
/// the yielding task's slot `c`.
pub open spec fn yields(q: Seq<Slot>, c: Slot, idle: u64, k: nat) -> Seq<u64>
    decreases k,
{
    if k == 0 {
        Seq::empty()
    } else {
        let qc = q.push(c);
        let next = select_from(qc, idle);
        let c2 = if has_ready(qc) { qc[pick_index(qc)] } else { c };
        seq![next.1] + yields(next.0, c2, idle, (k - 1) as nat)
    }
}

/// With `n` ready tasks queued in the band of the yielding task and nobody
/// blocking, the next `k <= n` yields run the first `k` of them, in queue
/// order; over `n` yields each runs exactly once.
pub proof fn lemma_fifo_fairness(q: Seq<Slot>, c: Slot, idle: u64, k: nat)
    requires
        k <= q.len(),
        c.state == SlotState::Ready,
        forall|i: int| 0 <= i < q.len() ==> #[trigger] q[i].state == SlotState::Ready && q[i].band == c.band,
    ensures
        yields(q, c, idle, k) == ids(q).take(k as int),
    decreases k,
{
    if k == 0 {
        assert(ids(q).take(0) =~= Seq::<u64>::empty());
    } else {
        let qc = q.push(c);
        lemma_fifo_step(q, c, idle);
        assert(is_pick(qc, 0));
        assert(qc[0].state == SlotState::Ready);
        lemma_pick_exists(qc);
        lemma_pick_unique(qc, 0, pick_index(qc));
        let q2 = q.drop_first().push(c);
        assert forall|i: int| 0 <= i < q2.len() implies #[trigger] q2[i].state == SlotState::Ready
            && q2[i].band == q[0].band by {
            if i < q.len() - 1 {
                assert(q2[i] == q[i + 1]);
            }
        }
        lemma_fifo_fairness(q2, q[0], idle, (k - 1) as nat);
        assert(ids(q2).take(k - 1) =~= ids(q).subrange(1, k as int));
        assert(ids(q).take(k as int) =~= seq![q[0].id] + ids(q).subrange(1, k as int));
    }
}

/// On a yield by a non-idle task whose band holds every queued slot, all
/// ready, the head of the queue runs next and the yielding task goes to the
/// tail; the head's own yield slot is its queued slot, so `yields` follows
/// repeated calls of `schedule`.
pub proof fn lemma_schedule_is_fifo(s: Scheduler)
    requires
        s.wf(),
        s.current() != s.idle(),
        s.queue().len() > 0,
        forall|i: int| 0 <= i < s.queue().len() ==> #[trigger] s.queue()[i].state == SlotState::Ready
            && s.queue()[i].band == s.task(s.current()).band,
    ensures
        yield_slot(s) == Some(Slot { id: s.current(), band: s.task(s.current()).band, state: SlotState::Ready }),
        select_from(put_back(s.queue(), yield_slot(s)), s.idle()) == (
            s.queue().drop_first().push(Slot { id: s.current(), band: s.task(s.current()).band, state: SlotState::Ready }),
            s.queue()[0].id,
        ),
        s.queue()[0] == (Slot { id: s.queue()[0].id, band: s.task(s.queue()[0].id).band, state: SlotState::Ready }),
{
    let c = Slot { id: s.current(), band: s.task(s.current()).band, state: SlotState::Ready };
    lemma_fifo_step(s.queue(), c, s.idle());
    assert(s.queue()[0].state == SlotState::Ready);
}

/// Greedy accounting never moves a task to a more urgent band, and moves it
/// at most one band down, only when its count reaches the threshold.
pub proof fn lemma_demotion_step(t: Task, c: SchedConfig)
    requires
        t.band < N_BANDS,
    ensures
        t.band <= after_greedy(t, c).band <= t.band + 1,
        after_greedy(t, c).band < N_BANDS,
        after_greedy(t, c).band != t.band ==> after_greedy(t, c).greedy_count == 0,
        t.greedy_count + 1 < c.greedy_threshold ==> after_greedy(t, c).band == t.band
            && after_greedy(t, c).greedy_count == t.greedy_count + 1,
{
}

/// A task asleep until a tick not after `now` is ready once the tick
/// counter reaches `now`: a tick lets every such sleeper go, to the tail of
/// the queue, and leaves none of them asleep.
pub proof fn lemma_past_deadline_wakes(q: Seq<Slot>, i: int, now: u64)
    requires
        0 <= i < q.len(),
        q[i].state matches SlotState::Sleep(d) && d <= now,
    ensures
        ({
            let q2 = release_queue(q, Release::Deadline(now));
            &&& exists|j: int| 0 <= j < q2.len() && q2[j] == as_ready(q[i])
            &&& forall|j: int| 0 <= j < q2.len() ==> !released(#[trigger] q2[j], Release::Deadline(now))
        }),
{
    let k = Release::Deadline(now);
    let q2 = release_queue(q, k);
    let a = q.filter(stays(k));
    let g = q.filter(goes(k));
    q.filter_lemma(goes(k));
    q.filter_lemma(stays(k));
    assert(goes(k)(q[i]));
    assert(g.contains(q[i]));
    let m = choose|m: int| 0 <= m < g.len() && g[m] == q[i];
    assert(q2[a.len() + m] == as_ready(q[i]));
    assert forall|j: int| 0 <= j < q2.len() implies !released(#[trigger] q2[j], k) by {
        if j < a.len() {
            assert(stays(k)(a[j]));
        } else {
            assert(q2[j] == as_ready(g[j - a.len()]));
        }
    }
}

} // verus!
