//! Multilevel-feedback scheduler: the decisions taken on yield, block, wake,
//! sleep, exit, timer tick and the first floating-point use of a task.
//!
//! Every task that is neither running nor the idle task stands in one run
//! queue of slots, each tagged with its band and what it waits for. The ready
//! list of a band, the wait list, the sleep list and the die list are the
//! slots of that tag, in queue order.
use vstd::prelude::*;
use vstd::multiset::Multiset;
use crate::manager::{
    TaskError, TaskManager, TASKPOOL_SIZE, after_free, has_id, ids_unique, pos, links_ok,
    lemma_after_free, lemma_same_ids_links, unlink_from,
};
use crate::task::{Context, FpuContext, N_BANDS, Task, TaskFlags, band_of, empty_context};

verus! {

broadcast use vstd::multiset::group_multiset_axioms, vstd::seq_lib::group_to_multiset_ensures;

/// What a queued task waits for.
#[derive(Clone, Copy, Debug, PartialEq, Eq, Structural)]
pub enum SlotState {
    /// Runnable.
    Ready,
    /// Blocked until `wake` with this reason.
    Wait(u64),
    /// Blocked until the tick counter reaches this deadline.
    Sleep(u64),
    /// Ended, waiting to be reaped.
    Dead,
}

/// One queued task.
#[derive(Clone, Copy, Debug, PartialEq, Eq, Structural)]
pub struct Slot {
    pub id: u64,
    pub band: u8,
    pub state: SlotState,
}

/// A context switch to perform: save the registers of `from`, load those of `to`.
#[derive(Clone, Copy, Debug, PartialEq, Eq, Structural)]
pub struct Switch {
    pub from: u64,
    pub to: u64,
}

/// Scheduling policy: the quantum of each band, in ticks, and how many full
/// quanta in a row demote a task.
#[derive(Clone, Copy, Debug)]
pub struct SchedConfig {
    pub quanta: [u32; 3],
    pub greedy_threshold: u32,
}

impl SchedConfig {
    /// Every quantum and the threshold are positive.
    pub open spec fn valid(&self) -> bool {
        &&& forall|b: int| 0 <= b < N_BANDS ==> #[trigger] self.quanta@[b] > 0
        &&& self.greedy_threshold > 0
    }

    /// The quantum of band `b`.
    pub open spec fn quantum(&self, b: u8) -> i64 {
        self.quanta@[b as int] as i64
    }
}

/// Ids of the slots of `q`, in order.
pub open spec fn ids(q: Seq<Slot>) -> Seq<u64> {
    q.map_values(|s: Slot| s.id)
}

/// Some slot of `q` is ready.
pub open spec fn has_ready(q: Seq<Slot>) -> bool {
    exists|j: int| 0 <= j < q.len() && (#[trigger] q[j]).state == SlotState::Ready
}

/// The slot at `i` is the one selection takes: ready, of the most urgent band
/// holding a ready slot, and the first of that band.
pub open spec fn is_pick(q: Seq<Slot>, i: int) -> bool {
    &&& 0 <= i < q.len()
    &&& q[i].state == SlotState::Ready
    &&& forall|j: int|
        0 <= j < q.len() && (#[trigger] q[j]).state == SlotState::Ready ==> q[i].band <= q[j].band
            && (j < i ==> q[i].band < q[j].band)
}

/// The slot selection takes.
pub open spec fn pick_index(q: Seq<Slot>) -> int {
    choose|i: int| is_pick(q, i)
}

/// The queue and the running task after selection over `q`: the picked slot
/// leaves the queue and runs; with no ready slot the idle task runs.
pub open spec fn select_from(q: Seq<Slot>, idle: u64) -> (Seq<Slot>, u64) {
    if has_ready(q) {
        (q.remove(pick_index(q)), q[pick_index(q)].id)
    } else {
        (q, idle)
    }
}

/// The running task, and the idle task when it is not running.
pub open spec fn running(current: u64, idle: u64) -> Multiset<u64> {
    if current == idle {
        Multiset::singleton(current)
    } else {
        Multiset::singleton(current).insert(idle)
    }
}

/// The single-CPU scheduler with its task pool.
pub struct Scheduler {
    manager: TaskManager,
    queue: Vec<Slot>,
    current: u64,
    idle: u64,
    fpu_owner: Option<u64>,
    ticks: u64,
    config: SchedConfig,
}

impl Scheduler {
    pub closed spec fn manager(&self) -> TaskManager {
        self.manager
    }

    pub closed spec fn queue(&self) -> Seq<Slot> {
        self.queue@
    }

    pub closed spec fn current(&self) -> u64 {
        self.current
    }

    pub closed spec fn idle(&self) -> u64 {
        self.idle
    }

    pub closed spec fn fpu_owner(&self) -> Option<u64> {
        self.fpu_owner
    }

    pub closed spec fn ticks(&self) -> u64 {
        self.ticks
    }

    pub closed spec fn config(&self) -> SchedConfig {
        self.config
    }

    /// The live tasks.
    pub open spec fn tasks(&self) -> Seq<Task> {
        self.manager().tasks()
    }

    /// The live task with id `id`.
    pub open spec fn task(&self, id: u64) -> Task {
        self.tasks()[pos(self.tasks(), id)]
    }

    /// Every task the scheduler accounts for: queued, running or idle.
    pub open spec fn members(&self) -> Multiset<u64> {
        ids(self.queue()).to_multiset().add(running(self.current(), self.idle()))
    }

    /// Well-formedness of the scheduler.
    pub open spec fn wf(&self) -> bool {
        &&& self.manager().wf()
        &&& self.config().valid()
        &&& forall|x: u64| #[trigger] self.members().count(x) <= 1
        &&& self.members().len() == self.manager().use_count()
        &&& forall|x: u64| #[trigger] self.members().count(x) > 0 ==> has_id(self.tasks(), x)
        &&& forall|i: int| 0 <= i < self.tasks().len() ==> #[trigger] self.tasks()[i].band < N_BANDS
        &&& forall|i: int| 0 <= i < self.queue().len() ==> #[trigger] self.queue()[i].band < N_BANDS
        &&& forall|i: int| 0 <= i < self.queue().len() ==> self.task((#[trigger] self.queue()[i]).id).band == self.queue()[i].band
        &&& self.fpu_owner() matches Some(o) ==> has_id(self.tasks(), o) && self.task(o).fpu_used_once
    }
}

/// `t` with its quantum reset to that of its band.
pub open spec fn with_quantum(t: Task, c: SchedConfig) -> Task {
    Task { remaining_quantum: c.quantum(t.band), ..t }
}

/// The live tasks `s` after the task `id` gets the record `t` and then the
/// task `next`, which runs next, gets the quantum of its band.
pub open spec fn dispatched(s: Seq<Task>, id: u64, t: Task, next: u64, c: SchedConfig) -> Seq<Task> {
    let mid = s.update(pos(s, id), t);
    mid.update(pos(mid, next), with_quantum(mid[pos(mid, next)], c))
}

/// The queue before selection: the outgoing task's slot, if any, at the tail.
pub open spec fn put_back(q: Seq<Slot>, put: Option<Slot>) -> Seq<Slot> {
    match put {
        Some(s) => q.push(s),
        None => q,
    }
}

/// The slot the running task takes on a yield: none for the idle task.
pub open spec fn yield_slot(s: Scheduler) -> Option<Slot> {
    if s.current() == s.idle() {
        None
    } else {
        Some(Slot { id: s.current(), band: s.task(s.current()).band, state: SlotState::Ready })
    }
}

/// Replacing a task by one with the same id moves no id.
pub proof fn lemma_pos_update(s: Seq<Task>, x: u64, p: int, t: Task)
    requires
        ids_unique(s),
        has_id(s, x),
        0 <= p < s.len(),
        t.id == s[p].id,
    ensures
        has_id(s.update(p, t), x),
        pos(s.update(p, t), x) == pos(s, x),
        ids_unique(s.update(p, t)),
{
    let u = s.update(p, t);
    let k = pos(s, x);
    assert(s[k].id == x);
    assert(u[k].id == x);
    assert(ids_unique(u)) by {
        assert forall|a: int, b: int| 0 <= a < u.len() && 0 <= b < u.len() && a != b implies
            #[trigger] u[a].id != #[trigger] u[b].id by {
            assert(u[a].id == s[a].id);
            assert(u[b].id == s[b].id);
        }
    }
    let j = pos(u, x);
    assert(u[j].id == x);
}

/// Which waiting slots a release lets go.
#[derive(Clone, Copy, Debug, PartialEq, Eq, Structural)]
pub enum Release {
    /// Tasks blocked with this reason.
    Reason(u64),
    /// Tasks sleeping until this tick or earlier.
    Deadline(u64),
    /// The task with this id, when it is blocked or sleeping.
    Task(u64),
}

/// The slot `s` is let go by `k`.
pub open spec fn released(s: Slot, k: Release) -> bool {
    match (s.state, k) {
        (SlotState::Wait(r), Release::Reason(x)) => r == x,
        (SlotState::Sleep(d), Release::Deadline(now)) => d <= now,
        (SlotState::Wait(_), Release::Task(id)) => s.id == id,
        (SlotState::Sleep(_), Release::Task(id)) => s.id == id,
        _ => false,
    }
}

/// The slots that stay put under `k`.
pub open spec fn stays(k: Release) -> spec_fn(Slot) -> bool {
    |s: Slot| !released(s, k)
}

/// The slots that `k` lets go.
pub open spec fn goes(k: Release) -> spec_fn(Slot) -> bool {
    |s: Slot| released(s, k)
}

/// `s` made ready in its band.
pub open spec fn as_ready(s: Slot) -> Slot {
    Slot { state: SlotState::Ready, ..s }
}

/// The queue after `k`: the slots let go move, in queue order, to the tail,
/// made ready.
pub open spec fn release_queue(q: Seq<Slot>, k: Release) -> Seq<Slot> {
    q.filter(stays(k)) + q.filter(goes(k)).map_values(|s: Slot| as_ready(s))
}

/// `t` charged one timer tick.
pub open spec fn charged(t: Task) -> Task {
    Task {
        remaining_quantum: if t.remaining_quantum > i64::MIN {
            (t.remaining_quantum - 1) as i64
        } else {
            t.remaining_quantum
        },
        ..t
    }
}

/// `t` after it used up a full quantum without yielding: its greedy count
/// goes up, and on reaching the threshold it moves one band down, if there
/// is one, with the count cleared.
pub open spec fn after_greedy(t: Task, c: SchedConfig) -> Task {
    let g = if t.greedy_count < u32::MAX { (t.greedy_count + 1) as u32 } else { t.greedy_count };
    if g >= c.greedy_threshold {
        Task {
            band: if t.band + 1 < N_BANDS { (t.band + 1) as u8 } else { t.band },
            greedy_count: 0,
            ..t
        }
    } else {
        Task { greedy_count: g, ..t }
    }
}

/// What the FPU trap handler does with the registers.
#[derive(Clone, Copy, Debug, PartialEq, Eq, Structural)]
pub struct FpuAction {
    /// The task whose context receives the live FPU registers, when it is not the running one.
    pub save_to: Option<u64>,
    /// Load the running task's saved state (else reset the FPU).
    pub restore: bool,
}

/// A queued task is neither running nor the idle task.
pub proof fn lemma_queued_not_running(s: Scheduler, i: int)
    requires
        s.wf(),
        0 <= i < s.queue().len(),
    ensures
        s.queue()[i].id != s.current(),
        s.queue()[i].id != s.idle(),
        has_id(s.tasks(), s.queue()[i].id),
{
    let x = s.queue()[i].id;
    assert(ids(s.queue())[i] == x);
    assert(ids(s.queue()).to_multiset().count(x) > 0);
    assert(running(s.current(), s.idle()).count(s.current()) > 0);
    assert(running(s.current(), s.idle()).count(s.idle()) > 0);
    assert(s.members().count(x) > 0);
}

/// Selection picks at most one slot.
pub proof fn lemma_pick_unique(q: Seq<Slot>, a: int, b: int)
    requires
        is_pick(q, a),
        is_pick(q, b),
    ensures
        a == b,
{
    if a < b {
        assert(q[b].band < q[a].band);
    } else if b < a {
        assert(q[a].band < q[b].band);
    }
}

/// Some slot is picked whenever some slot is ready.
pub proof fn lemma_pick_exists(q: Seq<Slot>)
    requires
        has_ready(q),
    ensures
        is_pick(q, pick_index(q)),
    decreases q.len(),
{
    let p = q.drop_last();
    let x = q.last();
    assert(forall|j: int| 0 <= j < p.len() ==> #[trigger] p[j] == q[j]);
    if has_ready(p) {
        lemma_pick_exists(p);
        let i = pick_index(p);
        if x.state == SlotState::Ready && x.band < p[i].band {
            assert forall|j: int| 0 <= j < q.len() && (#[trigger] q[j]).state == SlotState::Ready implies
                x.band <= q[j].band && (j < q.len() - 1 ==> x.band < q[j].band) by {
                if j < q.len() - 1 {
                    assert(p[j] == q[j]);
                    assert(p[i].band <= p[j].band);
                }
            }
            assert(is_pick(q, q.len() - 1));
        } else {
            assert forall|j: int| 0 <= j < q.len() && (#[trigger] q[j]).state == SlotState::Ready implies
                q[i].band <= q[j].band && (j < i ==> q[i].band < q[j].band) by {
                if j < q.len() - 1 {
                    assert(p[j] == q[j]);
                }
            }
            assert(is_pick(q, i));
        }
    } else {
        assert forall|j: int| 0 <= j < q.len() && (#[trigger] q[j]).state == SlotState::Ready implies
            x.band <= q[j].band && (j < q.len() - 1 ==> x.band < q[j].band) by {
            if j < q.len() - 1 {
                assert(p[j] == q[j]);
                assert(!has_ready(p));
                assert(p[j].state != SlotState::Ready);
            }
        }
        let w = choose|w: int| 0 <= w < q.len() && (#[trigger] q[w]).state == SlotState::Ready;
        if w < q.len() - 1 {
            assert(p[w] == q[w]);
            assert(!has_ready(p));
        }
        assert(is_pick(q, q.len() - 1));
    }
}

proof fn lemma_ids_push(q: Seq<Slot>, s: Slot)
    ensures
        ids(q.push(s)).to_multiset() == ids(q).to_multiset().insert(s.id),
{
    assert(ids(q.push(s)) =~= ids(q).push(s.id));
}

proof fn lemma_ids_remove(q: Seq<Slot>, i: int)
    requires
        0 <= i < q.len(),
    ensures
        ids(q.remove(i)).to_multiset() == ids(q).to_multiset().remove(q[i].id),
        ids(q).to_multiset().count(q[i].id) > 0,
{
    assert(ids(q.remove(i)) =~= ids(q).remove(i));
    assert(ids(q)[i] == q[i].id);
}

impl Scheduler {
    /// A scheduler whose only task is the idle task, id 0, running.
    pub fn new(config: SchedConfig) -> (s: Scheduler)
        requires
            config.valid(),
        ensures
            s.wf(),
            s.current() == 0,
            s.idle() == 0,
            s.queue() == Seq::<Slot>::empty(),
            s.tasks().len() == 1,
            s.task(0).flags.idle,
            s.fpu_owner() is None,
            s.ticks() == 0,
            s.config() == config,
    {
        let mut manager = TaskManager::new();
        let id = manager.allocate().unwrap();
        let mut t = Task::blank(id);
        t.flags = TaskFlags::new().set_priority(255).idle();
        t.band = 2;
        t.remaining_quantum = config.quanta[2] as i64;
        manager.update(0, t);
        let s = Scheduler {
            manager,
            queue: Vec::new(),
            current: id,
            idle: id,
            fpu_owner: None,
            ticks: 0,
            config,
        };
        proof {
            assert(ids(s.queue@) =~= Seq::<u64>::empty());
            assert(s.members() =~= Multiset::singleton(0u64));
            assert(s.tasks()[0].id == 0);
            assert(has_id(s.tasks(), 0));
            assert(pos(s.tasks(), 0) == 0);
        }
        s
    }

    /// The slot selection takes, if any slot is ready.
    fn select(&self) -> (r: Option<usize>)
        ensures
            r is None <==> !has_ready(self.queue()),
            r matches Some(i) ==> is_pick(self.queue(), i as int),
    {
        let mut best: Option<usize> = None;
        let mut i: usize = 0;
        while i < self.queue.len()
            invariant
                i <= self.queue@.len(),
                best is None ==> forall|j: int| 0 <= j < i ==> (#[trigger] self.queue@[j]).state != SlotState::Ready,
                best matches Some(b) ==> {
                    &&& b < i
                    &&& self.queue@[b as int].state == SlotState::Ready
                    &&& forall|j: int| 0 <= j < i && (#[trigger] self.queue@[j]).state == SlotState::Ready
                        ==> self.queue@[b as int].band <= self.queue@[j].band
                        && (j < b ==> self.queue@[b as int].band < self.queue@[j].band)
                },
            decreases self.queue@.len() - i,
        {
            let s = self.queue[i];
            if s.state == SlotState::Ready {
                match best {
                    None => {
                        best = Some(i);
                    },
                    Some(b) => {
                        if s.band < self.queue[b].band {
                            best = Some(i);
                        }
                    },
                }
            }
            i = i + 1;
        }
        proof {
            if let Some(b) = best {
                assert(has_ready(self.queue@)) by {
                    assert(self.queue@[b as int].state == SlotState::Ready);
                }
            }
        }
        best
    }
}


impl Scheduler {
    /// Replaces the live task `id` by `t`, which keeps its id and its links.
    fn set_task(&mut self, id: u64, t: Task)
        requires
            old(self).wf(),
            has_id(old(self).tasks(), id),
            t.id == id,
            links_ok(old(self).tasks(), t),
            t.band < N_BANDS,
            t.band == old(self).task(id).band || id == old(self).current(),
            old(self).fpu_owner() == Some(id) ==> t.fpu_used_once,
        ensures
            final(self).wf(),
            final(self).tasks() == old(self).tasks().update(pos(old(self).tasks(), id), t),
            final(self).queue() == old(self).queue(),
            final(self).current() == old(self).current(),
            final(self).idle() == old(self).idle(),
            final(self).fpu_owner() == old(self).fpu_owner(),
            final(self).ticks() == old(self).ticks(),
            final(self).config() == old(self).config(),
            final(self).manager().use_count() == old(self).manager().use_count(),
            final(self).manager().alloc_count() == old(self).manager().alloc_count(),
    {
        let ghost s0 = *self;
        let i = self.manager.find(id).unwrap();
        let ghost before = self.manager.tasks();
        self.manager.update(i, t);
        proof {
            let after = self.manager.tasks();
            lemma_same_ids_links(before, after);
            assert forall|k: int| 0 <= k < self.queue@.len() implies
                self.task((#[trigger] self.queue@[k]).id).band == self.queue@[k].band by {
                let x = self.queue@[k].id;
                lemma_queued_not_running(s0, k);
                lemma_pos_update(before, x, i as int, t);
                assert(s0.task(x).band == self.queue@[k].band);
            }
            assert forall|k: int| 0 <= k < after.len() implies #[trigger] after[k].band < N_BANDS by {
                if k != i {
                    assert(before[k].band < N_BANDS);
                }
            }
            if let Some(o) = self.fpu_owner {
                let k = pos(before, o);
                assert(before[k].id == o);
                assert(after[k].id == o);
                let p = pos(after, o);
                assert(after[p].id == o);
                assert(p == k);
            }
        }
    }

    /// Takes the next task to run from the queue, after `put` (the outgoing
    /// task's slot) is queued; with no ready slot the idle task runs. The
    /// task that runs gets the quantum of its band.
    fn switch_next(&mut self, put: Option<Slot>) -> (r: Switch)
        requires
            old(self).wf(),
            put matches Some(s) ==> s.id == old(self).current() && old(self).current() != old(self).idle()
                && s.band < N_BANDS && s.band == old(self).task(s.id).band,
            put is None ==> old(self).current() == old(self).idle(),
        ensures
            final(self).wf(),
            (final(self).queue(), final(self).current())
                == select_from(put_back(old(self).queue(), put), old(self).idle()),
            final(self).tasks() == old(self).tasks().update(
                pos(old(self).tasks(), final(self).current()),
                with_quantum(old(self).task(final(self).current()), old(self).config()),
            ),
            r == (Switch { from: old(self).current(), to: final(self).current() }),
            has_id(old(self).tasks(), final(self).current()),
            final(self).idle() == old(self).idle(),
            final(self).fpu_owner() == old(self).fpu_owner(),
            final(self).ticks() == old(self).ticks(),
            final(self).config() == old(self).config(),
            final(self).manager().use_count() == old(self).manager().use_count(),
            final(self).manager().alloc_count() == old(self).manager().alloc_count(),
    {
        let from = self.current;
        let ghost q0 = self.queue@;
        let ghost m0 = self.members();
        if let Some(s) = put {
            self.queue.push(s);
            proof {
                lemma_ids_push(q0, s);
            }
        }
        let ghost q1 = self.queue@;
        assert(q1 == put_back(q0, put));
        let ghost run0 = running(from, self.idle);
        // Ids of `q1` with the running task, unless it was queued.
        let ghost base = ids(q1).to_multiset().add(if put is None { run0 } else { Multiset::singleton(self.idle) });
        assert(base =~= m0);
        match self.select() {
            Some(i) => {
                let s = self.queue.remove(i);
                self.current = s.id;
                proof {
                    lemma_ids_remove(q1, i as int);
                    lemma_pick_unique(q1, i as int, pick_index(q1));
                    assert(s.id != self.idle) by {
                        assert(ids(q1).to_multiset().count(s.id) > 0);
                        assert(base.count(self.idle) >= 1);
                    }
                    assert(self.members() =~= m0);
                }
            },
            None => {
                self.current = self.idle;
                proof {
                    assert(self.members() =~= m0);
                }
            },
        }
        proof {
            assert(forall|k: int| 0 <= k < self.queue@.len() ==> #[trigger] self.queue@[k].band < N_BANDS) by {
                assert forall|k: int| 0 <= k < self.queue@.len() implies #[trigger] self.queue@[k].band < N_BANDS by {
                    if put is Some {
                        assert(q1[k].band < N_BANDS || k == q0.len());
                    }
                }
            }
            assert(self.members().count(self.current) > 0);
        }
        let cur = self.current;
        let mut t = *self.manager.get(cur).unwrap();
        t.remaining_quantum = self.config.quanta[t.band as usize] as i64;
        self.set_task(cur, t);
        Switch { from, to: cur }
    }

    /// Voluntary yield: the running task goes to the tail of its band's ready
    /// list (the idle task keeps its own slot) and selection runs. With no
    /// other task ready the running task keeps running with a fresh quantum
    /// and nothing else changed.
    pub fn schedule(&mut self) -> (r: Switch)
        requires
            old(self).wf(),
        ensures
            final(self).wf(),
            (final(self).queue(), final(self).current()) == select_from(
                put_back(old(self).queue(), yield_slot(*old(self))),
                old(self).idle(),
            ),
            final(self).tasks() == old(self).tasks().update(
                pos(old(self).tasks(), final(self).current()),
                with_quantum(old(self).task(final(self).current()), old(self).config()),
            ),
            r == (Switch { from: old(self).current(), to: final(self).current() }),
            !has_ready(old(self).queue()) ==> {
                &&& final(self).current() == old(self).current()
                &&& final(self).queue() == old(self).queue()
                &&& final(self).task(final(self).current()) == with_quantum(
                    old(self).task(old(self).current()), old(self).config())
            },
            final(self).idle() == old(self).idle(),
            final(self).fpu_owner() == old(self).fpu_owner(),
            final(self).ticks() == old(self).ticks(),
            final(self).config() == old(self).config(),
            final(self).manager().use_count() == old(self).manager().use_count(),
            final(self).manager().alloc_count() == old(self).manager().alloc_count(),
    {
        proof {
            assert(running(self.current, self.idle).count(self.current) > 0);
            assert(self.members().count(self.current) > 0);
        }
        let put = if self.current == self.idle {
            None
        } else {
            let t = self.manager.get(self.current).unwrap();
            Some(Slot { id: self.current, band: t.band, state: SlotState::Ready })
        };
        let ghost q0 = self.queue@;
        let ghost old_tasks = self.tasks();
        let r = self.switch_next(put);
        proof {
            if !has_ready(q0) {
                if let Some(s) = put {
                    let q1 = q0.push(s);
                    assert(is_pick(q1, q0.len() as int));
                    lemma_pick_unique(q1, q0.len() as int, pick_index(q1));
                    assert(q1.remove(q0.len() as int) =~= q0);
                }
                lemma_pos_update(old_tasks, self.current, pos(old_tasks, self.current),
                    with_quantum(old_tasks[pos(old_tasks, self.current)], self.config));
            }
        }
        r
    }
}


impl Scheduler {
    /// Takes the running task, which is not the idle task, off the CPU into
    /// `state`, with `t` as its new record, and runs selection.
    fn suspend(&mut self, state: SlotState, t: Task) -> (r: Switch)
        requires
            old(self).wf(),
            old(self).current() != old(self).idle(),
            t.id == old(self).current(),
            links_ok(old(self).tasks(), t),
            t.band < N_BANDS,
            old(self).fpu_owner() == Some(old(self).current()) ==> t.fpu_used_once,
            state != SlotState::Ready,
        ensures
            final(self).wf(),
            (final(self).queue(), final(self).current()) == select_from(
                old(self).queue().push(Slot { id: old(self).current(), band: t.band, state }),
                old(self).idle(),
            ),
            final(self).task(old(self).current()) == t,
            final(self).tasks() == dispatched(old(self).tasks(), old(self).current(), t,
                final(self).current(), old(self).config()),
            r == (Switch { from: old(self).current(), to: final(self).current() }),
            final(self).idle() == old(self).idle(),
            final(self).fpu_owner() == old(self).fpu_owner(),
            final(self).ticks() == old(self).ticks(),
            final(self).config() == old(self).config(),
            final(self).manager().use_count() == old(self).manager().use_count(),
            final(self).manager().alloc_count() == old(self).manager().alloc_count(),
    {
        proof {
            assert(running(self.current, self.idle).count(self.current) > 0);
            assert(self.members().count(self.current) > 0);
        }
        let cur = self.current;
        let ghost t0 = self.tasks();
        self.set_task(cur, t);
        let ghost t1 = self.tasks();
        let ghost q0 = self.queue@;
        proof {
            lemma_pos_update(t0, cur, pos(t0, cur), t);
        }
        let r = self.switch_next(Some(Slot { id: cur, band: t.band, state }));
        proof {
            let w = Slot { id: cur, band: t.band, state };
            let qp = q0.push(w);
            let n = q0.len() as int;
            // The suspended task's slot stays queued, so another task runs.
            let j: int = if has_ready(qp) { n - 1 } else { n };
            if has_ready(qp) {
                let i = pick_index(qp);
                lemma_pick_exists(qp);
                assert(i != n);
            }
            assert(self.queue@[j] == w);
            assert(ids(self.queue@)[j] == cur);
            assert(ids(self.queue@).to_multiset().count(cur) > 0);
            assert(running(self.current, self.idle).count(self.current) > 0);
            assert(self.current != cur) by {
                if self.current == cur {
                    assert(self.members().count(cur) >= 2);
                }
            }
            let nw = self.current;
            let pn = pos(t1, nw);
            assert(t1[pn].id == nw);
            lemma_pos_update(t1, cur, pn, with_quantum(t1[pn], self.config));
        }
        r
    }

    /// The running task blocks until `wake(reason)`; its greedy count is
    /// cleared. The idle task never blocks.
    pub fn block(&mut self, reason: u64) -> (r: Switch)
        requires
            old(self).wf(),
            old(self).current() != old(self).idle(),
        ensures
            final(self).wf(),
            (final(self).queue(), final(self).current()) == select_from(
                old(self).queue().push(Slot {
                    id: old(self).current(),
                    band: old(self).task(old(self).current()).band,
                    state: SlotState::Wait(reason),
                }),
                old(self).idle(),
            ),
            final(self).tasks() == dispatched(old(self).tasks(), old(self).current(),
                Task { greedy_count: 0, ..old(self).task(old(self).current()) }, final(self).current(), old(self).config()),
            final(self).fpu_owner() == old(self).fpu_owner(),
            final(self).config() == old(self).config(),
            final(self).task(old(self).current()) == (Task { greedy_count: 0, ..old(self).task(old(self).current()) }),
            r == (Switch { from: old(self).current(), to: final(self).current() }),
            final(self).manager().use_count() == old(self).manager().use_count(),
            final(self).manager().alloc_count() == old(self).manager().alloc_count(),
            final(self).idle() == old(self).idle(),
            final(self).ticks() == old(self).ticks(),
    {
        let t = self.current_record();
        self.suspend(SlotState::Wait(reason), Task { greedy_count: 0, ..t })
    }

    /// The running task sleeps until the tick counter reaches `deadline`; its
    /// greedy count is cleared. The idle task never sleeps.
    pub fn sleep_until(&mut self, deadline: u64) -> (r: Switch)
        requires
            old(self).wf(),
            old(self).current() != old(self).idle(),
        ensures
            final(self).wf(),
            (final(self).queue(), final(self).current()) == select_from(
                old(self).queue().push(Slot {
                    id: old(self).current(),
                    band: old(self).task(old(self).current()).band,
                    state: SlotState::Sleep(deadline),
                }),
                old(self).idle(),
            ),
            final(self).tasks() == dispatched(old(self).tasks(), old(self).current(),
                Task { greedy_count: 0, ..old(self).task(old(self).current()) }, final(self).current(), old(self).config()),
            final(self).fpu_owner() == old(self).fpu_owner(),
            final(self).config() == old(self).config(),
            final(self).task(old(self).current()) == (Task { greedy_count: 0, ..old(self).task(old(self).current()) }),
            r == (Switch { from: old(self).current(), to: final(self).current() }),
            final(self).manager().use_count() == old(self).manager().use_count(),
            final(self).manager().alloc_count() == old(self).manager().alloc_count(),
            final(self).idle() == old(self).idle(),
            final(self).ticks() == old(self).ticks(),
    {
        let t = self.current_record();
        self.suspend(SlotState::Sleep(deadline), Task { greedy_count: 0, ..t })
    }

    /// The running task ends: it is marked ended and waits on the die list to
    /// be reaped. The idle task never ends.
    pub fn exit(&mut self) -> (r: Switch)
        requires
            old(self).wf(),
            old(self).current() != old(self).idle(),
        ensures
            final(self).wf(),
            (final(self).queue(), final(self).current()) == select_from(
                old(self).queue().push(Slot {
                    id: old(self).current(),
                    band: old(self).task(old(self).current()).band,
                    state: SlotState::Dead,
                }),
                old(self).idle(),
            ),
            final(self).tasks() == dispatched(old(self).tasks(), old(self).current(),
                Task {
                    flags: TaskFlags { ended: true, ..old(self).task(old(self).current()).flags },
                    ..old(self).task(old(self).current())
                }, final(self).current(), old(self).config()),
            final(self).fpu_owner() == old(self).fpu_owner(),
            final(self).config() == old(self).config(),
            final(self).task(old(self).current()) == (Task {
                flags: TaskFlags { ended: true, ..old(self).task(old(self).current()).flags },
                ..old(self).task(old(self).current())
            }),
            r == (Switch { from: old(self).current(), to: final(self).current() }),
            final(self).manager().use_count() == old(self).manager().use_count(),
            final(self).manager().alloc_count() == old(self).manager().alloc_count(),
            final(self).idle() == old(self).idle(),
            final(self).ticks() == old(self).ticks(),
    {
        let t = self.current_record();
        let flags = TaskFlags { ended: true, ..t.flags };
        self.suspend(SlotState::Dead, Task { flags, ..t })
    }

    /// The record of the running task.
    fn current_record(&self) -> (t: Task)
        requires
            self.wf(),
        ensures
            t == self.task(self.current()),
            has_id(self.tasks(), self.current()),
            t.id == self.current(),
            links_ok(self.tasks(), t),
            t.band < N_BANDS,
    {
        proof {
            assert(running(self.current, self.idle).count(self.current) > 0);
            assert(self.members().count(self.current) > 0);
        }
        let t = *self.manager.get(self.current).unwrap();
        proof {
            let p = pos(self.tasks(), self.current);
            assert(self.tasks()[p].id == self.current);
            assert(self.tasks()[p].band < N_BANDS);
        }
        t
    }

    /// Moves every slot that `k` lets go, in queue order, to the tail of the
    /// queue, made ready. Returns how many moved.
    fn release(&mut self, k: Release) -> (n: usize)
        requires
            old(self).wf(),
        ensures
            final(self).wf(),
            final(self).queue() == release_queue(old(self).queue(), k),
            n == old(self).queue().filter(goes(k)).len(),
            final(self).tasks() == old(self).tasks(),
            final(self).current() == old(self).current(),
            final(self).idle() == old(self).idle(),
            final(self).fpu_owner() == old(self).fpu_owner(),
            final(self).ticks() == old(self).ticks(),
            final(self).config() == old(self).config(),
            final(self).manager().use_count() == old(self).manager().use_count(),
            final(self).manager().alloc_count() == old(self).manager().alloc_count(),
    {
        let ghost q = self.queue@;
        let mut keep: Vec<Slot> = Vec::new();
        let mut moved: Vec<Slot> = Vec::new();
        let mut i: usize = 0;
        while i < self.queue.len()
            invariant
                q == self.queue@,
                i <= q.len(),
                keep@ == q.take(i as int).filter(stays(k)),
                moved@ == q.take(i as int).filter(goes(k)).map_values(|s: Slot| as_ready(s)),
                moved@.len() == q.take(i as int).filter(goes(k)).len(),
                ids(keep@).to_multiset().add(ids(moved@).to_multiset()) == ids(q.take(i as int)).to_multiset(),
                forall|j: int| 0 <= j < q.len() ==> #[trigger] q[j].band < N_BANDS,
                forall|j: int| 0 <= j < keep@.len() ==> #[trigger] keep@[j].band < N_BANDS,
                forall|j: int| 0 <= j < moved@.len() ==> #[trigger] moved@[j].band < N_BANDS,
                self.wf(),
                forall|j: int| 0 <= j < keep@.len() ==> self.task((#[trigger] keep@[j]).id).band == keep@[j].band,
                forall|j: int| 0 <= j < moved@.len() ==> self.task((#[trigger] moved@[j]).id).band == moved@[j].band,
            decreases q.len() - i,
        {
            let s = self.queue[i];
            proof {
                assert(q.take(i + 1) =~= q.take(i as int).push(s));
                lemma_ids_push(q.take(i as int), s);
            }
            let go = match (s.state, k) {
                (SlotState::Wait(r), Release::Reason(x)) => r == x,
                (SlotState::Sleep(d), Release::Deadline(now)) => d <= now,
                (SlotState::Wait(_), Release::Task(id)) => s.id == id,
                (SlotState::Sleep(_), Release::Task(id)) => s.id == id,
                _ => false,
            };
            proof {
                assert(go == released(s, k));
                q.take(i as int).lemma_filter_push(s, stays(k));
                q.take(i as int).lemma_filter_push(s, goes(k));
            }
            if go {
                let ghost m0 = moved@;
                moved.push(Slot { state: SlotState::Ready, ..s });
                proof {
                    assert(goes(k)(s));
                    assert(moved@ =~= q.take(i + 1).filter(goes(k)).map_values(|s: Slot| as_ready(s)));
                    lemma_ids_push(m0, as_ready(s));
                }
            } else {
                let ghost k0 = keep@;
                keep.push(s);
                proof {
                    assert(stays(k)(s));
                    lemma_ids_push(k0, s);
                }
            }
            i = i + 1;
        }
        proof {
            assert(q.take(i as int) =~= q);
        }
        let ghost kept = keep@;
        let ghost went = moved@;
        let n = moved.len();
        keep.append(&mut moved);
        self.queue = keep;
        proof {
            assert(ids(self.queue@) =~= ids(kept) + ids(went));
            vstd::seq_lib::lemma_multiset_commutative(ids(kept), ids(went));
            assert(ids(self.queue@).to_multiset() =~= ids(q).to_multiset());
            assert(self.members() =~= ids(q).to_multiset().add(running(self.current, self.idle)));
            assert forall|j: int| 0 <= j < self.queue@.len() implies #[trigger] self.queue@[j].band < N_BANDS by {
                if j < kept.len() {
                    assert(self.queue@[j] == kept[j]);
                } else {
                    assert(self.queue@[j] == went[j - kept.len()]);
                }
            }
            assert forall|j: int| 0 <= j < self.queue@.len() implies
                self.task((#[trigger] self.queue@[j]).id).band == self.queue@[j].band by {
                if j < kept.len() {
                    assert(self.queue@[j] == kept[j]);
                } else {
                    assert(self.queue@[j] == went[j - kept.len()]);
                }
            }
        }
        n
    }

    /// Lets go every task blocked with `reason`: each moves, in the order
    /// they blocked, to the tail of its band's ready list. Returns how many
    /// were woken. Wakes do not preempt.
    pub fn wake(&mut self, reason: u64) -> (n: usize)
        requires
            old(self).wf(),
        ensures
            final(self).wf(),
            final(self).queue() == release_queue(old(self).queue(), Release::Reason(reason)),
            n == old(self).queue().filter(goes(Release::Reason(reason))).len(),
            final(self).tasks() == old(self).tasks(),
            final(self).current() == old(self).current(),
            final(self).idle() == old(self).idle(),
            final(self).fpu_owner() == old(self).fpu_owner(),
            final(self).ticks() == old(self).ticks(),
            final(self).config() == old(self).config(),
            final(self).manager().use_count() == old(self).manager().use_count(),
            final(self).manager().alloc_count() == old(self).manager().alloc_count(),
    {
        self.release(Release::Reason(reason))
    }

    /// Lets go the task `id` if it is blocked or sleeping: it moves to the
    /// tail of its band's ready list. Returns how many moved: 0 for an id that
    /// is unknown, ready, running or dead.
    pub fn wake_task(&mut self, id: u64) -> (n: usize)
        requires
            old(self).wf(),
        ensures
            final(self).wf(),
            final(self).queue() == release_queue(old(self).queue(), Release::Task(id)),
            n == old(self).queue().filter(goes(Release::Task(id))).len(),
            final(self).tasks() == old(self).tasks(),
            final(self).current() == old(self).current(),
            final(self).idle() == old(self).idle(),
            final(self).fpu_owner() == old(self).fpu_owner(),
            final(self).ticks() == old(self).ticks(),
            final(self).config() == old(self).config(),
            final(self).manager().use_count() == old(self).manager().use_count(),
            final(self).manager().alloc_count() == old(self).manager().alloc_count(),
    {
        self.release(Release::Task(id))
    }
}


impl Scheduler {
    /// The slot the running task takes when it is preempted with record `t`:
    /// none for the idle task.
    pub open spec fn preempt_slot(&self, t: Task) -> Option<Slot> {
        if self.current() == self.idle() {
            None
        } else {
            Some(Slot { id: self.current(), band: t.band, state: SlotState::Ready })
        }
    }

    /// One timer tick: the tick counter goes up, sleepers whose deadline has
    /// come move to the ready lists, the running task is charged the tick,
    /// and when its quantum is used up and some other task is ready it is
    /// preempted (the idle task keeps its own slot; any other is requeued
    /// after greedy accounting) and selection runs.
    pub fn tick(&mut self) -> (r: Option<Switch>)
        requires
            old(self).wf(),
            old(self).ticks() < u64::MAX,
        ensures
            final(self).wf(),
            final(self).ticks() == old(self).ticks() + 1,
            ({
                let q1 = release_queue(old(self).queue(), Release::Deadline((old(self).ticks() + 1) as u64));
                let t1 = charged(old(self).task(old(self).current()));
                if t1.remaining_quantum <= 0 && has_ready(q1) {
                    &&& r == Some(Switch { from: old(self).current(), to: final(self).current() })
                    &&& (final(self).queue(), final(self).current()) == select_from(
                        put_back(q1, old(self).preempt_slot(after_greedy(t1, old(self).config()))),
                        old(self).idle(),
                    )
                    &&& final(self).tasks() == dispatched(
                        old(self).tasks(),
                        old(self).current(),
                        if old(self).current() == old(self).idle() { t1 } else { after_greedy(t1, old(self).config()) },
                        final(self).current(),
                        old(self).config(),
                    )
                } else {
                    &&& r is None
                    &&& final(self).queue() == q1
                    &&& final(self).current() == old(self).current()
                    &&& final(self).task(old(self).current()) == t1
                    &&& final(self).tasks() == old(self).tasks().update(pos(old(self).tasks(), old(self).current()), t1)
                }
            }),
            final(self).config() == old(self).config(),
            final(self).idle() == old(self).idle(),
            final(self).fpu_owner() == old(self).fpu_owner(),
            final(self).manager().use_count() == old(self).manager().use_count(),
            final(self).manager().alloc_count() == old(self).manager().alloc_count(),
    {
        self.ticks = self.ticks + 1;
        let now = self.ticks;
        self.release(Release::Deadline(now));
        let cur = self.current;
        let t = self.current_record();
        let rq = if t.remaining_quantum > i64::MIN {
            t.remaining_quantum - 1
        } else {
            t.remaining_quantum
        };
        let t1 = Task { remaining_quantum: rq, ..t };
        let ghost tasks0 = self.tasks();
        self.set_task(cur, t1);
        proof {
            lemma_pos_update(tasks0, cur, pos(tasks0, cur), t1);
        }
        if rq <= 0 && self.select().is_some() {
            if cur == self.idle {
                Some(self.switch_next(None))
            } else {
                let g = if t1.greedy_count < u32::MAX {
                    t1.greedy_count + 1
                } else {
                    t1.greedy_count
                };
                let t2 = if g >= self.config.greedy_threshold {
                    let band = if t1.band + 1 < N_BANDS {
                        t1.band + 1
                    } else {
                        t1.band
                    };
                    Task { band, greedy_count: 0, ..t1 }
                } else {
                    Task { greedy_count: g, ..t1 }
                };
                proof {
                    assert(t2 == after_greedy(t1, self.config));
                    lemma_pos_update(tasks0, cur, pos(tasks0, cur), t1);
                }
                let ghost tasks1 = self.tasks();
                self.set_task(cur, t2);
                proof {
                    let p = pos(tasks0, cur);
                    assert(pos(tasks1, cur) == p);
                    assert(self.tasks() =~= tasks0.update(p, t2));
                    lemma_pos_update(tasks1, cur, p, t2);
                }
                Some(self.switch_next(Some(Slot { id: cur, band: t2.band, state: SlotState::Ready })))
            }
        } else {
            None
        }
    }

    /// The FPU trap of the running task. When it already owns the FPU the
    /// live registers are its own and are neither saved nor loaded. Otherwise
    /// they are saved for their owner, if any, and the running task's saved
    /// state is loaded if it has used the FPU before (else the FPU is reset
    /// and the task marked as a user of it). The running task becomes the
    /// owner.
    pub fn fpu_trap(&mut self) -> (a: FpuAction)
        requires
            old(self).wf(),
        ensures
            final(self).wf(),
            a.save_to == (if old(self).fpu_owner() is Some && old(self).fpu_owner() != Some(old(self).current()) {
                old(self).fpu_owner()
            } else {
                None
            }),
            a.restore == (old(self).task(old(self).current()).fpu_used_once
                && old(self).fpu_owner() != Some(old(self).current())),
            final(self).fpu_owner() == Some(old(self).current()),
            final(self).tasks() == old(self).tasks().update(
                pos(old(self).tasks(), old(self).current()),
                Task { fpu_used_once: true, ..old(self).task(old(self).current()) },
            ),
            final(self).queue() == old(self).queue(),
            final(self).current() == old(self).current(),
            final(self).idle() == old(self).idle(),
            final(self).ticks() == old(self).ticks(),
            final(self).manager().use_count() == old(self).manager().use_count(),
            final(self).manager().alloc_count() == old(self).manager().alloc_count(),
    {
        let save_to = match self.fpu_owner {
            Some(o) => if o != self.current {
                Some(o)
            } else {
                None
            },
            None => None,
        };
        let t = self.current_record();
        let restore = t.fpu_used_once && self.fpu_owner != Some(self.current);
        let cur = self.current;
        let ghost tasks0 = self.tasks();
        self.set_task(cur, Task { fpu_used_once: true, ..t });
        self.fpu_owner = Some(cur);
        proof {
            lemma_pos_update(tasks0, cur, pos(tasks0, cur), Task { fpu_used_once: true, ..t });
            assert(self.members().count(cur) > 0) by {
                assert(running(self.current, self.idle).count(cur) > 0);
            }
        }
        FpuAction { save_to, restore }
    }

    /// The id of the running task.
    pub fn running_task(&self) -> (id: u64)
        ensures
            id == self.current(),
    {
        self.current
    }

    /// The id of the idle task.
    pub fn idle_task(&self) -> (id: u64)
        ensures
            id == self.idle(),
    {
        self.idle
    }

    /// The tick counter.
    pub fn tick_count(&self) -> (n: u64)
        ensures
            n == self.ticks(),
    {
        self.ticks
    }

    /// The FPU owner, if any.
    pub fn fpu_owner_task(&self) -> (o: Option<u64>)
        ensures
            o == self.fpu_owner(),
    {
        self.fpu_owner
    }

    /// The queued slots, in queue order.
    pub fn slots(&self) -> (r: Vec<Slot>)
        ensures
            r@ == self.queue(),
    {
        let mut r: Vec<Slot> = Vec::new();
        let mut i: usize = 0;
        while i < self.queue.len()
            invariant
                i <= self.queue@.len(),
                r@ == self.queue@.take(i as int),
            decreases self.queue@.len() - i,
        {
            r.push(self.queue[i]);
            proof {
                assert(self.queue@.take(i + 1) =~= self.queue@.take(i as int).push(self.queue@[i as int]));
            }
            i = i + 1;
        }
        proof {
            assert(self.queue@.take(i as int) =~= self.queue@);
        }
        r
    }

    /// The task pool.
    pub fn pool(&self) -> (m: &TaskManager)
        ensures
            *m == self.manager(),
    {
        &self.manager
    }
}


/// The slot at `i` is the head of the die list.
pub open spec fn is_first_dead(q: Seq<Slot>, i: int) -> bool {
    &&& 0 <= i < q.len()
    &&& q[i].state == SlotState::Dead
    &&& forall|j: int| 0 <= j < i ==> (#[trigger] q[j]).state != SlotState::Dead
}

/// Some slot of `q` is on the die list.
pub open spec fn has_dead(q: Seq<Slot>) -> bool {
    exists|j: int| 0 <= j < q.len() && (#[trigger] q[j]).state == SlotState::Dead
}

impl Scheduler {
    /// Creates a task of the running task's lineage that starts at `entry`
    /// with `arg0` and `arg1` as its first two arguments, at the tail of the
    /// ready list of its priority's band. Fails with `PoolExhausted`, changing
    /// nothing, when the pool is full or every id has been handed out.
    pub fn create_task(&mut self, flags: TaskFlags, entry: u64, arg0: u64, arg1: u64) -> (r: Result<u64, TaskError>)
        requires
            old(self).wf(),
        ensures
            final(self).wf(),
            final(self).current() == old(self).current(),
            final(self).idle() == old(self).idle(),
            final(self).fpu_owner() == old(self).fpu_owner(),
            final(self).ticks() == old(self).ticks(),
            (old(self).manager().use_count() >= TASKPOOL_SIZE || old(self).manager().alloc_count() == u64::MAX) ==> {
                &&& r == Err::<u64, TaskError>(TaskError::PoolExhausted)
                &&& final(self).queue() == old(self).queue()
                &&& final(self).tasks() == old(self).tasks()
                &&& final(self).manager().use_count() == old(self).manager().use_count()
                &&& final(self).manager().alloc_count() == old(self).manager().alloc_count()
            },
            (old(self).manager().use_count() < TASKPOOL_SIZE && old(self).manager().alloc_count() < u64::MAX) ==> {
                let id = old(self).manager().alloc_count();
                let t = final(self).task(id);
                &&& r == Ok::<u64, TaskError>(id)
                &&& final(self).queue() == old(self).queue().push(
                    Slot { id, band: band_of(flags.priority), state: SlotState::Ready })
                &&& final(self).manager().use_count() == old(self).manager().use_count() + 1
                &&& final(self).manager().alloc_count() == old(self).manager().alloc_count() + 1
                &&& final(self).tasks().len() == old(self).tasks().len() + 1
                &&& has_id(final(self).tasks(), id)
                &&& t.id == id
                &&& t.flags == flags
                &&& t.band == band_of(flags.priority)
                &&& t.remaining_quantum == old(self).config().quantum(band_of(flags.priority))
                &&& t.greedy_count == 0
                &&& t.context == (Context { rip: entry, rdi: arg0, rsi: arg1, ..empty_context() })
                &&& t.fpu_context.is_zero()
                &&& !t.fpu_used_once
                &&& t.parent == Some(old(self).current())
                &&& t.child is None
                &&& t.sibling == old(self).task(old(self).current()).child
                &&& final(self).task(old(self).current()).child == Some(id)
            },
    {
        let ghost t0 = self.tasks();
        let ghost m0 = self.members();
        proof {
            assert(running(self.current, self.idle).count(self.current) > 0);
            assert(self.members().count(self.current) > 0);
        }
        let parent = self.current;
        let sibling = self.manager.get(parent).unwrap().child;
        let id = match self.manager.allocate() {
            Ok(id) => id,
            Err(e) => return Err(e),
        };
        let ghost t1 = self.tasks();
        proof {
            assert(t1.drop_last() == t0);
            assert forall|x: u64| has_id(t0, x) implies has_id(t1, x) by {
                let k = choose|k: int| 0 <= k < t0.len() && #[trigger] t0[k].id == x;
                assert(t1[k] == t0[k]);
            }
            let pp = pos(t0, parent);
            assert(t0[pp].id == parent);
            assert(links_ok(t0, t0[pp]));
        }
        let band = flags.band();
        let mut context = Context::empty();
        context.rip = entry;
        context.rdi = arg0;
        context.rsi = arg1;
        let t = Task {
            id,
            flags,
            band,
            remaining_quantum: self.config.quanta[band as usize] as i64,
            greedy_count: 0,
            context,
            fpu_context: FpuContext::new(),
            fpu_used_once: false,
            parent: Some(parent),
            child: None,
            sibling,
        };
        let n = self.manager.use_count() - 1;
        self.manager.update(n, t);
        self.queue.push(Slot { id, band, state: SlotState::Ready });
        proof {
            let t2 = self.tasks();
            let n = t0.len() as int;
            assert(t2[n] == t);
            assert forall|x: u64| #[trigger] m0.count(x) > 0 implies x != id && has_id(t2, x) by {
                let k = choose|k: int| 0 <= k < t0.len() && #[trigger] t0[k].id == x;
                assert(t0[k].id < id);
                assert(t2[k] == t0[k]);
            }
            lemma_ids_push(self.queue@.drop_last(), Slot { id, band, state: SlotState::Ready });
            assert(self.queue@.drop_last() =~= old(self).queue@);
            assert(self.members() =~= m0.insert(id));
            assert(t2[n].id == id);
            assert(has_id(t2, id));
            assert forall|k: int| 0 <= k < t2.len() implies #[trigger] t2[k].band < N_BANDS by {
                if k < n {
                    assert(t2[k] == t0[k]);
                }
            }
            assert forall|k: int| 0 <= k < self.queue@.len() implies #[trigger] self.queue@[k].band < N_BANDS by {
                if k < old(self).queue@.len() {
                    assert(self.queue@[k] == old(self).queue@[k]);
                }
            }
            assert forall|k: int| 0 <= k < self.queue@.len() implies
                self.task((#[trigger] self.queue@[k]).id).band == self.queue@[k].band by {
                let x = self.queue@[k].id;
                if k < old(self).queue@.len() {
                    assert(self.queue@[k] == old(self).queue@[k]);
                    lemma_queued_not_running(*old(self), k);
                    let j = pos(t0, x);
                    assert(t0[j].id == x);
                    assert(t2[j] == t0[j]);
                    let p = pos(t2, x);
                    assert(t2[p].id == x);
                    assert(old(self).task(x).band == self.queue@[k].band);
                } else {
                    assert(x == id);
                    let p = pos(t2, id);
                    assert(t2[p].id == id);
                    assert(p == n);
                }
            }
            if let Some(o) = self.fpu_owner {
                let k = pos(t0, o);
                assert(t0[k].id == o);
                assert(t2[k] == t0[k]);
                let p = pos(t2, o);
                assert(t2[p].id == o);
            }
        }
        let p = self.current_record();
        let ghost t2 = self.tasks();
        proof {
            let k = pos(t0, parent);
            assert(t0[k].id == parent);
            assert(t2[k] == t0[k]);
            assert(p == t0[k]);
            assert(links_ok(t0, t0[k]));
            assert forall|x: u64| has_id(t0, x) implies has_id(t2, x) by {
                let j = choose|j: int| 0 <= j < t0.len() && #[trigger] t0[j].id == x;
                assert(t2[j] == t0[j]);
            }
            assert(t2[t0.len() as int].id == id);
        }
        self.set_task(parent, Task { child: Some(id), ..p });
        proof {
            let t3 = self.tasks();
            lemma_pos_update(t2, id, pos(t2, parent), Task { child: Some(id), ..p });
            lemma_pos_update(t2, parent, pos(t2, parent), Task { child: Some(id), ..p });
            let q = pos(t2, id);
            assert(t2[q].id == id);
            assert(q == t0.len());
        }
        Ok(id)
    }

    /// Frees the task at the head of the die list, if any, and returns its
    /// id; an FPU owner that it was is cleared.
    pub fn reap(&mut self) -> (r: Option<u64>)
        requires
            old(self).wf(),
        ensures
            final(self).wf(),
            r is None <==> !has_dead(old(self).queue()),
            r is None ==> final(self).queue() == old(self).queue() && final(self).tasks() == old(self).tasks()
                && final(self).manager().use_count() == old(self).manager().use_count()
                && final(self).fpu_owner() == old(self).fpu_owner(),
            r matches Some(id) ==> exists|i: int| #![auto] is_first_dead(old(self).queue(), i) && {
                &&& old(self).queue()[i].id == id
                &&& final(self).queue() == old(self).queue().remove(i)
                &&& final(self).tasks() == after_free(old(self).tasks(), pos(old(self).tasks(), id), id)
                &&& final(self).manager().use_count() == old(self).manager().use_count() - 1
                &&& final(self).fpu_owner() == (if old(self).fpu_owner() == Some(id) {
                    None
                } else {
                    old(self).fpu_owner()
                })
            },
            final(self).current() == old(self).current(),
            final(self).idle() == old(self).idle(),
            final(self).ticks() == old(self).ticks(),
            final(self).manager().alloc_count() == old(self).manager().alloc_count(),
    {
        let mut i: usize = 0;
        while i < self.queue.len() && self.queue[i].state != SlotState::Dead
            invariant
                i <= self.queue@.len(),
                forall|j: int| 0 <= j < i ==> (#[trigger] self.queue@[j]).state != SlotState::Dead,
            decreases self.queue@.len() - i,
        {
            i = i + 1;
        }
        if i == self.queue.len() {
            return None;
        }
        let ghost q0 = self.queue@;
        let ghost t0 = self.tasks();
        let ghost m0 = self.members();
        let ghost s0 = *self;
        let ghost u0 = self.manager.use_count();
        let s = self.queue.remove(i);
        let id = s.id;
        proof {
            assert(is_first_dead(q0, i as int));
            lemma_ids_remove(q0, i as int);
            assert(m0.count(id) == 1);
            assert(self.members() =~= m0.remove(id));
            assert(id != self.current && id != self.idle) by {
                assert(running(self.current, self.idle).count(self.current) > 0);
                assert(running(self.current, self.idle).count(self.idle) > 0);
            }
            assert(has_id(t0, id));
        }
        self.manager.free(id);
        if self.fpu_owner == Some(id) {
            self.fpu_owner = None;
        }
        proof {
            let t1 = self.tasks();
            let p = pos(t0, id);
            assert(t0[p].id == id);
            assert forall|x: u64| #[trigger] self.members().count(x) > 0 implies has_id(t1, x) by {
                assert(m0.count(x) > 0);
                lemma_after_free(t0, p, id, x);
            }
            assert forall|k: int| 0 <= k < t1.len() implies #[trigger] t1[k].band < N_BANDS by {
                let o = if k < p { k } else { k + 1 };
                assert(t1[k] == unlink_from(t0[o], id));
                assert(t0[o].band < N_BANDS);
            }
            assert forall|k: int| 0 <= k < self.queue@.len() implies #[trigger] self.queue@[k].band < N_BANDS by {
                let o = if k < i { k } else { k + 1 };
                assert(self.queue@[k] == q0[o]);
            }
            assert forall|k: int| 0 <= k < self.queue@.len() implies
                self.task((#[trigger] self.queue@[k]).id).band == self.queue@[k].band by {
                let o = if k < i { k } else { k + 1 };
                let x = self.queue@[k].id;
                assert(self.queue@[k] == q0[o]);
                assert(ids(self.queue@)[k] == x);
                assert(ids(self.queue@).to_multiset().count(x) > 0);
                assert(self.members().count(x) > 0);
                assert(x != id);
                lemma_queued_not_running(s0, o);
                lemma_after_free(t0, p, id, x);
                assert(s0.task(x).band == q0[o].band);
            }
            if let Some(o) = self.fpu_owner {
                lemma_after_free(t0, p, id, o);
            }
            assert(is_first_dead(q0, i as int));
        }
        Some(id)
    }
}

} // verus!
