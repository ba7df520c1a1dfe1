//! The task pool: allocation, lookup and recycling of task control blocks.
use vstd::prelude::*;
use crate::task::{Context, FpuContext, Task, TaskFlags, empty_context};

verus! {

/// Capacity of the task pool.
pub const TASKPOOL_SIZE: usize = 1024;

/// Errors of task management.
#[derive(Clone, Copy, Debug, PartialEq, Eq, Structural)]
pub enum TaskError {
    /// No task control block can be handed out.
    PoolExhausted,
}

/// Some task of `s` has the id `id`.
pub open spec fn has_id(s: Seq<Task>, id: u64) -> bool {
    exists|i: int| 0 <= i < s.len() && #[trigger] s[i].id == id
}

/// The position of the task with id `id` in `s`.
pub open spec fn pos(s: Seq<Task>, id: u64) -> int {
    choose|i: int| 0 <= i < s.len() && #[trigger] s[i].id == id
}

/// A lineage link is absent or names a task of `s`.
pub open spec fn link_ok(s: Seq<Task>, l: Option<u64>) -> bool {
    l matches Some(x) ==> has_id(s, x)
}

/// Every lineage link of `t` resolves in `s`.
pub open spec fn links_ok(s: Seq<Task>, t: Task) -> bool {
    link_ok(s, t.parent) && link_ok(s, t.child) && link_ok(s, t.sibling)
}

/// Every lineage link of every task of `s` resolves in `s`.
pub open spec fn lineage_ok(s: Seq<Task>) -> bool {
    forall|i: int| 0 <= i < s.len() ==> links_ok(s, #[trigger] s[i])
}

/// No two tasks of `s` share an id.
pub open spec fn ids_unique(s: Seq<Task>) -> bool {
    forall|i: int, j: int|
        0 <= i < s.len() && 0 <= j < s.len() && i != j ==> #[trigger] s[i].id != #[trigger] s[j].id
}

/// Ids grow along `s`.
pub open spec fn ids_ascending(s: Seq<Task>) -> bool {
    forall|i: int, j: int| 0 <= i < j < s.len() ==> #[trigger] s[i].id < #[trigger] s[j].id
}

/// A link to `id` is dropped, any other kept.
pub open spec fn drop_link(l: Option<u64>, id: u64) -> Option<u64> {
    if l == Some(id) {
        None
    } else {
        l
    }
}

/// `t` with every lineage link to `id` dropped.
pub open spec fn unlink_from(t: Task, id: u64) -> Task {
    Task {
        parent: drop_link(t.parent, id),
        child: drop_link(t.child, id),
        sibling: drop_link(t.sibling, id),
        ..t
    }
}

/// The live tasks of `s` after the task at `i`, with id `id`, is freed.
pub open spec fn after_free(s: Seq<Task>, i: int, id: u64) -> Seq<Task> {
    s.remove(i).map_values(|t: Task| unlink_from(t, id))
}

/// Ids of the tasks of `s`, in order.
pub open spec fn ids_of(s: Seq<Task>) -> Seq<u64> {
    s.map_values(|t: Task| t.id)
}

/// Owns every live task control block and recycles freed ones.
pub struct TaskManager {
    empty_queue: Vec<Task>,
    tasks: Vec<Task>,
    max_count: usize,
    use_count: usize,
    alloc_count: u64,
}

impl TaskManager {
    /// The live tasks, in order of allocation.
    pub closed spec fn tasks(&self) -> Seq<Task> {
        self.tasks@
    }

    /// Number of live tasks.
    pub closed spec fn spec_use_count(&self) -> usize {
        self.use_count
    }

    /// Number of ids handed out so far; the next id.
    pub closed spec fn spec_alloc_count(&self) -> u64 {
        self.alloc_count
    }

    /// Recycled blocks are cleared.
    pub closed spec fn pool_ok(&self) -> bool {
        &&& self.max_count == TASKPOOL_SIZE
        &&& forall|i: int| 0 <= i < self.empty_queue@.len() ==> (#[trigger] self.empty_queue@[i]).is_blank()
    }

    /// Well-formedness: the counters match the live tasks, ids are unique and
    /// below the next id, and lineage links resolve.
    pub open spec fn wf(&self) -> bool {
        &&& self.pool_ok()
        &&& self.tasks().len() == self.use_count()
        &&& self.use_count() <= TASKPOOL_SIZE
        &&& ids_unique(self.tasks())
        &&& ids_ascending(self.tasks())
        &&& forall|i: int| 0 <= i < self.tasks().len() ==> #[trigger] self.tasks()[i].id < self.alloc_count()
        &&& lineage_ok(self.tasks())
    }

    /// An empty pool.
    pub fn new() -> (m: TaskManager)
        ensures
            m.wf(),
            m.tasks() == Seq::<Task>::empty(),
            m.use_count() == 0,
            m.alloc_count() == 0,
    {
        TaskManager {
            empty_queue: Vec::new(),
            tasks: Vec::new(),
            max_count: TASKPOOL_SIZE,
            use_count: 0,
            alloc_count: 0,
        }
    }

    /// Number of live tasks.
    #[verifier::when_used_as_spec(spec_use_count)]
    pub fn use_count(&self) -> (n: usize)
        ensures
            n == self.use_count(),
    {
        self.use_count
    }

    /// Number of ids handed out so far.
    #[verifier::when_used_as_spec(spec_alloc_count)]
    pub fn alloc_count(&self) -> (n: u64)
        ensures
            n == self.alloc_count(),
    {
        self.alloc_count
    }

    /// Hands out a cleared block under the next id. Fails with `PoolExhausted`
    /// when the pool is full or every id has been handed out, and then changes
    /// nothing.
    pub fn allocate(&mut self) -> (r: Result<u64, TaskError>)
        requires
            old(self).wf(),
        ensures
            final(self).wf(),
            final(self).alloc_count() >= old(self).alloc_count(),
            (old(self).use_count() >= TASKPOOL_SIZE || old(self).alloc_count() == u64::MAX) ==> {
                &&& r == Err::<u64, TaskError>(TaskError::PoolExhausted)
                &&& final(self).tasks() == old(self).tasks()
                &&& final(self).use_count() == old(self).use_count()
                &&& final(self).alloc_count() == old(self).alloc_count()
            },
            (old(self).use_count() < TASKPOOL_SIZE && old(self).alloc_count() < u64::MAX) ==> {
                &&& r == Ok::<u64, TaskError>(old(self).alloc_count())
                &&& final(self).tasks().len() == old(self).tasks().len() + 1
                &&& final(self).tasks().drop_last() == old(self).tasks()
                &&& final(self).tasks().last().id == old(self).alloc_count()
                &&& final(self).tasks().last().is_blank()
                &&& final(self).use_count() == old(self).use_count() + 1
                &&& final(self).alloc_count() == old(self).alloc_count() + 1
            },
    {
        if self.use_count >= self.max_count || self.alloc_count == u64::MAX {
            return Err(TaskError::PoolExhausted);
        }
        let id = self.alloc_count;
        let mut task = match self.empty_queue.pop() {
            Some(t) => t,
            None => Task::blank(id),
        };
        task.id = id;
        let ghost before = self.tasks@;
        self.tasks.push(task);
        self.alloc_count = self.alloc_count + 1;
        self.use_count = self.use_count + 1;
        proof {
            assert(self.tasks@.drop_last() =~= before);
            assert forall|i: int| 0 <= i < self.tasks@.len() implies links_ok(self.tasks@, #[trigger] self.tasks@[i]) by {
                if i < before.len() {
                    let t = before[i];
                    assert(links_ok(before, t));
                    if let Some(x) = t.parent {
                        let k = choose|k: int| 0 <= k < before.len() && #[trigger] before[k].id == x;
                        assert(self.tasks@[k].id == x);
                    }
                    if let Some(x) = t.child {
                        let k = choose|k: int| 0 <= k < before.len() && #[trigger] before[k].id == x;
                        assert(self.tasks@[k].id == x);
                    }
                    if let Some(x) = t.sibling {
                        let k = choose|k: int| 0 <= k < before.len() && #[trigger] before[k].id == x;
                        assert(self.tasks@[k].id == x);
                    }
                }
            }
        }
        Ok(id)
    }

    /// Frees the live task with id `id`: it leaves the live tasks, every
    /// lineage link to it is dropped, its own links and contexts are cleared
    /// and the block is kept for reuse. An unknown id changes nothing.
    pub fn free(&mut self, id: u64)
        requires
            old(self).wf(),
        ensures
            final(self).wf(),
            final(self).alloc_count() == old(self).alloc_count(),
            !has_id(old(self).tasks(), id) ==> final(self).tasks() == old(self).tasks()
                && final(self).use_count() == old(self).use_count(),
            has_id(old(self).tasks(), id) ==> {
                &&& final(self).tasks() == after_free(old(self).tasks(), pos(old(self).tasks(), id), id)
                &&& final(self).use_count() == old(self).use_count() - 1
            },
            !has_id(final(self).tasks(), id),
    {
        let i = match self.find(id) {
            Some(i) => i,
            None => return,
        };
        let ghost s0 = self.tasks@;
        let mut task = self.tasks.remove(i);
        let ghost s1 = self.tasks@;
        assert(s1 =~= s0.remove(i as int));
        let mut j: usize = 0;
        while j < self.tasks.len()
            invariant
                s1 == s0.remove(i as int),
                self.use_count == s0.len(),
                self.alloc_count == old(self).alloc_count,
                self.pool_ok(),
                forall|k: int| 0 <= k < s0.len() ==> #[trigger] s0[k].id < self.alloc_count,
                self.tasks@.len() == s1.len(),
                j <= s1.len(),
                forall|k: int| 0 <= k < j ==> #[trigger] self.tasks@[k] == unlink_from(s1[k], id),
                forall|k: int| j <= k < s1.len() ==> #[trigger] self.tasks@[k] == s1[k],
            decreases s1.len() - j,
        {
            let mut t = self.tasks[j];
            if t.parent == Some(id) {
                t.parent = None;
            }
            if t.child == Some(id) {
                t.child = None;
            }
            if t.sibling == Some(id) {
                t.sibling = None;
            }
            self.tasks.set(j, t);
            j = j + 1;
        }
        task.flags = TaskFlags::new();
        task.band = 0;
        task.remaining_quantum = 0;
        task.greedy_count = 0;
        task.fpu_used_once = false;
        task.parent = None;
        task.child = None;
        task.sibling = None;
        task.context = Context::empty();
        task.fpu_context = FpuContext::new();
        self.empty_queue.push(task);
        self.use_count = self.use_count - 1;
        proof {
            let s2 = self.tasks@;
            assert(s2 =~= after_free(s0, i as int, id));
            // Ids of the remaining tasks are those of `s0` but the freed one.
            assert forall|k: int| 0 <= k < s2.len() implies #[trigger] s2[k].id != id
                && s2[k].id == s1[k].id by {
                if k < i {
                    assert(s0[k].id != s0[i as int].id);
                } else {
                    assert(s0[k + 1].id != s0[i as int].id);
                }
            }
            assert forall|x: u64| x != id && has_id(s0, x) implies has_id(s2, x) by {
                let k = choose|k: int| 0 <= k < s0.len() && #[trigger] s0[k].id == x;
                if k < i {
                    assert(s2[k].id == x);
                } else {
                    assert(s2[k - 1].id == x);
                }
            }
            assert forall|k: int| 0 <= k < s2.len() implies links_ok(s2, #[trigger] s2[k]) by {
                let o = if k < i { k } else { k + 1 };
                assert(s1[k] == s0[o]);
                assert(links_ok(s0, s0[o]));
            }
            assert forall|a: int, b: int|
                0 <= a < s2.len() && 0 <= b < s2.len() && a != b implies
                #[trigger] s2[a].id != #[trigger] s2[b].id by {
                let oa = if a < i { a } else { a + 1 };
                let ob = if b < i { b } else { b + 1 };
                assert(s2[a].id == s0[oa].id);
                assert(s2[b].id == s0[ob].id);
            }
            assert forall|k: int| 0 <= k < s2.len() implies #[trigger] s2[k].id < self.alloc_count by {
                let o = if k < i { k } else { k + 1 };
                assert(s2[k].id == s0[o].id);
            }
            assert forall|k: int| 0 <= k < self.empty_queue@.len() implies
                (#[trigger] self.empty_queue@[k]).is_blank() by {
                if k == self.empty_queue@.len() - 1 {
                    assert(self.empty_queue@[k] == task);
                }
            }
        }
    }

    /// Position of the live task with id `id`, if any.
    pub fn find(&self, id: u64) -> (r: Option<usize>)
        requires
            self.wf(),
        ensures
            r is None <==> !has_id(self.tasks(), id),
            r matches Some(i) ==> i < self.tasks().len() && self.tasks()[i as int].id == id && i == pos(self.tasks(), id),
    {
        let mut i: usize = 0;
        while i < self.tasks.len()
            invariant
                self.wf(),
                i <= self.tasks@.len(),
                forall|k: int| 0 <= k < i ==> #[trigger] self.tasks@[k].id != id,
            decreases self.tasks@.len() - i,
        {
            if self.tasks[i].id == id {
                proof {
                    let p = pos(self.tasks@, id);
                    assert(0 <= p < self.tasks@.len() && self.tasks@[p].id == id);
                    assert(p == i as int);
                }
                return Some(i);
            }
            i = i + 1;
        }
        None
    }

    /// The live task with id `id`; `None` when there is none.
    pub fn get(&self, id: u64) -> (r: Option<&Task>)
        requires
            self.wf(),
        ensures
            r is None <==> !has_id(self.tasks(), id),
            r matches Some(t) ==> *t == self.tasks()[pos(self.tasks(), id)],
    {
        match self.find(id) {
            Some(i) => Some(&self.tasks[i]),
            None => None,
        }
    }

    /// Ids of every live task, in ascending order.
    pub fn iter(&self) -> (r: Vec<u64>)
        requires
            self.wf(),
        ensures
            r@ == ids_of(self.tasks()),
            r@.len() == self.use_count(),
            forall|i: int, j: int| 0 <= i < j < r@.len() ==> r@[i] < r@[j],
    {
        let mut r: Vec<u64> = Vec::new();
        let mut i: usize = 0;
        while i < self.tasks.len()
            invariant
                i <= self.tasks@.len(),
                r@ == ids_of(self.tasks@.take(i as int)),
            decreases self.tasks@.len() - i,
        {
            r.push(self.tasks[i].id);
            proof {
                assert(self.tasks@.take(i + 1) =~= self.tasks@.take(i as int).push(self.tasks@[i as int]));
            }
            i = i + 1;
        }
        proof {
            assert(self.tasks@.take(i as int) =~= self.tasks@);
            assert forall|a: int, b: int| 0 <= a < b < r@.len() implies r@[a] < r@[b] by {
                assert(r@[a] == self.tasks@[a].id);
                assert(r@[b] == self.tasks@[b].id);
            }
        }
        r
    }

    /// Replaces the task at position `i` by `t`, which keeps its id.
    pub fn update(&mut self, i: usize, t: Task)
        requires
            old(self).wf(),
            i < old(self).tasks().len(),
            t.id == old(self).tasks()[i as int].id,
            links_ok(old(self).tasks(), t),
        ensures
            final(self).wf(),
            final(self).tasks() == old(self).tasks().update(i as int, t),
            final(self).use_count() == old(self).use_count(),
            final(self).alloc_count() == old(self).alloc_count(),
    {
        let ghost before = self.tasks@;
        self.tasks.set(i, t);
        proof {
            lemma_same_ids_links(before, self.tasks@);
            assert forall|j: int, k: int|
                0 <= j < self.tasks@.len() && 0 <= k < self.tasks@.len() && j != k implies
                #[trigger] self.tasks@[j].id != #[trigger] self.tasks@[k].id by {
                assert(before[j].id == self.tasks@[j].id);
                assert(before[k].id == self.tasks@[k].id);
            }
            assert forall|j: int| 0 <= j < self.tasks@.len() implies links_ok(self.tasks@, #[trigger] self.tasks@[j]) by {
                if j != i {
                    assert(links_ok(before, before[j]));
                }
            }
            assert forall|j: int| 0 <= j < self.tasks@.len() implies #[trigger] self.tasks@[j].id < self.alloc_count by {
                assert(before[j].id == self.tasks@[j].id);
            }
        }
    }
}

/// Two sequences with the same ids position by position resolve the same links.
pub proof fn lemma_same_ids_links(a: Seq<Task>, b: Seq<Task>)
    requires
        a.len() == b.len(),
        forall|i: int| 0 <= i < a.len() ==> #[trigger] a[i].id == b[i].id,
    ensures
        forall|x: u64| has_id(a, x) <==> has_id(b, x),
        forall|t: Task| links_ok(a, t) <==> links_ok(b, t),
{
    assert forall|x: u64| has_id(a, x) <==> has_id(b, x) by {
        if has_id(a, x) {
            let k = choose|k: int| 0 <= k < a.len() && #[trigger] a[k].id == x;
            assert(b[k].id == x);
        }
        if has_id(b, x) {
            let k = choose|k: int| 0 <= k < b.len() && #[trigger] b[k].id == x;
            assert(a[k].id == x);
        }
    }
}

/// After a free, every other task is still found, with its links to the freed
/// task dropped.
pub proof fn lemma_after_free(s: Seq<Task>, i: int, id: u64, x: u64)
    requires
        ids_unique(s),
        0 <= i < s.len(),
        s[i].id == id,
        x != id,
        has_id(s, x),
    ensures
        has_id(after_free(s, i, id), x),
        after_free(s, i, id)[pos(after_free(s, i, id), x)] == unlink_from(s[pos(s, x)], id),
{
    let a = after_free(s, i, id);
    let k = pos(s, x);
    assert(s[k].id == x);
    assert(k != i);
    let k2 = if k < i { k } else { k - 1 };
    assert(a[k2] == unlink_from(s[k], id));
    assert(a[k2].id == x);
    let p = pos(a, x);
    assert(a[p].id == x);
    let o = if p < i { p } else { p + 1 };
    assert(a[p] == unlink_from(s[o], id));
    assert(s[o].id == x);
}

} // verus!
