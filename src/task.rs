//! The task control block and the values it is made of.
use vstd::prelude::*;

verus! {

/// Number of priority bands the scheduler groups priorities into.
pub const N_BANDS: u8 = 3;

/// Number of 64-bit words in the saved extended floating-point/vector state.
pub const FPU_WORDS: usize = 64;

/// Band of a priority: lower priority values are more urgent.
pub open spec fn band_of(priority: u8) -> u8 {
    if priority < 86 {
        0
    } else if priority < 171 {
        1
    } else {
        2
    }
}

/// The band a priority belongs to.
pub fn priority_band(priority: u8) -> (b: u8)
    ensures
        b == band_of(priority),
        b < N_BANDS,
{
    if priority < 86 {
        0
    } else if priority < 171 {
        1
    } else {
        2
    }
}

/// Per-task flag set: priority, thread/process kind, termination and idle marks.
#[derive(Clone, Copy, Debug, PartialEq, Eq, Structural)]
pub struct TaskFlags {
    pub priority: u8,
    pub is_thread: bool,
    pub ended: bool,
    pub idle: bool,
}

impl TaskFlags {
    /// A full process of the most urgent priority.
    pub fn new() -> (f: TaskFlags)
        ensures
            f == (TaskFlags { priority: 0, is_thread: false, ended: false, idle: false }),
    {
        TaskFlags { priority: 0, is_thread: false, ended: false, idle: false }
    }

    /// Marks the task as a thread that shares its parent's resources.
    pub fn thread(self) -> (r: TaskFlags)
        ensures
            r == (TaskFlags { is_thread: true, ..self }),
    {
        TaskFlags { is_thread: true, ..self }
    }

    /// Sets the priority.
    pub fn set_priority(self, priority: u8) -> (r: TaskFlags)
        ensures
            r == (TaskFlags { priority, ..self }),
    {
        TaskFlags { priority, ..self }
    }

    /// Marks the task as the idle task of its CPU.
    pub fn idle(self) -> (r: TaskFlags)
        ensures
            r == (TaskFlags { idle: true, ..self }),
    {
        TaskFlags { idle: true, ..self }
    }

    /// The band of this flag set's priority.
    pub fn band(&self) -> (b: u8)
        ensures
            b == band_of(self.priority),
            b < N_BANDS,
    {
        priority_band(self.priority)
    }
}

/// General-purpose, segment and control registers needed to resume a task.
#[derive(Clone, Copy, Debug, PartialEq, Eq, Structural)]
pub struct Context {
    pub rip: u64,
    pub rsp: u64,
    pub rflags: u64,
    pub cs: u64,
    pub ss: u64,
    pub rax: u64,
    pub rbx: u64,
    pub rcx: u64,
    pub rdx: u64,
    pub rdi: u64,
    pub rsi: u64,
    pub rbp: u64,
    pub r8: u64,
    pub r9: u64,
    pub r10: u64,
    pub r11: u64,
    pub r12: u64,
    pub r13: u64,
    pub r14: u64,
    pub r15: u64,
}

/// The all-zero register set.
pub open spec fn empty_context() -> Context {
    Context {
        rip: 0, rsp: 0, rflags: 0, cs: 0, ss: 0, rax: 0, rbx: 0, rcx: 0, rdx: 0, rdi: 0,
        rsi: 0, rbp: 0, r8: 0, r9: 0, r10: 0, r11: 0, r12: 0, r13: 0, r14: 0, r15: 0,
    }
}

impl Context {
    /// The all-zero register set.
    pub fn empty() -> (c: Context)
        ensures
            c == empty_context(),
    {
        Context {
            rip: 0, rsp: 0, rflags: 0, cs: 0, ss: 0, rax: 0, rbx: 0, rcx: 0, rdx: 0, rdi: 0,
            rsi: 0, rbp: 0, r8: 0, r9: 0, r10: 0, r11: 0, r12: 0, r13: 0, r14: 0, r15: 0,
        }
    }
}

/// Saved extended floating-point/vector state.
#[derive(Clone, Copy, Debug)]
pub struct FpuContext {
    pub words: [u64; 64],
}

impl FpuContext {
    /// Every saved word is zero.
    pub open spec fn is_zero(&self) -> bool {
        forall|i: int| 0 <= i < FPU_WORDS ==> #[trigger] self.words@[i] == 0
    }

    /// An all-zero state.
    pub fn new() -> (f: FpuContext)
        ensures
            f.is_zero(),
    {
        FpuContext { words: [0u64; 64] }
    }
}

/// Task control block.
#[derive(Clone, Copy, Debug)]
pub struct Task {
    pub id: u64,
    pub flags: TaskFlags,
    /// Band the task is queued in when it becomes ready.
    pub band: u8,
    pub remaining_quantum: i64,
    /// Full quanta consumed in a row without yielding.
    pub greedy_count: u32,
    pub context: Context,
    pub fpu_context: FpuContext,
    pub fpu_used_once: bool,
    pub parent: Option<u64>,
    pub child: Option<u64>,
    pub sibling: Option<u64>,
}

impl Task {
    /// The lineage links hold no id.
    pub open spec fn unlinked(&self) -> bool {
        self.parent is None && self.child is None && self.sibling is None
    }

    /// State of a block ready for reuse: no lineage and zeroed contexts.
    pub open spec fn is_cleared(&self) -> bool {
        self.unlinked() && self.context == empty_context() && self.fpu_context.is_zero()
    }

    /// Every field but the id is in its default state: no flags, band 0, no
    /// quantum, no greedy count, FPU unused, no lineage, zeroed contexts.
    pub open spec fn is_blank(&self) -> bool {
        &&& self.is_cleared()
        &&& self.flags == (TaskFlags { priority: 0, is_thread: false, ended: false, idle: false })
        &&& self.band == 0
        &&& self.remaining_quantum == 0
        &&& self.greedy_count == 0
        &&& !self.fpu_used_once
    }

    /// A fresh block with the given id and every other field zero or absent.
    pub fn blank(id: u64) -> (t: Task)
        ensures
            t.id == id,
            t.is_blank(),
    {
        Task {
            id,
            flags: TaskFlags::new(),
            band: 0,
            remaining_quantum: 0,
            greedy_count: 0,
            context: Context::empty(),
            fpu_context: FpuContext::new(),
            fpu_used_once: false,
            parent: None,
            child: None,
            sibling: None,
        }
    }
}

} // verus!
