//! Thread control blocks.
use crate::manager::BIG_STRIDE;
use vstd::prelude::*;

verus! {

/// Number of system-call ids counted per thread.
pub const MAX_SYSCALL_NUM: usize = 500;

/// Priority a thread starts with.
pub const DEFAULT_PRIORITY: u64 = 16;

/// The life cycle of a thread.
#[derive(Clone, Copy, PartialEq, Eq, Structural, Debug)]
pub enum TaskStatus {
    UnInit,
    Ready,
    Running,
    Blocked,
    Zombie,
}

/// The registers the trap entry restores when the thread goes back to user
/// mode: where it resumes, its stack pointer, the two argument registers
/// (`a0` also carries system-call results) and its kernel stack.
#[derive(Clone, Copy, PartialEq, Eq, Structural, Debug)]
pub struct TrapContext {
    pub sepc: usize,
    pub sp: usize,
    pub a0: usize,
    pub a1: usize,
    pub kernel_sp: usize,
}

/// One thread of a process.
#[derive(Clone, Copy, Debug)]
pub struct TaskControlBlock {
    pub tid: usize,
    pub task_status: TaskStatus,
    /// Accumulated stride, compared across wraparound.
    pub stride: u64,
    /// What the stride grows by per dispatch: `BIG_STRIDE / priority`.
    pub pass: u64,
    /// Base of the process's user-stack region; this thread's stack lies at
    /// an offset given by its id.
    pub ustack_base: usize,
    pub trap_cx: TrapContext,
    /// When the thread first ran, in milliseconds; 0 before that.
    pub start_time: usize,
    /// Calls made so far, by system-call id.
    pub syscall_times: [u32; MAX_SYSCALL_NUM],
}

impl TaskControlBlock {
    /// The thread `new` builds.
    pub open spec fn new_spec(tid: usize, ustack_base: usize, entry: usize, sp: usize) -> Self {
        TaskControlBlock {
            tid,
            task_status: TaskStatus::Ready,
            stride: 0,
            pass: BIG_STRIDE / DEFAULT_PRIORITY,
            ustack_base,
            trap_cx: TrapContext { sepc: entry, sp, a0: 0, a1: 0, kernel_sp: 0 },
            start_time: 0,
            syscall_times: [0u32; MAX_SYSCALL_NUM],
        }
    }

    /// A ready thread with the default priority, no accumulated stride and
    /// a trap context that enters user mode at `entry` with stack `sp`.
    pub fn new(tid: usize, ustack_base: usize, entry: usize, sp: usize) -> (r: Self)
        ensures
            r == Self::new_spec(tid, ustack_base, entry, sp),
    {
        TaskControlBlock {
            tid,
            task_status: TaskStatus::Ready,
            stride: 0,
            pass: BIG_STRIDE / DEFAULT_PRIORITY,
            ustack_base,
            trap_cx: TrapContext { sepc: entry, sp, a0: 0, a1: 0, kernel_sp: 0 },
            start_time: 0,
            syscall_times: [0u32; MAX_SYSCALL_NUM],
        }
    }
}

} // verus!
