//! Types related to task management.
use vstd::prelude::*;

verus! {

/// The largest system call id whose calls a task counts.
pub const MAX_CALL_ID: usize = 410;

/// The registers saved when a task is switched out: return address, stack
/// pointer and the callee-saved registers `s0`..`s11`.
#[derive(Clone, Copy)]
pub struct TaskContext {
    pub ra: usize,
    pub sp: usize,
    pub s: [usize; 12],
}

/// The task control block (TCB) of a task.
#[derive(Clone, Copy)]
pub struct TaskControlBlock {
    /// The task status in its lifecycle.
    pub task_status: TaskStatus,
    /// The task context.
    pub task_cx: TaskContext,
    /// How often the task made each system call.
    pub call_times: [usize; 411],
}

/// The status of a task.
#[derive(Clone, Copy, PartialEq, Eq, Structural, Debug)]
pub enum TaskStatus {
    /// uninitialized
    UnInit,
    /// ready to run
    Ready,
    /// running
    Running,
    /// exited
    Exited,
}

} // verus!
