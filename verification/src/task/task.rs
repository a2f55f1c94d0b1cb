//! The task control block and the states of a task.
use vstd::prelude::*;
use crate::config::MAX_SYSCALL_NUM;

verus! {

/// The status of a task.
#[derive(Copy, Clone, Debug, PartialEq, Eq, Structural)]
pub enum TaskStatus {
    /// Not initialised yet.
    UnInit,
    /// Ready to run.
    Ready,
    /// Running.
    Running,
    /// Exited.
    Exited,
}

/// The registers saved when switching away from a task: return address,
/// stack pointer and the callee-saved registers `s0`..`s11`.
#[derive(Copy, Clone)]
pub struct TaskContext {
    pub ra: usize,
    pub sp: usize,
    pub s: [usize; 12],
}

impl TaskContext {
    /// A context with every register zero.
    pub fn zero_init() -> (r: TaskContext)
        ensures
            r.ra == 0,
            r.sp == 0,
            forall|i: int| 0 <= i < 12 ==> r.s@[i] == 0,
    {
        TaskContext { ra: 0, sp: 0, s: [0usize; 12] }
    }
}

/// The task control block (TCB) of a task.
#[derive(Copy, Clone)]
pub struct TaskControlBlock {
    /// The task status in its lifecycle.
    pub task_status: TaskStatus,
    /// The task context.
    pub task_cx: TaskContext,
    /// How many times the task made each system call.
    pub syscall_times: [u32; MAX_SYSCALL_NUM],
    /// When the task started to run, in microseconds.
    pub start_time: usize,
}

impl TaskControlBlock {
    /// A TCB with the given status and context, no system calls counted and start time zero.
    pub fn new(task_status: TaskStatus, task_cx: TaskContext) -> (r: TaskControlBlock)
        ensures
            r.task_status == task_status,
            r.task_cx == task_cx,
            r.syscall_times@.len() == MAX_SYSCALL_NUM,
            forall|i: int| 0 <= i < MAX_SYSCALL_NUM ==> r.syscall_times@[i] == 0,
            r.start_time == 0,
    {
        TaskControlBlock { task_status, task_cx, syscall_times: [0u32; MAX_SYSCALL_NUM], start_time: 0 }
    }
}

} // verus!
