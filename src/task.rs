use vstd::prelude::*;

verus! {

/// Number of distinct system calls that are counted per task.
pub const MAX_SYSCALL_NUM: usize = 500;

/// The status of a task.
#[derive(Clone, Copy, Debug, PartialEq, Eq, Structural)]
pub enum TaskStatus {
    UnInit,
    Ready,
    Running,
    Exited,
}

/// Saved registers of a task: return address, stack pointer and the
/// callee-saved registers.
#[derive(Clone, Copy)]
pub struct TaskContext {
    pub ra: usize,
    pub sp: usize,
    pub s: [usize; 12],
}

impl TaskContext {
    /// A context with every register zero.
    pub fn zero_init() -> (r: TaskContext)
        ensures
            r.ra == 0,
            r.sp == 0,
            forall|k: int| 0 <= k < 12 ==> #[trigger] r.s@[k] == 0,
    {
        TaskContext { ra: 0, sp: 0, s: [0; 12] }
    }
}

/// The task control block of a task.
#[derive(Clone, Copy)]
pub struct TaskControlBlock {
    pub task_status: TaskStatus,
    pub task_cx: TaskContext,
    pub syscall_times: [u32; 500],
    pub first_schedule_time: Option<usize>,
}

impl TaskControlBlock {
    /// A task not yet started: zero context, no system call counted, never
    /// scheduled.
    pub fn new() -> (r: TaskControlBlock)
        ensures
            r.task_status == TaskStatus::UnInit,
            r.task_cx.ra == 0,
            r.task_cx.sp == 0,
            forall|k: int| 0 <= k < 12 ==> #[trigger] r.task_cx.s@[k] == 0,
            forall|k: int| 0 <= k < MAX_SYSCALL_NUM ==> #[trigger] r.syscall_times@[k] == 0,
            r.first_schedule_time.is_none(),
    {
        TaskControlBlock {
            task_cx: TaskContext::zero_init(),
            task_status: TaskStatus::UnInit,
            syscall_times: [0; 500],
            first_schedule_time: None,
        }
    }
}

} // verus!
