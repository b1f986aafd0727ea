//! Types related to task management.
use vstd::prelude::*;

verus! {

/// Number of distinct system call ids that are counted per task.
pub const MAX_SYSCALL_NUM: usize = 500;

/// The status of a task.
#[derive(Clone, Copy, PartialEq, Eq, Structural, Debug)]
pub enum TaskStatus {
    /// Not initialized yet.
    UnInit,
    /// Ready to run.
    Ready,
    /// Running.
    Running,
    /// Exited.
    Exited,
}

/// Per-task statistics.
#[derive(Clone, Copy)]
pub struct TaskStatis {
    /// How many times each system call was made.
    pub syscall_times: [u32; MAX_SYSCALL_NUM],
    /// When the task first ran.
    pub starttime: usize,
}

impl Default for TaskStatis {
    fn default() -> (r: Self)
        ensures
            r.starttime == 0,
            forall|i: int| 0 <= i < MAX_SYSCALL_NUM ==> #[trigger] r.syscall_times@[i] == 0,
    {
        TaskStatis { syscall_times: [0u32; MAX_SYSCALL_NUM], starttime: 0 }
    }
}

/// Saved registers of a task that is not running.
#[derive(Clone, Copy)]
pub struct TaskContext {
    /// Return address.
    pub ra: usize,
    /// Stack pointer.
    pub sp: usize,
    /// Callee-saved registers.
    pub s: [usize; 12],
}

/// The task control block of a task.
#[derive(Clone, Copy)]
pub struct TaskControlBlock {
    /// The task's status in its life cycle.
    pub task_status: TaskStatus,
    /// The saved context.
    pub task_cx: TaskContext,
    /// The statistics.
    pub statis: TaskStatis,
}

impl TaskControlBlock {
    /// Counts one more call of system call `id`; ids out of range and
    /// counts at their maximum are left as they are.
    pub fn record_syscall(&mut self, id: usize)
        ensures
            final(self).task_status == old(self).task_status,
            final(self).statis.starttime == old(self).statis.starttime,
            forall|i: int| 0 <= i < MAX_SYSCALL_NUM && i != id ==> #[trigger] final(self).statis.syscall_times@[i]
                == old(self).statis.syscall_times@[i],
            id < MAX_SYSCALL_NUM ==> final(self).statis.syscall_times@[id as int] == if old(
                self,
            ).statis.syscall_times@[id as int] < u32::MAX {
                (old(self).statis.syscall_times@[id as int] + 1) as u32
            } else {
                old(self).statis.syscall_times@[id as int]
            },
    {
        if id < MAX_SYSCALL_NUM {
            let c = self.statis.syscall_times[id];
            if c < u32::MAX {
                self.statis.syscall_times[id] = c + 1;
            }
        }
    }
}

} // verus!
