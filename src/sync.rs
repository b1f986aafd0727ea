//! What the synchronization primitives share: the resource they own in the
//! monitor, and the step that a lock or down operation asks of the scheduler.
use vstd::prelude::*;
use crate::resmon::{ResMonitor, DEAD_LOCK};

verus! {

/// What the caller of a lock or down operation does next.
#[derive(PartialEq, Eq, Structural, Clone, Copy, Debug)]
pub enum Step {
    /// The resource is held now.
    Done,
    /// The grant would be unsafe; nothing was queued.
    Deadlock,
    /// Yield to the scheduler, then call again.
    Yield,
    /// Park the caller; a later release wakes it holding the resource.
    Block,
}

impl Step {
    /// The value a system call returns for this step once it is over:
    /// `DEAD_LOCK` for a refused grant, 0 otherwise.
    pub fn code(&self) -> (r: i32)
        ensures
            *self == Step::Deadlock ==> r == DEAD_LOCK,
            *self != Step::Deadlock ==> r == 0,
    {
        match self {
            Step::Deadlock => DEAD_LOCK,
            _ => 0,
        }
    }
}

/// A primitive backed by one resource of the process's monitor.
pub trait SyncRes {
    /// The resource id as a spec value.
    spec fn res_id(&self) -> u32;

    /// The id of the resource this primitive owns in the monitor.
    fn getid(&self) -> (r: u32)
        ensures
            r == self.res_id(),
    ;
}

/// Preconditions that every call into the monitor on behalf of thread
/// `tid` and resource `resid` needs.
pub open spec fn monitor_ready(mon: &ResMonitor, resid: u32, tid: usize) -> bool {
    &&& mon.wf()
    &&& resid < mon.n_res()
    &&& tid < u32::MAX
    &&& mon.n_threads() <= u32::MAX
}

/// A unit can be granted to `tid` without overflowing the matrices.
pub open spec fn grant_fits(mon: &ResMonitor, resid: u32, tid: usize) -> bool {
    &&& mon.avail_view()[resid as int] > i64::MIN
    &&& mon.alloc_at(tid as int, resid as int) < u32::MAX
}

} // verus!
