//! Counting semaphore with a FIFO wait queue, over the process's resource
//! monitor.
use vstd::prelude::*;
use std::collections::VecDeque;
use crate::resmon::ResMonitor;
use crate::sync::{Step, SyncRes, monitor_ready, grant_fits};

verus! {

/// The state of a semaphore.
pub struct SemaphoreInner {
    /// Units left; a negative count is the number of parked threads.
    pub count: i64,
    /// Parked threads, oldest first.
    pub wait_queue: VecDeque<usize>,
}

/// A counting semaphore.
pub struct Semaphore {
    pub inner: SemaphoreInner,
    resid: u32,
}

impl Semaphore {
    /// The count.
    pub closed spec fn count_view(&self) -> int {
        self.inner.count as int
    }

    /// The parked threads, oldest first.
    pub closed spec fn queue_view(&self) -> Seq<usize> {
        self.inner.wait_queue@
    }

    /// A semaphore holding `res_count` units, registered as a resource of
    /// that capacity.
    pub fn new(res_count: u32, mon: &mut ResMonitor) -> (r: Self)
        requires
            old(mon).wf(),
            old(mon).n_res() < u32::MAX,
        ensures
            r.count_view() == res_count,
            r.queue_view() == Seq::<usize>::empty(),
            r.res_id() == old(mon).n_res(),
            final(mon).wf(),
            final(mon).n_res() == old(mon).n_res() + 1,
            final(mon).avail_view()[r.res_id() as int] == res_count,
            final(mon).cap_view()[r.res_id() as int] == res_count,
            final(mon).n_threads() == old(mon).n_threads(),
    {
        let resid = mon.create_res(res_count);
        Semaphore { inner: SemaphoreInner { count: res_count as i64, wait_queue: VecDeque::new() }, resid }
    }

    /// Thread `tid` puts a unit back: the count goes up, the monitor records
    /// the unit against `tid` as `acquire` does, and if the count is still
    /// not positive the oldest waiter is woken and returned.
    pub fn up(&mut self, mon: &mut ResMonitor, tid: usize) -> (woken: Option<usize>)
        requires
            monitor_ready(old(mon), old(self).res_id(), tid),
            grant_fits(old(mon), old(self).res_id(), tid),
            old(self).count_view() < i64::MAX,
        ensures
            final(self).res_id() == old(self).res_id(),
            final(mon).wf(),
            final(self).count_view() == old(self).count_view() + 1,
            final(self).count_view() <= 0 && old(self).queue_view().len() > 0 ==> woken == Some(
                old(self).queue_view()[0],
            ) && final(self).queue_view() == old(self).queue_view().drop_first(),
            !(final(self).count_view() <= 0 && old(self).queue_view().len() > 0) ==> woken is None
                && final(self).queue_view() == old(self).queue_view(),
            final(mon).acquired(old(mon), tid as int, old(self).res_id() as int),
    {
        self.inner.count = self.inner.count + 1;
        mon.acquire(tid, self.resid);
        if self.inner.count <= 0 {
            self.inner.wait_queue.pop_front()
        } else {
            None
        }
    }

    /// Thread `tid` takes a unit. With one left it is granted at once.
    /// Otherwise the caller's need is recorded; if the check refuses, the
    /// count is restored and `Deadlock` returned, else the caller joins the
    /// back of the queue and gets `Block`.
    pub fn down(&mut self, mon: &mut ResMonitor, tid: usize, detect: bool) -> (r: Step)
        requires
            monitor_ready(old(mon), old(self).res_id(), tid),
            grant_fits(old(mon), old(self).res_id(), tid),
            old(self).count_view() > i64::MIN,
        ensures
            final(self).res_id() == old(self).res_id(),
            final(mon).wf(),
            old(self).count_view() > 0 ==> r == Step::Done
                && final(self).count_view() == old(self).count_view() - 1
                && final(self).queue_view() == old(self).queue_view()
                && final(mon).acquired(old(mon), tid as int, old(self).res_id() as int),
            old(self).count_view() <= 0 ==> final(mon).needed(old(mon), tid as int, old(self).res_id() as int)
                && (r == Step::Deadlock <==> final(mon).check_refuses(detect)),
            old(self).count_view() <= 0 && r == Step::Deadlock ==> final(self).count_view() == old(self).count_view()
                && final(self).queue_view() == old(self).queue_view(),
            old(self).count_view() <= 0 && r != Step::Deadlock ==> r == Step::Block
                && final(self).count_view() == old(self).count_view() - 1
                && final(self).queue_view() == old(self).queue_view().push(tid),
    {
        self.inner.count = self.inner.count - 1;
        if self.inner.count < 0 {
            mon.need(tid, self.resid);
            if mon.check(detect).is_some() {
                self.inner.count = self.inner.count + 1;
                return Step::Deadlock;
            }
            self.inner.wait_queue.push_back(tid);
            Step::Block
        } else {
            mon.acquire(tid, self.resid);
            Step::Done
        }
    }
}

impl SyncRes for Semaphore {
    closed spec fn res_id(&self) -> u32 {
        self.resid
    }

    fn getid(&self) -> (r: u32) {
        self.resid
    }
}

} // verus!
