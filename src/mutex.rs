//! Mutexes, spinning and blocking, over the process's resource monitor.
use vstd::prelude::*;
use std::collections::VecDeque;
use crate::resmon::ResMonitor;
use crate::sync::{Step, SyncRes, monitor_ready, grant_fits};

verus! {

/// The operations that both kinds of mutex offer, as steps over the monitor.
pub trait Mutex: SyncRes {
    /// The mutex is consistent with the monitor it is registered in.
    spec fn fits_monitor(&self, mon: &ResMonitor) -> bool;

    /// The mutex is held.
    spec fn is_locked(&self) -> bool;

    /// One attempt of thread `tid` to lock the mutex.
    fn lock(&mut self, mon: &mut ResMonitor, tid: usize, detect: bool) -> (r: Step)
        requires
            old(self).fits_monitor(old(mon)),
            monitor_ready(old(mon), old(self).res_id(), tid),
            grant_fits(old(mon), old(self).res_id(), tid),
        ensures
            final(self).fits_monitor(final(mon)),
            final(self).is_locked(),
            final(self).res_id() == old(self).res_id(),
    ;

    /// Thread `tid` unlocks the mutex; returns the thread woken to take it over.
    fn unlock(&mut self, mon: &mut ResMonitor, tid: usize) -> (r: Option<usize>)
        requires
            old(self).fits_monitor(old(mon)),
            old(self).is_locked(),
            old(mon).wf(),
            old(mon).alloc_at(tid as int, old(self).res_id() as int) > 0,
            old(mon).avail_view()[old(self).res_id() as int] < i64::MAX,
        ensures
            final(self).fits_monitor(final(mon)),
            final(self).res_id() == old(self).res_id(),
    ;
}

/// A mutex whose contenders yield and retry.
pub struct MutexSpin {
    locked: bool,
    resid: u32,
}

impl MutexSpin {
    /// The mutex is held.
    pub closed spec fn locked_view(&self) -> bool {
        self.locked
    }

    /// A fresh, unlocked mutex, registered as a resource of capacity one.
    pub fn new(mon: &mut ResMonitor) -> (r: Self)
        requires
            old(mon).wf(),
            old(mon).n_res() < u32::MAX,
        ensures
            !r.locked_view(),
            r.res_id() == old(mon).n_res(),
            final(mon).wf(),
            final(mon).n_res() == old(mon).n_res() + 1,
            final(mon).avail_view()[r.res_id() as int] == 1,
            final(mon).cap_view()[r.res_id() as int] == 1,
            final(mon).n_threads() == old(mon).n_threads(),
    {
        let resid = mon.create_res(1);
        MutexSpin { locked: false, resid }
    }

    /// Whether the mutex is held.
    pub fn is_held(&self) -> (r: bool)
        ensures
            r == self.locked_view(),
    {
        self.locked
    }
}

impl SyncRes for MutexSpin {
    closed spec fn res_id(&self) -> u32 {
        self.resid
    }

    fn getid(&self) -> (r: u32) {
        self.resid
    }
}

impl Mutex for MutexSpin {
    closed spec fn fits_monitor(&self, mon: &ResMonitor) -> bool {
        mon.wf() && self.resid < mon.n_res()
    }

    closed spec fn is_locked(&self) -> bool {
        self.locked
    }

    /// A free mutex is taken at once. A held one records the caller's need;
    /// the caller then gets `Deadlock` if the check refuses, else `Yield`.
    fn lock(&mut self, mon: &mut ResMonitor, tid: usize, detect: bool) -> (r: Step)
        ensures
            !old(self).locked_view() ==> r == Step::Done,
            final(self).locked_view(),
            !old(self).locked_view() ==> final(mon).acquired(old(mon), tid as int, old(self).res_id() as int),
            old(self).locked_view() ==> final(mon).needed(old(mon), tid as int, old(self).res_id() as int),
            old(self).locked_view() ==> (r == Step::Deadlock <==> final(mon).check_refuses(detect)),
            old(self).locked_view() ==> (r == Step::Deadlock || r == Step::Yield),
    {
        if !self.locked {
            self.locked = true;
            mon.acquire(tid, self.resid);
            Step::Done
        } else {
            mon.need(tid, self.resid);
            if mon.check(detect).is_some() {
                Step::Deadlock
            } else {
                Step::Yield
            }
        }
    }

    /// Clears the lock and gives the unit back; nobody is woken.
    fn unlock(&mut self, mon: &mut ResMonitor, tid: usize) -> (r: Option<usize>)
        ensures
            r is None,
            !final(self).locked_view(),
            final(mon).released(old(mon), tid as int, old(self).res_id() as int),
    {
        self.locked = false;
        mon.release(tid, self.resid);
        None
    }
}

/// The state of a blocking mutex.
pub struct MutexBlockingInner {
    locked: bool,
    wait_queue: VecDeque<usize>,
}

/// A mutex whose contenders are parked in FIFO order.
pub struct MutexBlocking {
    inner: MutexBlockingInner,
    resid: u32,
}

impl MutexBlocking {
    /// The mutex is held.
    pub closed spec fn locked_view(&self) -> bool {
        self.inner.locked
    }

    /// The parked threads, oldest first.
    pub closed spec fn queue_view(&self) -> Seq<usize> {
        self.inner.wait_queue@
    }

    /// A fresh, unlocked mutex with no waiters, registered as a resource of
    /// capacity one.
    pub fn new(mon: &mut ResMonitor) -> (r: Self)
        requires
            old(mon).wf(),
            old(mon).n_res() < u32::MAX,
        ensures
            !r.locked_view(),
            r.queue_view() == Seq::<usize>::empty(),
            r.res_id() == old(mon).n_res(),
            final(mon).wf(),
            final(mon).n_res() == old(mon).n_res() + 1,
            final(mon).avail_view()[r.res_id() as int] == 1,
            final(mon).cap_view()[r.res_id() as int] == 1,
            final(mon).n_threads() == old(mon).n_threads(),
    {
        let resid = mon.create_res(1);
        MutexBlocking { inner: MutexBlockingInner { locked: false, wait_queue: VecDeque::new() }, resid }
    }

    /// Whether the mutex is held.
    pub fn is_held(&self) -> (r: bool)
        ensures
            r == self.locked_view(),
    {
        self.inner.locked
    }

    /// Number of parked threads.
    pub fn waiters(&self) -> (r: usize)
        ensures
            r == self.queue_view().len(),
    {
        self.inner.wait_queue.len()
    }
}

impl SyncRes for MutexBlocking {
    closed spec fn res_id(&self) -> u32 {
        self.resid
    }

    fn getid(&self) -> (r: u32) {
        self.resid
    }
}

impl Mutex for MutexBlocking {
    closed spec fn fits_monitor(&self, mon: &ResMonitor) -> bool {
        mon.wf() && self.resid < mon.n_res()
    }

    closed spec fn is_locked(&self) -> bool {
        self.inner.locked
    }

    /// A free mutex is taken at once. A held one records the caller's need;
    /// if the check refuses, the caller gets `Deadlock` and is not queued,
    /// else it joins the back of the queue and gets `Block`.
    fn lock(&mut self, mon: &mut ResMonitor, tid: usize, detect: bool) -> (r: Step)
        ensures
            !old(self).locked_view() ==> r == Step::Done && final(self).queue_view() == old(self).queue_view(),
            final(self).locked_view(),
            !old(self).locked_view() ==> final(mon).acquired(old(mon), tid as int, old(self).res_id() as int),
            old(self).locked_view() ==> final(mon).needed(old(mon), tid as int, old(self).res_id() as int),
            old(self).locked_view() ==> (r == Step::Deadlock <==> final(mon).check_refuses(detect)),
            old(self).locked_view() && r == Step::Deadlock ==> final(self).queue_view() == old(self).queue_view(),
            old(self).locked_view() && r != Step::Deadlock ==> r == Step::Block
                && final(self).queue_view() == old(self).queue_view().push(tid),
    {
        if !self.inner.locked {
            self.inner.locked = true;
            mon.acquire(tid, self.resid);
            Step::Done
        } else {
            mon.need(tid, self.resid);
            if mon.check(detect).is_some() {
                Step::Deadlock
            } else {
                self.inner.wait_queue.push_back(tid);
                Step::Block
            }
        }
    }

    /// Gives the unit back. The oldest waiter, if any, is woken and takes
    /// the mutex over (it stays locked); otherwise the mutex is cleared.
    fn unlock(&mut self, mon: &mut ResMonitor, tid: usize) -> (r: Option<usize>)
        ensures
            old(self).queue_view().len() == 0 ==> r is None && !final(self).locked_view()
                && final(self).queue_view().len() == 0,
            old(self).queue_view().len() > 0 ==> r == Some(old(self).queue_view()[0])
                && final(self).locked_view()
                && final(self).queue_view() == old(self).queue_view().drop_first(),
            final(mon).released(old(mon), tid as int, old(self).res_id() as int),
    {
        let woken = self.inner.wait_queue.pop_front();
        if woken.is_none() {
            self.inner.locked = false;
        }
        mon.release(tid, self.resid);
        woken
    }
}

} // verus!
