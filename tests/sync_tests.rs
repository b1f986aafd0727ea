use rcore_core::mutex::{Mutex, MutexBlocking, MutexSpin};
use rcore_core::resmon::{ResMonitor, DEAD_LOCK};
use rcore_core::semaphore::Semaphore;
use rcore_core::sync::{Step, SyncRes};
use rcore_core::syscall::process::{
    sys_get_time, sys_getpid, sys_mmap, sys_munmap, sys_sbrk, sys_set_priority, sys_task_info, sys_waitpid,
    sys_yield, ChildRecord, HeapBreak, MapArea, MemorySet, TaskInfo, TimeVal, BIG_STRIDE,
};
use rcore_core::task::{TaskContext, TaskControlBlock, TaskStatis, TaskStatus, MAX_SYSCALL_NUM};

#[test]
fn deadlock_two_mutexes_two_threads() {
    let mut mon = ResMonitor::new();
    let mut m1 = MutexBlocking::new(&mut mon);
    let mut m2 = MutexBlocking::new(&mut mon);
    let (a, b) = (1usize, 2usize);
    assert_eq!(m1.lock(&mut mon, a, true), Step::Done);
    assert_eq!(m2.lock(&mut mon, b, true), Step::Done);
    assert_eq!(m2.lock(&mut mon, a, true), Step::Block);
    let second = m1.lock(&mut mon, b, true);
    assert_eq!(second, Step::Deadlock);
    assert_eq!(second.code(), -0xDEAD);
    assert_eq!(DEAD_LOCK, -0xDEAD);
    assert_eq!(mon.alloc_of(a, m1.getid()), 1);
    assert_eq!(mon.alloc_of(b, m2.getid()), 1);
    assert_eq!(mon.alloc_of(a, m2.getid()), 0);
    assert_eq!(mon.alloc_of(b, m1.getid()), 0);
    assert_eq!(m1.waiters(), 0);
    assert_eq!(m2.waiters(), 1);
}

#[test]
fn same_requests_without_detection_block() {
    let mut mon = ResMonitor::new();
    let mut m1 = MutexBlocking::new(&mut mon);
    let mut m2 = MutexBlocking::new(&mut mon);
    assert_eq!(m1.lock(&mut mon, 1, false), Step::Done);
    assert_eq!(m2.lock(&mut mon, 2, false), Step::Done);
    assert_eq!(m2.lock(&mut mon, 1, false), Step::Block);
    assert_eq!(m1.lock(&mut mon, 2, false), Step::Block);
    assert_eq!(mon.check(false), None);
    assert!(mon.check(true).is_some());
}

#[test]
fn blocking_unlock_hands_over_in_order() {
    let mut mon = ResMonitor::new();
    let mut m = MutexBlocking::new(&mut mon);
    assert_eq!(m.lock(&mut mon, 0, false), Step::Done);
    assert_eq!(m.lock(&mut mon, 1, false), Step::Block);
    assert_eq!(m.lock(&mut mon, 2, false), Step::Block);
    assert_eq!(m.unlock(&mut mon, 0), Some(1));
    assert!(m.is_held());
    assert_eq!(m.waiters(), 1);
    assert_eq!(mon.avail_of(m.getid()), 1);
}

#[test]
fn spin_mutex_yields_when_held() {
    let mut mon = ResMonitor::new();
    let mut m = MutexSpin::new(&mut mon);
    assert!(!m.is_held());
    assert_eq!(m.lock(&mut mon, 0, true), Step::Done);
    assert_eq!(mon.avail_of(m.getid()), 0);
    assert_eq!(m.lock(&mut mon, 1, true), Step::Yield);
    assert_eq!(mon.need_of(1, m.getid()), 1);
    assert_eq!(m.unlock(&mut mon, 0), None);
    assert!(!m.is_held());
    assert_eq!(mon.avail_of(m.getid()), 1);
    assert_eq!(m.lock(&mut mon, 1, true), Step::Done);
    assert_eq!(mon.need_of(1, m.getid()), 0);
    assert_eq!(Step::Yield.code(), 0);
}

#[test]
fn semaphore_wakes_in_fifo_order() {
    let mut mon = ResMonitor::new();
    let mut s = Semaphore::new(0, &mut mon);
    for t in [1usize, 2, 3] {
        assert_eq!(s.down(&mut mon, t, false), Step::Block);
    }
    let mut woken = Vec::new();
    for _ in 0..3 {
        woken.push(s.up(&mut mon, 0).expect("a waiter"));
    }
    assert_eq!(woken, vec![1, 2, 3]);
    assert_eq!(s.up(&mut mon, 0), None);
}

#[test]
fn semaphore_counts_and_conserves_units() {
    let mut mon = ResMonitor::new();
    let mut s = Semaphore::new(2, &mut mon);
    let r = s.getid();
    assert_eq!(mon.avail_of(r), 2);
    assert_eq!(s.down(&mut mon, 1, true), Step::Done);
    assert_eq!(mon.avail_of(r), 1);
    assert_eq!(mon.alloc_of(1, r), 1);
    assert_eq!(mon.avail_of(r) + mon.alloc_of(1, r) as i64, 2);
    assert_eq!(s.down(&mut mon, 2, true), Step::Done);
    assert_eq!(s.down(&mut mon, 3, true), Step::Block);
    assert_eq!(s.inner.count, -1);
    assert_eq!(s.inner.wait_queue.len(), 1);
    let (avail, alloc, need) = mon.dump_res();
    assert_eq!(avail, vec![0]);
    assert_eq!(alloc, vec![vec![0], vec![1], vec![1], vec![0]]);
    assert_eq!(need, vec![vec![0], vec![0], vec![0], vec![1]]);
}

#[test]
fn monitor_accepts_safe_state() {
    let mut mon = ResMonitor::new();
    assert_eq!(mon.create_res(1), 0);
    assert_eq!(mon.create_res(3), 1);
    assert_eq!(mon.res_count(), 2);
    mon.acquire(0, 0);
    mon.need(1, 0);
    mon.need(1, 0);
    assert_eq!(mon.need_of(1, 0), 1);
    assert_eq!(mon.check(true), None);
    mon.release(0, 0);
    assert_eq!(mon.avail_of(0), 1);
    assert_eq!(mon.alloc_of(0, 0), 0);
    assert_eq!(mon.alloc_of(7, 1), 0);
}

#[test]
fn monitor_names_a_stuck_thread() {
    let mut mon = ResMonitor::new();
    mon.create_res(1);
    mon.acquire(0, 0);
    mon.need(0, 0);
    assert_eq!(mon.check(true), Some(0));
}

#[test]
fn get_time_splits_microseconds() {
    let mut ts = TimeVal { sec: 0, usec: 0 };
    assert_eq!(sys_get_time(1_234_567, &mut ts), 0);
    assert_eq!((ts.sec, ts.usec), (1, 234_567));
    assert_eq!(sys_get_time(999_999, &mut ts), 0);
    assert_eq!((ts.sec, ts.usec), (0, 999_999));
}

#[test]
fn mmap_and_munmap_rules() {
    let mut ms = MemorySet { areas: Vec::new() };
    assert_eq!(sys_mmap(&mut ms, 4097, 4096, 3), -1);
    assert_eq!(sys_mmap(&mut ms, 4096, 4096, 0), -1);
    assert_eq!(sys_mmap(&mut ms, 4096, 4096, 8), -1);
    assert_eq!(sys_mmap(&mut ms, 4096, 4097, 3), 0);
    assert_eq!(ms.areas, vec![MapArea { start_vpn: 1, end_vpn: 3, perm: 0b10110 }]);
    assert_eq!(sys_mmap(&mut ms, 8192, 10, 1), -1);
    assert_eq!(sys_mmap(&mut ms, 12288, 4096, 7), 0);
    assert_eq!(sys_munmap(&mut ms, 4096, 4096 * 4), -1);
    assert_eq!(sys_munmap(&mut ms, 4095, 1), -1);
    assert_eq!(sys_munmap(&mut ms, 12288, 4096), 0);
    assert_eq!(ms.areas.len(), 1);
    assert_eq!(sys_munmap(&mut ms, 12288, 4096), -1);
}

#[test]
fn waitpid_reaps_first_zombie() {
    let mut children = vec![
        ChildRecord { pid: 5, zombie: false, exit_code: 0 },
        ChildRecord { pid: 6, zombie: true, exit_code: 42 },
        ChildRecord { pid: 7, zombie: true, exit_code: 9 },
    ];
    let mut code = 0;
    assert_eq!(sys_waitpid(&mut children, 9, &mut code), -1);
    assert_eq!(sys_waitpid(&mut children, 5, &mut code), -2);
    assert_eq!(sys_waitpid(&mut children, -1, &mut code), 6);
    assert_eq!(code, 42);
    assert_eq!(children.len(), 2);
    assert_eq!(sys_waitpid(&mut children, 7, &mut code), 7);
    assert_eq!(code, 9);
    assert_eq!(children, vec![ChildRecord { pid: 5, zombie: false, exit_code: 0 }]);
}

#[test]
fn sbrk_moves_break_within_heap() {
    let mut brk = HeapBreak { heap_bottom: 0x1000, program_brk: 0x1000 };
    assert_eq!(sys_sbrk(0x100, &mut brk), 0x1000);
    assert_eq!(brk.program_brk, 0x1100);
    assert_eq!(sys_sbrk(-0x200, &mut brk), -1);
    assert_eq!(brk.program_brk, 0x1100);
    assert_eq!(sys_sbrk(-0x100, &mut brk), 0x1100);
    assert_eq!(brk.program_brk, 0x1000);
}

#[test]
fn priority_and_simple_calls() {
    let mut pass = 7usize;
    assert_eq!(sys_set_priority(1, &mut pass), -1);
    assert_eq!(pass, 7);
    assert_eq!(sys_set_priority(16, &mut pass), 16);
    assert_eq!(pass, 16 / BIG_STRIDE);
    assert_eq!(sys_getpid(12), 12);
    assert_eq!(sys_yield(), 0);
}

#[test]
fn task_info_reports_counts_and_time() {
    let mut tcb = TaskControlBlock {
        task_status: TaskStatus::Running,
        task_cx: TaskContext { ra: 0, sp: 0, s: [0; 12] },
        statis: TaskStatis::default(),
    };
    tcb.statis.starttime = 100;
    tcb.record_syscall(64);
    tcb.record_syscall(64);
    tcb.record_syscall(MAX_SYSCALL_NUM);
    let mut ti = TaskInfo { status: TaskStatus::UnInit, syscall_times: [0; MAX_SYSCALL_NUM], time: 0 };
    assert_eq!(sys_task_info(&tcb, 350, &mut ti), 0);
    assert_eq!(ti.status, TaskStatus::Running);
    assert_eq!(ti.syscall_times[64], 2);
    assert_eq!(ti.syscall_times[63], 0);
    assert_eq!(ti.time, 250);
}

#[test]
fn semaphore_down_refused_on_cycle() {
    let mut mon = ResMonitor::new();
    let mut s1 = Semaphore::new(1, &mut mon);
    let mut s2 = Semaphore::new(1, &mut mon);
    assert_eq!(s1.down(&mut mon, 1, true), Step::Done);
    assert_eq!(s2.down(&mut mon, 2, true), Step::Done);
    assert_eq!(s2.down(&mut mon, 1, true), Step::Block);
    assert_eq!(s1.down(&mut mon, 2, true), Step::Deadlock);
    assert_eq!(s1.inner.count, 0);
    assert_eq!(s1.inner.wait_queue.len(), 0);
    assert_eq!(s2.inner.count, -1);
    assert_eq!(mon.alloc_of(1, s1.getid()), 1);
    assert_eq!(mon.alloc_of(2, s2.getid()), 1);
}
