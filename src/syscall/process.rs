//! Process-management system calls.
use vstd::prelude::*;
use crate::task::{TaskControlBlock, TaskStatus, MAX_SYSCALL_NUM};
use crate::efs::EasyFileSystem;
use crate::vfs::{Inode, has_name, first_named};

verus! {

/// Size of a page in bytes.
pub const PAGE_SIZE: usize = 4096;

/// Stride numerator of the stride scheduler.
pub const BIG_STRIDE: usize = 0x10000;

/// A time split into seconds and microseconds.
#[derive(Clone, Copy, Debug)]
pub struct TimeVal {
    /// Whole seconds.
    pub sec: usize,
    /// Microseconds past `sec`.
    pub usec: usize,
}

/// What a task reports about itself.
pub struct TaskInfo {
    /// The task's status in its life cycle.
    pub status: TaskStatus,
    /// How many times each system call was made.
    pub syscall_times: [u32; MAX_SYSCALL_NUM],
    /// Time since the task first ran.
    pub time: usize,
}

/// Splits a time in microseconds into `*ts`; returns 0.
pub fn sys_get_time(us: usize, ts: &mut TimeVal) -> (r: isize)
    ensures
        r == 0,
        final(ts).sec == us / 1_000_000,
        final(ts).usec == us % 1_000_000,
        final(ts).sec * 1_000_000 + final(ts).usec == us,
{
    *ts = TimeVal { sec: us / 1_000_000, usec: us % 1_000_000 };
    0
}

/// Fills `*ti` with the task's status, its system-call counts and the time
/// since it first ran (`now` in the same unit as its start time); returns 0.
pub fn sys_task_info(tcb: &TaskControlBlock, now: usize, ti: &mut TaskInfo) -> (r: isize)
    requires
        now >= tcb.statis.starttime,
    ensures
        r == 0,
        final(ti).status == tcb.task_status,
        final(ti).syscall_times@ == tcb.statis.syscall_times@,
        final(ti).time == now - tcb.statis.starttime,
{
    *ti = TaskInfo {
        status: tcb.task_status,
        syscall_times: tcb.statis.syscall_times,
        time: now - tcb.statis.starttime,
    };
    0
}

/// The current task gives up the processor; the caller yields, then
/// returns this value.
pub fn sys_yield() -> (r: isize)
    ensures
        r == 0,
{
    0
}

/// The id of the current task as a system-call result.
pub fn sys_getpid(pid: usize) -> (r: isize)
    requires
        pid <= isize::MAX,
    ensures
        r == pid,
{
    pid as isize
}

/// Sets the priority. A priority below 2 is refused with -1; otherwise the
/// pass becomes `prio / BIG_STRIDE` and the priority is returned.
pub fn sys_set_priority(prio: isize, pass: &mut usize) -> (r: isize)
    ensures
        prio < 2 ==> r == -1 && *final(pass) == *old(pass),
        prio >= 2 ==> r == prio && *final(pass) == prio as usize / BIG_STRIDE,
{
    if prio < 2 {
        return -1;
    }
    *pass = prio as usize / BIG_STRIDE;
    prio
}

/// A child of the current process, as `waitpid` sees it.
#[derive(Clone, Copy, PartialEq, Eq, Structural, Debug)]
pub struct ChildRecord {
    /// Its process id.
    pub pid: usize,
    /// It has exited and waits to be reaped.
    pub zombie: bool,
    /// Its exit code, once it has exited.
    pub exit_code: i32,
}

/// `pid == -1` selects any child; otherwise the child with that id.
pub open spec fn selects(pid: isize, c: ChildRecord) -> bool {
    pid == -1 || (pid >= 0 && pid as int == c.pid as int)
}

/// A zombie child that `pid` selects.
pub open spec fn reapable(pid: isize, c: ChildRecord) -> bool {
    c.zombie && selects(pid, c)
}

/// `i` is the first child that `pid` can reap.
pub open spec fn first_zombie_at(children: Seq<ChildRecord>, pid: isize, i: int) -> bool {
    &&& 0 <= i < children.len()
    &&& reapable(pid, children[i])
    &&& forall|j: int| 0 <= j < i ==> !reapable(pid, #[trigger] children[j])
}

/// Waits for a child. No child that `pid` selects: -1. None of them has
/// exited: -2. Otherwise the first such zombie is removed from `children`,
/// its exit code is stored in `*exit_code`, and its id is returned.
pub fn sys_waitpid(children: &mut Vec<ChildRecord>, pid: isize, exit_code: &mut i32) -> (r: isize)
    requires
        forall|i: int| 0 <= i < old(children)@.len() ==> #[trigger] old(children)@[i].pid <= isize::MAX,
    ensures
        !(exists|i: int| 0 <= i < old(children)@.len() && selects(pid, #[trigger] old(children)@[i])) ==> r == -1
            && final(children)@ == old(children)@ && *final(exit_code) == *old(exit_code),
        (exists|i: int| 0 <= i < old(children)@.len() && selects(pid, #[trigger] old(children)@[i]))
            && !(exists|i: int| 0 <= i < old(children)@.len() && reapable(pid, #[trigger] old(children)@[i])) ==> r == -2
            && final(children)@ == old(children)@ && *final(exit_code) == *old(exit_code),
        forall|i: int| first_zombie_at(old(children)@, pid, i) ==> r == old(children)@[i].pid && *final(exit_code)
            == old(children)@[i].exit_code && final(children)@ == old(children)@.remove(i),
{
    let n = children.len();
    let mut any = false;
    let mut i: usize = 0;
    while i < n
        invariant
            n == children@.len(),
            children@ == old(children)@,
            i <= n,
            any <==> exists|j: int| 0 <= j < i && selects(pid, #[trigger] children@[j]),
        decreases n - i,
    {
        if pid == -1 || (pid >= 0 && pid as usize == children[i].pid) {
            any = true;
            assert(selects(pid, children@[i as int]));
        }
        i = i + 1;
    }
    if !any {
        return -1;
    }
    assert(forall|j: int| 0 <= j < n ==> #[trigger] children@[j].pid <= isize::MAX);
    let mut i: usize = 0;
    while i < n
        invariant
            n == children@.len(),
            children@ == old(children)@,
            *exit_code == *old(exit_code),
            i <= n,
            forall|j: int| 0 <= j < n ==> #[trigger] children@[j].pid <= isize::MAX,
            forall|j: int| 0 <= j < i ==> !reapable(pid, #[trigger] children@[j]),
        decreases n - i,
    {
        let c = children[i];
        assert(c == old(children)@[i as int]);
        if c.zombie && (pid == -1 || (pid >= 0 && pid as usize == c.pid)) {
            proof {
                assert forall|k: int| first_zombie_at(old(children)@, pid, k) implies k == i as int by {
                    if k > i {
                        assert(!reapable(pid, old(children)@[i as int]));
                    }
                }
            }
            children.remove(i);
            *exit_code = c.exit_code;
            return c.pid as isize;
        }
        i = i + 1;
    }
    -2
}

/// A mapped range of virtual pages `[start_vpn, end_vpn)`.
#[derive(Clone, Copy, PartialEq, Eq, Structural, Debug)]
pub struct MapArea {
    /// First page.
    pub start_vpn: usize,
    /// One past the last page.
    pub end_vpn: usize,
    /// Page-table permission bits: R, W, X at bits 1 to 3, U at bit 4.
    pub perm: u8,
}

/// The areas mapped in a user address space.
pub struct MemorySet {
    pub areas: Vec<MapArea>,
}

/// Page `vpn` lies in some area.
pub open spec fn is_mapped(areas: Seq<MapArea>, vpn: int) -> bool {
    exists|k: int| 0 <= k < areas.len() && areas[k].start_vpn <= vpn < #[trigger] areas[k].end_vpn
}

/// First page of an address range starting at `start`.
pub open spec fn vpn_floor(start: int) -> int {
    start / PAGE_SIZE as int
}

/// One past the last page of an address range ending at `end`.
pub open spec fn vpn_ceil(end: int) -> int {
    if end % PAGE_SIZE as int == 0 { end / PAGE_SIZE as int } else { end / PAGE_SIZE as int + 1 }
}

/// Port bits of `mmap`: some of R, W, X (bits 0 to 2) and nothing else.
pub open spec fn port_ok(port: usize) -> bool {
    port & 0x7 != 0 && port & !0x7usize == 0
}

fn page_ceil(end: usize) -> (r: usize)
    ensures
        r == vpn_ceil(end as int),
{
    if end % PAGE_SIZE == 0 { end / PAGE_SIZE } else { end / PAGE_SIZE + 1 }
}

impl MemorySet {
    /// Some page in `[lo, hi)` is mapped.
    fn any_mapped(&self, lo: usize, hi: usize) -> (r: bool)
        ensures
            r == exists|v: int| lo <= v < hi && is_mapped(self.areas@, v),
    {
        let mut k: usize = 0;
        while k < self.areas.len()
            invariant
                k <= self.areas@.len(),
                forall|j: int| 0 <= j < k ==> !(lo < hi && lo < #[trigger] self.areas@[j].end_vpn && self.areas@[j].start_vpn < hi
                    && self.areas@[j].start_vpn < self.areas@[j].end_vpn),
            decreases self.areas@.len() - k,
        {
            let a = self.areas[k];
            if lo < hi && lo < a.end_vpn && a.start_vpn < hi && a.start_vpn < a.end_vpn {
                proof {
                    assert(a == self.areas@[k as int]);
                    let v = if lo > a.start_vpn { lo as int } else { a.start_vpn as int };
                    assert(lo <= v < hi);
                    assert(self.areas@[k as int].start_vpn <= v < self.areas@[k as int].end_vpn);
                    assert(is_mapped(self.areas@, v));
                }
                return true;
            }
            k = k + 1;
        }
        proof {
            assert forall|v: int| lo <= v < hi implies !is_mapped(self.areas@, v) by {
                if is_mapped(self.areas@, v) {
                    let j = choose|j: int| 0 <= j < self.areas@.len() && self.areas@[j].start_vpn <= v < #[trigger] self.areas@[j].end_vpn;
                    assert(!(lo < hi && lo < self.areas@[j].end_vpn && self.areas@[j].start_vpn < hi && self.areas@[j].start_vpn < self.areas@[j].end_vpn));
                }
            }
        }
        false
    }

    /// Page `vpn` is mapped.
    fn mapped(&self, vpn: usize) -> (r: bool)
        ensures
            r == is_mapped(self.areas@, vpn as int),
    {
        let mut k: usize = 0;
        while k < self.areas.len()
            invariant
                k <= self.areas@.len(),
                forall|j: int| 0 <= j < k ==> !(#[trigger] self.areas@[j].start_vpn <= vpn < self.areas@[j].end_vpn),
            decreases self.areas@.len() - k,
        {
            if self.areas[k].start_vpn <= vpn && vpn < self.areas[k].end_vpn {
                return true;
            }
            k = k + 1;
        }
        false
    }
}

/// Maps `[start, start + len)` with permissions from `port`. Refused with -1
/// when `start` is not page aligned, when `port` has no R/W/X bit or any
/// other bit, or when a page of the range is mapped already; otherwise the
/// area is added and 0 returned.
pub fn sys_mmap(ms: &mut MemorySet, start: usize, len: usize, port: usize) -> (r: isize)
    requires
        start + len <= usize::MAX,
    ensures
        ({
            let lo = vpn_floor(start as int);
            let hi = vpn_ceil(start + len);
            let ok = start % PAGE_SIZE == 0 && port_ok(port)
                && !(exists|v: int| lo <= v < hi && is_mapped(old(ms).areas@, v));
            &&& ok ==> r == 0 && final(ms).areas@ == old(ms).areas@.push(
                MapArea { start_vpn: lo as usize, end_vpn: hi as usize, perm: ((port << 1) | 16) as u8 },
            )
            &&& !ok ==> r == -1 && final(ms).areas@ == old(ms).areas@
        }),
{
    if start % PAGE_SIZE != 0 {
        return -1;
    }
    if (port & 0x7) == 0 || (port & !0x7usize) != 0 {
        return -1;
    }
    let lo = start / PAGE_SIZE;
    let hi = page_ceil(start + len);
    if ms.any_mapped(lo, hi) {
        return -1;
    }
    ms.areas.push(MapArea { start_vpn: lo, end_vpn: hi, perm: ((port << 1) | 16) as u8 });
    0
}

/// Index of the first area that starts at page `vpn`, if any.
pub open spec fn area_at(areas: Seq<MapArea>, vpn: int, k: int) -> bool {
    &&& 0 <= k < areas.len()
    &&& areas[k].start_vpn == vpn
    &&& forall|j: int| 0 <= j < k ==> #[trigger] areas[j].start_vpn != vpn
}

/// Unmaps `[start, start + len)`. Refused with -1 when `start` is not page
/// aligned or a page of the range is not mapped; otherwise the first area
/// that starts at the range's first page is removed (if there is one) and
/// 0 returned.
pub fn sys_munmap(ms: &mut MemorySet, start: usize, len: usize) -> (r: isize)
    requires
        start + len <= usize::MAX,
    ensures
        ({
            let lo = vpn_floor(start as int);
            let hi = vpn_ceil(start + len);
            let ok = start % PAGE_SIZE == 0 && forall|v: int| lo <= v < hi ==> is_mapped(old(ms).areas@, v);
            &&& !ok ==> r == -1 && final(ms).areas@ == old(ms).areas@
            &&& ok ==> r == 0
            &&& ok ==> forall|k: int| area_at(old(ms).areas@, lo, k) ==> final(ms).areas@ == old(ms).areas@.remove(k)
            &&& ok && (forall|k: int| 0 <= k < old(ms).areas@.len() ==> #[trigger] old(ms).areas@[k].start_vpn != lo)
                ==> final(ms).areas@ == old(ms).areas@
        }),
{
    if start % PAGE_SIZE != 0 {
        return -1;
    }
    let lo = start / PAGE_SIZE;
    let hi = page_ceil(start + len);
    assert(lo as int == vpn_floor(start as int));
    assert(hi as int == vpn_ceil(start + len));
    let mut v = lo;
    while v < hi
        invariant
            lo <= v,
            v <= hi || lo >= hi,
            lo as int == vpn_floor(start as int),
            hi as int == vpn_ceil(start + len),
            start % PAGE_SIZE == 0,
            ms.areas@ == old(ms).areas@,
            forall|u: int| lo <= u < v ==> is_mapped(ms.areas@, u),
        decreases hi - v,
    {
        if !ms.mapped(v) {
            proof {
                assert(!(forall|u: int| lo <= u < hi ==> is_mapped(old(ms).areas@, u))) by {
                    assert(!is_mapped(old(ms).areas@, v as int));
                }
            }
            return -1;
        }
        v = v + 1;
    }
    assert(forall|u: int| lo <= u < hi ==> is_mapped(old(ms).areas@, u));
    let mut k: usize = 0;
    while k < ms.areas.len()
        invariant
            k <= ms.areas@.len(),
            ms.areas@ == old(ms).areas@,
            forall|u: int| lo <= u < hi ==> is_mapped(old(ms).areas@, u),
            forall|j: int| 0 <= j < k ==> #[trigger] ms.areas@[j].start_vpn != lo,
            lo as int == vpn_floor(start as int),
            hi as int == vpn_ceil(start + len),
            start % PAGE_SIZE == 0,
        decreases ms.areas@.len() - k,
    {
        if ms.areas[k].start_vpn == lo {
            proof {
                assert forall|q: int| area_at(old(ms).areas@, lo as int, q) implies q == k as int by {
                    if q > k {
                        assert(old(ms).areas@[k as int].start_vpn != lo);
                    }
                }
            }
            assert(old(ms).areas@[k as int].start_vpn == lo);
            ms.areas.remove(k);
            return 0;
        }
        k = k + 1;
    }
    0
}

/// The bytes of the file `path` in the root directory, if there is one.
fn load_program(fs: &EasyFileSystem, path: &str) -> (r: Option<Vec<u8>>)
    requires
        fs.wf(),
    ensures
        r is Some <==> has_name(fs.root_entries(), path@),
        r matches Some(v) ==> forall|k: int| #[trigger] first_named(fs.root_entries(), path@, k)
            ==> v@ == fs.inodes@[fs.root_entries()[k].inode_number as int].data@,
{
    let root = Inode::root(fs);
    let h = match root.find(fs, path) {
        Some(h) => h,
        None => {
            return None;
        },
    };
    let t = h.inode_id(fs) as usize;
    let n = fs.inodes[t].data.len();
    let mut image: Vec<u8> = Vec::new();
    let mut i: usize = 0;
    while i < n
        invariant
            t < fs.n_inodes(),
            n == fs.inodes@[t as int].data@.len(),
            i <= n,
            image@ == fs.inodes@[t as int].data@.subrange(0, i as int),
        decreases n - i,
    {
        image.push(fs.inodes[t].data[i]);
        i = i + 1;
    }
    assert(image@ =~= fs.inodes@[t as int].data@);
    Some(image)
}

/// Replaces the current program with the file `path`: its bytes go to
/// `*image` and 0 is returned; -1, with `*image` untouched, when there is no
/// such file.
pub fn sys_exec(fs: &EasyFileSystem, path: &str, image: &mut Vec<u8>) -> (r: isize)
    requires
        fs.wf(),
    ensures
        has_name(fs.root_entries(), path@) <==> r == 0,
        r != 0 ==> r == -1 && final(image)@ == old(image)@,
        r == 0 ==> forall|k: int| #[trigger] first_named(fs.root_entries(), path@, k)
            ==> final(image)@ == fs.inodes@[fs.root_entries()[k].inode_number as int].data@,
{
    match load_program(fs, path) {
        Some(v) => {
            *image = v;
            0
        },
        None => -1,
    }
}

/// Starts the file `path` as a new process with id `new_pid`: its bytes go
/// to `*image` and `new_pid` is returned; -1, with `*image` untouched, when
/// there is no such file.
pub fn sys_spawn(fs: &EasyFileSystem, path: &str, new_pid: usize, image: &mut Vec<u8>) -> (r: isize)
    requires
        fs.wf(),
        new_pid <= isize::MAX,
    ensures
        has_name(fs.root_entries(), path@) <==> r == new_pid,
        !has_name(fs.root_entries(), path@) ==> r == -1 && final(image)@ == old(image)@,
        r == new_pid ==> forall|k: int| #[trigger] first_named(fs.root_entries(), path@, k)
            ==> final(image)@ == fs.inodes@[fs.root_entries()[k].inode_number as int].data@,
{
    match load_program(fs, path) {
        Some(v) => {
            *image = v;
            new_pid as isize
        },
        None => -1,
    }
}

/// The current break of a process's heap and its lowest allowed value.
#[derive(Clone, Copy, PartialEq, Eq, Structural, Debug)]
pub struct HeapBreak {
    /// The heap may not shrink below this address.
    pub heap_bottom: usize,
    /// The current break.
    pub program_brk: usize,
}

/// Moves the break by `size` bytes. A break that would fall below the heap
/// bottom (or leave the address range) is refused with -1; otherwise the
/// old break is returned.
pub fn sys_sbrk(size: i32, brk: &mut HeapBreak) -> (r: isize)
    requires
        old(brk).program_brk <= isize::MAX,
    ensures
        ({
            let new_brk = old(brk).program_brk + size;
            if old(brk).heap_bottom <= new_brk <= usize::MAX {
                r == old(brk).program_brk && final(brk).program_brk == new_brk && final(brk).heap_bottom
                    == old(brk).heap_bottom
            } else {
                r == -1 && *final(brk) == *old(brk)
            }
        }),
{
    let cur = brk.program_brk;
    if size < 0 {
        let dec = (-(size as i64)) as usize;
        if dec > cur || cur - dec < brk.heap_bottom {
            return -1;
        }
        brk.program_brk = cur - dec;
    } else {
        let inc = size as usize;
        if inc > usize::MAX - cur || cur + inc < brk.heap_bottom {
            return -1;
        }
        brk.program_brk = cur + inc;
    }
    cur as isize
}

} // verus!
