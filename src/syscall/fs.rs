//! File and filesystem system calls over a process's descriptor table and
//! the root directory.
use vstd::prelude::*;
use crate::efs::{EasyFileSystem, DIRENT_SZ, total_blocks};
use crate::vfs::{
    Inode, StatMode, has_name, first_named, appended, others_refer, content_of, can_write, read_len, write_bytes, names_with, valid_name, has_free_inode, root_can_grow,
};

verus! {

/// Open for writing only.
pub const O_WRONLY: u32 = 1;
/// Open for reading and writing.
pub const O_RDWR: u32 = 2;
/// Create the file if it does not exist (and truncate it if it does).
pub const O_CREATE: u32 = 512;
/// Truncate the file.
pub const O_TRUNC: u32 = 1024;

/// Flags of `open` that are understood.
pub open spec fn flags_known(flags: u32) -> bool {
    flags & !(O_WRONLY | O_RDWR | O_CREATE | O_TRUNC) == 0
}

/// Whether a file opened with `flags` is readable and writable: no access
/// bit reads only, `O_WRONLY` writes only, `O_RDWR` does both.
pub open spec fn access_of(flags: u32) -> (bool, bool) {
    if flags & (O_WRONLY | O_RDWR) == 0 {
        (true, false)
    } else if flags & O_WRONLY != 0 {
        (false, true)
    } else {
        (true, true)
    }
}

/// An open file: a handle, a position, and the access granted.
#[derive(Clone, Copy, PartialEq, Eq, Structural, Debug)]
pub struct OpenFile {
    pub inode: Inode,
    pub offset: usize,
    pub readable: bool,
    pub writable: bool,
}

/// A process's descriptor table.
pub struct FdTable {
    pub files: Vec<Option<OpenFile>>,
}

/// File status as `fstat` reports it.
#[derive(Clone, Copy, Debug)]
pub struct Stat {
    /// Device id, always 0.
    pub dev: u64,
    /// Inode number.
    pub ino: u64,
    /// Directory or regular file.
    pub mode: StatMode,
    /// Number of names for the inode.
    pub nlink: u32,
    /// Unused.
    pub pad: [u64; 7],
}

impl FdTable {
    /// An empty table.
    pub fn new() -> (r: Self)
        ensures
            r.files@.len() == 0,
    {
        FdTable { files: Vec::new() }
    }

    /// Every open file's handle lies on an inode of `fs`.
    pub open spec fn wf(&self, fs: &EasyFileSystem) -> bool {
        forall|i: int| 0 <= i < self.files@.len() && (#[trigger] self.files@[i]) is Some ==> self.files@[i]->Some_0.inode.valid(fs)
    }

    /// The open file at `fd`, if any.
    pub open spec fn at(&self, fd: int) -> Option<OpenFile> {
        if 0 <= fd < self.files@.len() { self.files@[fd] } else { None }
    }
}

/// Two filesystems have the same inode table size and layout, so that a
/// handle valid in one is valid in the other.
pub open spec fn same_shape(a: &EasyFileSystem, b: &EasyFileSystem) -> bool {
    a.n_inodes() == b.n_inodes() && a.inode_area_start_block == b.inode_area_start_block
}

proof fn lemma_table_shape(t: &FdTable, a: &EasyFileSystem, b: &EasyFileSystem)
    requires
        t.wf(a),
        same_shape(a, b),
    ensures
        t.wf(b),
{
    assert forall|i: int| 0 <= i < t.files@.len() && (#[trigger] t.files@[i]) is Some implies t.files@[i]->Some_0.inode.valid(b) by {
        assert(t.files@[i]->Some_0.inode.valid(a));
    }
}

/// Opens `path` in the root directory. With `O_CREATE` an existing file is
/// truncated and a missing one created; without it a missing file is an
/// error and `O_TRUNC` truncates. The returned file starts at offset 0.
pub fn open_file(fs: &mut EasyFileSystem, path: &str, flags: u32) -> (r: Option<OpenFile>)
    requires
        old(fs).wf(),
        flags_known(flags),
    ensures
        final(fs).wf(),
        same_shape(final(fs), old(fs)),
        flags & O_CREATE == 0 ==> (r is Some <==> has_name(old(fs).root_entries(), path@)),
        flags & O_CREATE != 0 ==> (r is Some <==> has_name(old(fs).root_entries(), path@) || (valid_name(path)
            && has_free_inode(old(fs)) && root_can_grow(old(fs)))),
        r matches Some(f) ==> f.inode.valid(final(fs)) && f.offset == 0 && (f.readable, f.writable) == access_of(flags),
        r matches Some(f) ==> final(fs).root_entries().len() >= 1 && has_name(final(fs).root_entries(), path@),
        r matches Some(f) ==> forall|k: int| #[trigger] first_named(final(fs).root_entries(), path@, k)
            ==> f.inode.refers(final(fs), final(fs).root_entries()[k].inode_number as int),
{
    let (readable, writable) = if flags & (O_WRONLY | O_RDWR) == 0 {
        (true, false)
    } else if flags & O_WRONLY != 0 {
        (false, true)
    } else {
        (true, true)
    };
    let root = Inode::root(fs);
    if flags & O_CREATE != 0 {
        match root.find(fs, path) {
            Some(inode) => {
                inode.clear(fs);
                proof {
                    let k = choose|k: int| 0 <= k < old(fs).root_entries().len() && (#[trigger] old(fs).root_entries()[k]).name@ == path@;
                    assert(fs.inodes@[0] == old(fs).inodes@[0]);
                    assert(fs.root_entries()[k].name@ == path@);
                }
                Some(OpenFile { inode, offset: 0, readable, writable })
            },
            None => {
                match root.create(fs, path) {
                    Some(inode) => {
                        proof {
                            let last = fs.root_entries().len() - 1;
                            assert(fs.root_entries()[last] == fs.root_entries().last());
                            assert forall|k: int| #[trigger] first_named(fs.root_entries(), path@, k) implies k == last by {
                                if k < last {
                                    assert(old(fs).root_entries()[k] == fs.root_entries()[k]);
                                }
                            }
                        }
                        Some(OpenFile { inode, offset: 0, readable, writable })
                    },
                    None => None,
                }
            },
        }
    } else {
        match root.find(fs, path) {
            Some(inode) => {
                if flags & O_TRUNC != 0 {
                    inode.clear(fs);
                }
                proof {
                    let k = choose|k: int| 0 <= k < old(fs).root_entries().len() && (#[trigger] old(fs).root_entries()[k]).name@ == path@;
                    assert(fs.inodes@[0] == old(fs).inodes@[0]);
                    assert(fs.root_entries()[k].name@ == path@);
                }
                Some(OpenFile { inode, offset: 0, readable, writable })
            },
            None => None,
        }
    }
}

/// Opens `path` and returns the lowest free descriptor, or -1 when the
/// flags hold an unknown bit or the file cannot be opened.
pub fn sys_open(fs: &mut EasyFileSystem, table: &mut FdTable, path: &str, flags: u32) -> (r: isize)
    requires
        old(fs).wf(),
        old(table).wf(old(fs)),
        old(table).files@.len() < isize::MAX,
    ensures
        final(fs).wf(),
        final(table).wf(final(fs)),
        !flags_known(flags) ==> r == -1 && *final(fs) == *old(fs),
        flags_known(flags) && flags & O_CREATE == 0 ==> (r >= 0 <==> has_name(old(fs).root_entries(), path@)),
        flags_known(flags) && flags & O_CREATE != 0 ==> (r >= 0 <==> has_name(old(fs).root_entries(), path@) || (
        valid_name(path) && has_free_inode(old(fs)) && root_can_grow(old(fs)))),
        r < 0 ==> r == -1 && final(table).files@ == old(table).files@,
        r >= 0 ==> (final(table).at(r as int)->Some_0.readable, final(table).at(r as int)->Some_0.writable) == access_of(flags)
            && forall|k: int| #[trigger] first_named(final(fs).root_entries(), path@, k)
                ==> final(table).at(r as int)->Some_0.inode.refers(final(fs), final(fs).root_entries()[k].inode_number as int),
        r >= 0 ==> final(table).at(r as int) is Some && final(table).at(r as int)->Some_0.offset == 0
            && (forall|i: int| 0 <= i < r ==> #[trigger] old(table).at(i) is Some)
            && (old(table).at(r as int) is None)
            && (forall|i: int| 0 <= i < old(table).files@.len() && i != r ==> #[trigger] final(table).files@[i] == old(table).files@[i]),
{
    if flags & !(O_WRONLY | O_RDWR | O_CREATE | O_TRUNC) != 0 {
        return -1;
    }
    let f = open_file(fs, path, flags);
    proof {
        lemma_table_shape(table, old(fs), fs);
    }
    let f = match f {
        Some(f) => f,
        None => {
            return -1;
        },
    };
    let n = table.files.len();
    let mut i: usize = 0;
    while i < n
        invariant
            n == table.files@.len(),
            n < isize::MAX,
            table.files@ == old(table).files@,
            fs.wf(),
            table.wf(fs),
            f.inode.valid(fs),
            f.offset == 0,
            (f.readable, f.writable) == access_of(flags),
            forall|k: int| #[trigger] first_named(fs.root_entries(), path@, k)
                ==> f.inode.refers(fs, fs.root_entries()[k].inode_number as int),
            flags_known(flags),
            flags & O_CREATE == 0 ==> has_name(old(fs).root_entries(), path@),
            flags & O_CREATE != 0 ==> has_name(old(fs).root_entries(), path@) || (valid_name(path) && has_free_inode(
                old(fs),
            ) && root_can_grow(old(fs))),
            i <= n,
            forall|j: int| 0 <= j < i ==> #[trigger] table.files@[j] is Some,
        decreases n - i,
    {
        if table.files[i].is_none() {
            proof {
                assert forall|j: int| 0 <= j < i implies #[trigger] old(table).at(j) is Some by {
                    assert(table.files@[j] is Some);
                }
            }
            table.files.set(i, Some(f));
            proof {
                assert forall|j: int| 0 <= j < table.files@.len() && (#[trigger] table.files@[j]) is Some implies table.files@[j]->Some_0.inode.valid(fs) by {
                    if j != i {
                        assert(old(table).files@[j] == table.files@[j]);
                    }
                }
            }
            return i as isize;
        }
        i = i + 1;
    }
    proof {
        assert forall|j: int| 0 <= j < n implies #[trigger] old(table).at(j) is Some by {
            assert(table.files@[j] is Some);
        }
    }
    table.files.push(Some(f));
    proof {
        assert forall|j: int| 0 <= j < table.files@.len() && (#[trigger] table.files@[j]) is Some implies table.files@[j]->Some_0.inode.valid(fs) by {
            if j != n {
                assert(old(table).files@[j] == table.files@[j]);
            }
        }
    }
    n as isize
}

/// Closes `fd`: 0, or -1 when it is not open.
pub fn sys_close(table: &mut FdTable, fd: usize) -> (r: isize)
    ensures
        old(table).at(fd as int) is None ==> r == -1 && final(table).files@ == old(table).files@,
        old(table).at(fd as int) is Some ==> r == 0 && final(table).files@ == old(table).files@.update(fd as int, None),
{
    if fd >= table.files.len() {
        return -1;
    }
    if table.files[fd].is_none() {
        return -1;
    }
    table.files.set(fd, None);
    0
}

/// Writes `buf` through `fd` at its offset and moves the offset past what
/// was written. -1 when `fd` is not open for writing, or when a non-empty
/// write cannot be done; otherwise the byte count.
pub fn sys_write(fs: &mut EasyFileSystem, table: &mut FdTable, fd: usize, buf: &[u8]) -> (r: isize)
    requires
        old(fs).wf(),
        old(table).wf(old(fs)),
        buf@.len() <= isize::MAX,
    ensures
        final(fs).wf(),
        final(table).wf(final(fs)),
        final(table).files@.len() == old(table).files@.len(),
        forall|i: int| 0 <= i < old(table).files@.len() && i != fd ==> #[trigger] final(table).files@[i] == old(table).files@[i],
        ({
            let of = old(table).at(fd as int);
            &&& (of is None || !of->Some_0.writable) ==> r == -1 && *final(fs) == *old(fs) && final(table).files@ == old(table).files@
            &&& (of is Some && of->Some_0.writable) ==> {
                let f = of->Some_0;
                let t = f.inode.ino(old(fs));
                let ok = can_write(old(fs), t, f.offset as int, buf@.len() as int);
                &&& ok ==> r == buf@.len() && final(fs).inodes@[t].data@ == write_bytes(old(fs).inodes@[t].data@, f.offset as int, buf@)
                    && final(table).at(fd as int) == Some(OpenFile { offset: (f.offset + buf@.len()) as usize, ..f })
                &&& !ok && buf@.len() > 0 ==> r == -1 && *final(fs) == *old(fs)
            }
        }),
{
    if fd >= table.files.len() {
        return -1;
    }
    let f = match table.files[fd] {
        Some(f) => f,
        None => {
            return -1;
        },
    };
    if !f.writable {
        return -1;
    }
    proof {
        assert(old(table).files@[fd as int] is Some);
    }
    let n = f.inode.write_at(fs, f.offset, buf);
    proof {
        lemma_table_shape(table, old(fs), fs);
    }
    if n == 0 && buf.len() > 0 {
        return -1;
    }
    let nf = OpenFile { offset: f.offset + n, ..f };
    table.files.set(fd, Some(nf));
    proof {
        assert forall|j: int| 0 <= j < table.files@.len() && (#[trigger] table.files@[j]) is Some implies table.files@[j]->Some_0.inode.valid(fs) by {
            if j != fd {
                assert(old(table).files@[j] == table.files@[j]);
            }
        }
    }
    n as isize
}

/// Reads up to `buf.len()` bytes through `fd` at its offset into the front
/// of `buf` and moves the offset past them. -1 when `fd` is not open for
/// reading; otherwise the byte count.
pub fn sys_read(fs: &EasyFileSystem, table: &mut FdTable, fd: usize, buf: &mut Vec<u8>) -> (r: isize)
    requires
        fs.wf(),
        old(table).wf(fs),
        old(buf)@.len() <= isize::MAX,
    ensures
        final(table).wf(fs),
        final(table).files@.len() == old(table).files@.len(),
        forall|i: int| 0 <= i < old(table).files@.len() && i != fd ==> #[trigger] final(table).files@[i] == old(table).files@[i],
        ({
            let of = old(table).at(fd as int);
            &&& (of is None || !of->Some_0.readable) ==> r == -1 && final(table).files@ == old(table).files@ && final(buf)@ == old(buf)@
            &&& (of is Some && of->Some_0.readable) ==> {
                let f = of->Some_0;
                let d = content_of(fs, f.inode.ino(fs));
                let n = read_len(d, f.offset as int, old(buf)@.len() as int);
                &&& r == n
                &&& final(buf)@.len() == old(buf)@.len()
                &&& forall|i: int| 0 <= i < n ==> #[trigger] final(buf)@[i] == d[f.offset + i]
                &&& final(table).at(fd as int) == Some(OpenFile { offset: (f.offset + n) as usize, ..f })
            }
        }),
{
    if fd >= table.files.len() {
        return -1;
    }
    let f = match table.files[fd] {
        Some(f) => f,
        None => {
            return -1;
        },
    };
    if !f.readable {
        return -1;
    }
    proof {
        assert(old(table).files@[fd as int] is Some);
    }
    let n = f.inode.read_at(fs, f.offset, buf);
    proof {
        assert(fs.inode_sized(f.inode.ino(fs)));
    }
    let nf = OpenFile { offset: f.offset + n, ..f };
    table.files.set(fd, Some(nf));
    proof {
        assert forall|j: int| 0 <= j < table.files@.len() && (#[trigger] table.files@[j]) is Some implies table.files@[j]->Some_0.inode.valid(fs) by {
            if j != fd {
                assert(old(table).files@[j] == table.files@[j]);
            }
        }
    }
    n as isize
}

/// Fills `*st` for the file open at `fd`: its inode number, its mode, and
/// its link count (the names in the root that refer to it); 0. -1 when
/// `fd` is not open.
pub fn sys_fstat(fs: &EasyFileSystem, table: &FdTable, fd: usize, st: &mut Stat) -> (r: isize)
    requires
        fs.wf(),
        table.wf(fs),
    ensures
        table.at(fd as int) is None ==> r == -1 && *final(st) == *old(st),
        table.at(fd as int) matches Some(f) ==> {
            let ino = f.inode.ino(fs);
            &&& r == 0
            &&& final(st).dev == 0
            &&& final(st).ino == ino
            &&& final(st).nlink == names_with(fs.root_entries(), ino as u32).len()
            &&& (fs.allocated(ino) && ino == 0) ==> final(st).mode == StatMode::Dir
            &&& (fs.allocated(ino) && ino != 0) ==> final(st).mode == StatMode::File
            &&& !fs.allocated(ino) ==> final(st).mode == StatMode::Null
        },
{
    if fd >= table.files.len() {
        return -1;
    }
    let f = match table.files[fd] {
        Some(f) => f,
        None => {
            return -1;
        },
    };
    proof {
        assert(table.files@[fd as int] is Some);
    }
    let ino = f.inode.inode_id(fs);
    let mode = f.inode.mode(fs);
    let root = Inode::root(fs);
    let names = root.find_by_id(fs, ino);
    proof {
        assert(fs.inode_sized(0));
        assert(names@.len() == names@.map_values(|s: String| s@).len());
        lemma_names_with_len(fs.root_entries(), ino);
    }
    *st = Stat { dev: 0, ino: ino as u64, mode, nlink: names.len() as u32, pad: [0u64; 7] };
    0
}

/// No more names refer to an inode than there are entries.
proof fn lemma_names_with_len(entries: Seq<crate::efs::DirEntry>, id: u32)
    ensures
        names_with(entries, id).len() <= entries.len(),
    decreases entries.len(),
{
    if entries.len() > 0 {
        lemma_names_with_len(entries.drop_last(), id);
    }
}

/// Gives the file `old_name` the further name `new_name`: 0, or -1 when the
/// two names are equal or the link cannot be made.
pub fn sys_linkat(fs: &mut EasyFileSystem, old_name: &str, new_name: &str) -> (r: isize)
    requires
        old(fs).wf(),
    ensures
        final(fs).wf(),
        same_shape(final(fs), old(fs)),
        old_name@ == new_name@ ==> r == -1 && *final(fs) == *old(fs),
        old_name@ != new_name@ ==> (r == 0 <==> has_name(old(fs).root_entries(), old_name@) && valid_name(new_name)
            && root_can_grow(old(fs))),
        r != 0 ==> r == -1 && *final(fs) == *old(fs),
        r == 0 ==> has_name(old(fs).root_entries(), old_name@)
            && final(fs).root_entries().len() == old(fs).root_entries().len() + 1
            && final(fs).root_entries().last().name@ == new_name@,
        r == 0 ==> forall|k: int| #[trigger] first_named(old(fs).root_entries(), old_name@, k) ==> {
            &&& appended(final(fs), old(fs), new_name@, old(fs).root_entries()[k].inode_number as int)
            &&& final(fs).inode_bitmap@ == old(fs).inode_bitmap@
            &&& forall|j: int| 0 < j < old(fs).n_inodes() ==> #[trigger] final(fs).inodes@[j] == old(fs).inodes@[j]
        },
{
    if str_eq(old_name, new_name) {
        return -1;
    }
    let root = Inode::root(fs);
    root.vfs_link(fs, old_name, new_name)
}

/// Removes the name `name`: 0, or -1 when it is absent.
pub fn sys_unlinkat(fs: &mut EasyFileSystem, name: &str) -> (r: isize)
    requires
        old(fs).wf(),
    ensures
        final(fs).wf(),
        same_shape(final(fs), old(fs)),
        has_name(old(fs).root_entries(), name@) <==> r == 0,
        r != 0 ==> r == -1 && *final(fs) == *old(fs),
        r == 0 ==> final(fs).root_entries().len() == old(fs).root_entries().len() - 1,
        r == 0 ==> forall|k: int| #[trigger] first_named(old(fs).root_entries(), name@, k) ==> {
            let o = old(fs).root_entries();
            let id = o[k].inode_number;
            &&& final(fs).root_entries() == o.update(k, o.last()).drop_last()
            &&& final(fs).inodes@[0].size == old(fs).inodes@[0].size - DIRENT_SZ
            &&& forall|j: int| 0 < j < old(fs).n_inodes() && j != id ==> #[trigger] final(fs).inodes@[j] == old(fs).inodes@[j]
            &&& others_refer(o, k, id) ==> final(fs).inode_bitmap@ == old(fs).inode_bitmap@
                && final(fs).inodes@[id as int] == old(fs).inodes@[id as int]
            &&& !others_refer(o, k, id) ==> final(fs).inode_bitmap@ == old(fs).inode_bitmap@.update(id as int, false)
                && final(fs).inodes@[id as int].size == 0
                && final(fs).used_data() == old(fs).used_data() - (total_blocks(old(fs).inodes@[0].size as int)
                    - total_blocks(old(fs).inodes@[0].size - DIRENT_SZ)) - total_blocks(old(fs).inodes@[id as int].size as int)
        },
{
    let root = Inode::root(fs);
    root.vfs_unlink(fs, name)
}

/// Whether two strings hold the same characters.
fn str_eq(a: &str, b: &str) -> (r: bool)
    ensures
        r == (a@ == b@),
{
    let x = a.to_owned();
    let y = b.to_owned();
    x == y
}

} // verus!
