//! The virtual inode layer: handles onto disk inodes, the operations on the
//! root directory (create, link, unlink, lookup, list) and on files (read,
//! write, clear).
use vstd::prelude::*;
use vstd::utf8::encode_utf8;
use crate::persist::{dirent_bytes, lemma_dirent_round_trip};
use crate::efs::{
    EasyFileSystem, DirEntry, DiskInode, DiskInodeType, DIRENT_SZ, INODES_PER_BLOCK, DISK_INODE_SZ, NAME_LENGTH_LIMIT, MAX_FILE_SIZE,
    name_bytes_ok, total_blocks, free_count, first_clear, alloc_bit, blocks_num_needed, total_blocks_of, lemma_total_blocks_mono,
    lemma_free_count_clear, count_free,
};

verus! {

/// The mode of an inode.
#[derive(Clone, Copy, PartialEq, Eq, Structural, Debug)]
pub enum StatMode {
    /// Not an allocated inode.
    Null,
    /// A directory.
    Dir,
    /// A regular file.
    File,
}

impl StatMode {
    /// The mode bits that `fstat` reports.
    pub fn bits(&self) -> (r: u32)
        ensures
            *self == StatMode::Null ==> r == 0,
            *self == StatMode::Dir ==> r == 0o040000,
            *self == StatMode::File ==> r == 0o100000,
    {
        match self {
            StatMode::Null => 0,
            StatMode::Dir => 0o040000,
            StatMode::File => 0o100000,
        }
    }
}

/// Two states have the same inode table size and layout.
pub open spec fn same_layout(n: &EasyFileSystem, o: &EasyFileSystem) -> bool {
    n.n_inodes() == o.n_inodes() && n.inode_area_start_block == o.inode_area_start_block
}

/// Names of the entries that refer to inode `id`, in directory order.
pub open spec fn names_with(entries: Seq<DirEntry>, id: u32) -> Seq<Seq<char>>
    decreases entries.len(),
{
    if entries.len() == 0 {
        Seq::empty()
    } else {
        let rest = names_with(entries.drop_last(), id);
        if entries.last().inode_number == id {
            rest.push(entries.last().name@)
        } else {
            rest
        }
    }
}

/// Entry `k` is the first one named `name`.
pub open spec fn first_named(entries: Seq<DirEntry>, name: Seq<char>, k: int) -> bool {
    &&& 0 <= k < entries.len()
    &&& entries[k].name@ == name
    &&& forall|j: int| 0 <= j < k ==> (#[trigger] entries[j]).name@ != name
}

/// Some entry is named `name`.
pub open spec fn has_name(entries: Seq<DirEntry>, name: Seq<char>) -> bool {
    exists|k: int| 0 <= k < entries.len() && (#[trigger] entries[k]).name@ == name
}

/// A name that a directory entry can hold: non-empty, at most 27 bytes,
/// no zero byte.
pub open spec fn valid_name(name: &str) -> bool {
    &&& name@.len() > 0
    &&& name.len() <= NAME_LENGTH_LIMIT
    &&& name_bytes_ok(encode_utf8(name@))
}

/// Whether `name` is a name that a directory entry can hold.
fn check_name(name: &str) -> (r: bool)
    ensures
        r == valid_name(name),
{
    if name.is_empty() || name.len() > NAME_LENGTH_LIMIT {
        return false;
    }
    let b = name.as_bytes();
    let mut i: usize = 0;
    while i < b.len()
        invariant
            i <= b@.len(),
            b@ == encode_utf8(name@),
            forall|j: int| 0 <= j < i ==> #[trigger] b@[j] != 0,
        decreases b@.len() - i,
    {
        if b[i] == 0 {
            return false;
        }
        i = i + 1;
    }
    true
}

/// A handle onto a disk inode: the block that holds it and its offset there.
#[derive(Clone, Copy, PartialEq, Eq, Structural, Debug)]
pub struct Inode {
    block_id: usize,
    block_offset: usize,
}

/// Position of inode `id`: the block and the byte offset that hold it.
pub open spec fn pos_of(fs: &EasyFileSystem, id: int) -> (int, int) {
    (fs.inode_area_start_block + id / 4, (id % 4) * 128)
}

impl Inode {
    /// A handle at a given position.
    pub fn new(block_id: u32, block_offset: usize) -> (r: Self)
        ensures
            r.block_id_view() == block_id,
            r.block_offset_view() == block_offset,
    {
        Inode { block_id: block_id as usize, block_offset }
    }

    pub closed spec fn block_id_view(&self) -> int {
        self.block_id as int
    }

    pub closed spec fn block_offset_view(&self) -> int {
        self.block_offset as int
    }

    /// The handle refers to inode `id` of `fs`.
    pub open spec fn refers(&self, fs: &EasyFileSystem, id: int) -> bool {
        &&& 0 <= id < fs.n_inodes()
        &&& (self.block_id_view(), self.block_offset_view()) == pos_of(fs, id)
    }

    /// The handle is onto the root directory.
    pub open spec fn is_root(&self, fs: &EasyFileSystem) -> bool {
        self.refers(fs, 0)
    }

    /// The inode that a valid handle refers to.
    pub open spec fn ino(&self, fs: &EasyFileSystem) -> int {
        (self.block_id_view() - fs.inode_area_start_block) * 4 + self.block_offset_view() / 128
    }

    /// The handle lies on an inode of `fs`.
    pub open spec fn valid(&self, fs: &EasyFileSystem) -> bool {
        &&& self.block_id_view() >= fs.inode_area_start_block
        &&& self.block_offset_view() % 128 == 0
        &&& self.block_offset_view() < 512
        &&& 0 <= self.ino(fs) < fs.n_inodes()
    }

    /// The handle of inode `id`.
    pub fn at(fs: &EasyFileSystem, id: u32) -> (r: Self)
        requires
            fs.wf_core(),
            id < fs.n_inodes(),
        ensures
            r.refers(fs, id as int),
            r.valid(fs),
            r.ino(fs) == id,
    {
        let (b, o) = fs.get_disk_inode_pos(id);
        Inode::new(b, o)
    }

    /// The handle of the root directory.
    pub fn root(fs: &EasyFileSystem) -> (r: Self)
        requires
            fs.wf_core(),
        ensures
            r.is_root(fs),
            r.valid(fs),
            r.ino(fs) == 0,
    {
        Inode::at(fs, 0)
    }

    /// The inode this handle refers to.
    pub fn inode_id(&self, fs: &EasyFileSystem) -> (r: u32)
        requires
            fs.wf_core(),
            self.valid(fs),
        ensures
            r == self.ino(fs),
    {
        fs.get_disk_inode_id(self.block_id as u32, self.block_offset)
    }

    /// The inode this handle refers to (same as `inode_id`).
    pub fn node_id(&self, fs: &EasyFileSystem) -> (r: u32)
        requires
            fs.wf_core(),
            self.valid(fs),
        ensures
            r == self.ino(fs),
    {
        self.inode_id(fs)
    }

    /// Directory when the inode is the root, file when it is another
    /// allocated inode, null otherwise.
    pub fn mode(&self, fs: &EasyFileSystem) -> (r: StatMode)
        requires
            fs.wf_core(),
            self.valid(fs),
        ensures
            !fs.allocated(self.ino(fs)) ==> r == StatMode::Null,
            fs.allocated(self.ino(fs)) && self.ino(fs) == 0 ==> r == StatMode::Dir,
            fs.allocated(self.ino(fs)) && self.ino(fs) != 0 ==> r == StatMode::File,
    {
        let id = self.inode_id(fs) as usize;
        if !fs.inode_bitmap[id] {
            StatMode::Null
        } else if fs.inodes[id].is_dir() {
            StatMode::Dir
        } else {
            StatMode::File
        }
    }
}

/// Index of the first root entry named `key`.
fn find_dent_pos(fs: &EasyFileSystem, key: &String) -> (r: Option<usize>)
    requires
        fs.wf_core(),
    ensures
        r is None <==> !has_name(fs.root_entries(), key@),
        r matches Some(k) ==> first_named(fs.root_entries(), key@, k as int),
{
    let n = fs.inodes[0].entries.len();
    let mut k: usize = 0;
    while k < n
        invariant
            fs.wf_core(),
            n == fs.root_entries().len(),
            k <= n,
            forall|j: int| 0 <= j < k ==> (#[trigger] fs.root_entries()[j]).name@ != key@,
        decreases n - k,
    {
        if fs.inodes[0].entries[k].name == *key {
            return Some(k);
        }
        k = k + 1;
    }
    None
}

impl Inode {
    /// The handle of the inode that `name` refers to in this directory.
    pub fn find(&self, fs: &EasyFileSystem, name: &str) -> (r: Option<Inode>)
        requires
            fs.wf(),
            self.is_root(fs),
        ensures
            r is None <==> !has_name(fs.root_entries(), name@),
            r matches Some(h) ==> h.valid(fs),
            forall|k: int| first_named(fs.root_entries(), name@, k) ==> (r matches Some(h) && h.refers(
                fs,
                fs.root_entries()[k].inode_number as int,
            ) && h.valid(fs)),
    {
        let key = name.to_owned();
        match find_dent_pos(fs, &key) {
            Some(k) => {
                proof {
                    assert(fs.entry_ok(k as int));
                    assert forall|j: int| first_named(fs.root_entries(), name@, j) implies j == k by {
                        if j < k {
                            assert(fs.root_entries()[j].name@ != name@);
                        } else if j > k {
                            assert(fs.root_entries()[k as int].name@ != name@);
                        }
                    }
                }
                Some(Inode::at(fs, fs.inodes[0].entries[k].inode_number))
            },
            None => None,
        }
    }

    /// The index and a copy of the first entry named `name`.
    pub fn lookup_locked(&self, fs: &EasyFileSystem, name: &str) -> (r: Option<(usize, DirEntry)>)
        requires
            fs.wf(),
            self.is_root(fs),
        ensures
            r is None <==> !has_name(fs.root_entries(), name@),
            r matches Some(p) ==> first_named(fs.root_entries(), name@, p.0 as int) && p.1.name@ == name@
                && p.1.inode_number == fs.root_entries()[p.0 as int].inode_number,
    {
        let key = name.to_owned();
        match find_dent_pos(fs, &key) {
            Some(k) => {
                let e = DirEntry { name: key, inode_number: fs.inodes[0].entries[k].inode_number };
                Some((k, e))
            },
            None => None,
        }
    }

    /// The names in this directory, in directory order.
    pub fn ls(&self, fs: &EasyFileSystem) -> (r: Vec<String>)
        requires
            fs.wf(),
            self.is_root(fs),
        ensures
            r@.len() == fs.root_entries().len(),
            forall|k: int| 0 <= k < r@.len() ==> (#[trigger] r@[k])@ == fs.root_entries()[k].name@,
    {
        let n = fs.inodes[0].entries.len();
        let mut v: Vec<String> = Vec::new();
        let mut k: usize = 0;
        while k < n
            invariant
                fs.wf(),
                n == fs.root_entries().len(),
                k <= n,
                v@.len() == k,
                forall|j: int| 0 <= j < k ==> (#[trigger] v@[j])@ == fs.root_entries()[j].name@,
            decreases n - k,
        {
            v.push(fs.inodes[0].entries[k].name.clone());
            k = k + 1;
        }
        v
    }

    /// The names in this directory that refer to inode `id`, in directory
    /// order; their number is the inode's link count.
    pub fn find_by_id(&self, fs: &EasyFileSystem, id: u32) -> (r: Vec<String>)
        requires
            fs.wf(),
            self.is_root(fs),
        ensures
            r@.map_values(|s: String| s@) == names_with(fs.root_entries(), id),
    {
        let n = fs.inodes[0].entries.len();
        let mut v: Vec<String> = Vec::new();
        let mut k: usize = 0;
        while k < n
            invariant
                fs.wf(),
                n == fs.root_entries().len(),
                k <= n,
                v@.map_values(|s: String| s@) == names_with(fs.root_entries().take(k as int), id),
            decreases n - k,
        {
            proof {
                assert(fs.root_entries().take(k + 1).drop_last() =~= fs.root_entries().take(k as int));
            }
            if fs.inodes[0].entries[k].inode_number == id {
                v.push(fs.inodes[0].entries[k].name.clone());
                proof {
                    assert(v@.map_values(|s: String| s@) =~= names_with(fs.root_entries().take(k as int), id).push(
                        fs.root_entries()[k as int].name@,
                    ));
                }
            }
            k = k + 1;
        }
        assert(fs.root_entries().take(n as int) =~= fs.root_entries());
        v
    }
}

/// Blocks the root needs to hold one more entry.
pub open spec fn growth_need(fs: &EasyFileSystem) -> int {
    total_blocks(fs.inodes@[0].size + DIRENT_SZ) - total_blocks(fs.inodes@[0].size as int)
}

/// The root can take one more entry: the size limit allows it and enough
/// data blocks are free.
pub open spec fn root_can_grow(fs: &EasyFileSystem) -> bool {
    &&& fs.inodes@[0].size + DIRENT_SZ <= MAX_FILE_SIZE
    &&& free_count(fs.data_bitmap@, fs.data_bitmap@.len() as int) >= growth_need(fs)
}

/// Some inode is free.
pub open spec fn has_free_inode(fs: &EasyFileSystem) -> bool {
    free_count(fs.inode_bitmap@, fs.inode_bitmap@.len() as int) > 0
}

/// `n` is `o` with one entry named `name`, referring to `id`, appended to
/// the root, whose size grew by one entry and its map by `growth_need`.
pub open spec fn appended(n: &EasyFileSystem, o: &EasyFileSystem, name: Seq<char>, id: int) -> bool {
    &&& n.root_entries().len() == o.root_entries().len() + 1
    &&& n.root_entries().drop_last() == o.root_entries()
    &&& n.root_entries().last().name@ == name
    &&& n.root_entries().last().inode_number == id
    &&& n.inodes@[0].size == o.inodes@[0].size + DIRENT_SZ
    &&& n.used_data() == o.used_data() + growth_need(o)
}

/// Appends the entry `(key, id)` to the root, whose map has already grown
/// for it, and makes inode `id` referenced.
fn push_entry(fs: &mut EasyFileSystem, key: String, id: u32)
    requires
        old(fs).wf_core_but(id as int),
        forall|i: int| 0 < i < old(fs).n_inodes() ==> #[trigger] old(fs).inode_sized(i),
        old(fs).inodes@[0].size + DIRENT_SZ <= MAX_FILE_SIZE,
        old(fs).inodes@[0].size == DIRENT_SZ * old(fs).root_entries().len(),
        old(fs).inodes@[0].data@.len() == 0,
        old(fs).inodes@[0].blocks@.len() == total_blocks(old(fs).inodes@[0].size + DIRENT_SZ),
        key@.len() > 0,
        name_bytes_ok(encode_utf8(key@)),
        0 < id < old(fs).n_inodes(),
        old(fs).allocated(id as int),
    ensures
        final(fs).wf(),
        final(fs).root_entries().len() == old(fs).root_entries().len() + 1,
        final(fs).root_entries().drop_last() == old(fs).root_entries(),
        final(fs).root_entries().last().name@ == key@,
        final(fs).root_entries().last().inode_number == id,
        final(fs).inodes@[0].size == old(fs).inodes@[0].size + DIRENT_SZ,
        final(fs).inodes@[0].blocks == old(fs).inodes@[0].blocks,
        final(fs).inode_bitmap@ == old(fs).inode_bitmap@,
        final(fs).data_bitmap@ == old(fs).data_bitmap@,
        final(fs).n_inodes() == old(fs).n_inodes(),
        forall|j: int| 0 < j < old(fs).n_inodes() ==> #[trigger] final(fs).inodes@[j] == old(fs).inodes@[j],
        final(fs).inode_area_start_block == old(fs).inode_area_start_block,
{
    let ghost g = *fs;
    let new_size = fs.inodes[0].size + DIRENT_SZ as u32;
    fs.inodes[0].entries.push(DirEntry { name: key, inode_number: id });
    fs.inodes[0].size = new_size;
    proof {
        assert(fs.root_entries() == g.root_entries().push(fs.root_entries().last()));
        assert(fs.root_entries().drop_last() =~= g.root_entries());
        assert forall|i: int, k: int|
            0 <= i < fs.n_inodes() && 0 <= k < fs.inodes@[i].blocks@.len() implies #[trigger] fs.owned_ok(i, k) by {
            assert(g.owned_ok(i, k));
        }
        assert forall|k: int| 0 <= k < fs.root_entries().len() implies #[trigger] fs.entry_ok(k) by {
            if k < g.root_entries().len() {
                assert(g.entry_ok(k));
            }
        }
        assert forall|i: int| 0 < i < fs.n_inodes() && #[trigger] fs.allocated(i) implies fs.referenced(i) by {
            if i == id {
                assert(fs.root_entries()[g.root_entries().len() as int].inode_number == i);
            } else {
                assert(g.allocated(i));
                assert(g.referenced(i));
                let w = choose|w: int| 0 <= w < g.root_entries().len() && #[trigger] g.root_entries()[w].inode_number == i;
                assert(fs.root_entries()[w].inode_number == i);
            }
        }
        assert forall|i: int| 0 < i < fs.n_inodes() implies (#[trigger] fs.inodes@[i]).type_ == DiskInodeType::File by {
            assert(g.inodes@[i] == fs.inodes@[i]);
        }
        assert forall|i: int| 0 <= i < fs.n_inodes() implies #[trigger] fs.inode_sized(i) by {
            if i != 0 {
                assert(g.inode_sized(i));
                assert(fs.inodes@[i] == g.inodes@[i]);
            }
        }
    }
}

/// A state where everything is as in `o` but the root's map, after growth.
proof fn lemma_grown_core(n: &EasyFileSystem, o: &EasyFileSystem)
    requires
        o.wf(),
        n.wf_core(),
        n.same_but_blocks(o, 0),
    ensures
        forall|i: int| 0 < i < n.n_inodes() ==> #[trigger] n.inode_sized(i),
        n.root_entries() == o.root_entries(),
{
    assert forall|i: int| 0 < i < n.n_inodes() implies #[trigger] n.inode_sized(i) by {
        assert(o.inode_sized(i));
        assert(n.inodes@[i] == o.inodes@[i]);
    }
}

impl Inode {
    /// Creates a regular file `name` in this directory and returns its
    /// handle. `None`, with nothing changed, when the name is not valid or is
    /// taken, when no inode is free, or when the directory cannot grow.
    pub fn create(&self, fs: &mut EasyFileSystem, name: &str) -> (r: Option<Inode>)
        requires
            old(fs).wf(),
            self.is_root(old(fs)),
        ensures
            final(fs).wf(),
            same_layout(final(fs), old(fs)),
            (valid_name(name) && !has_name(old(fs).root_entries(), name@) && has_free_inode(old(fs))
                && root_can_grow(old(fs))) <==> r is Some,
            r is None ==> *final(fs) == *old(fs),
            r matches Some(h) ==> h.valid(final(fs)) && final(fs).root_entries().len() == old(fs).root_entries().len() + 1
                && final(fs).root_entries().last().name@ == name@
                && final(fs).root_entries().drop_last() == old(fs).root_entries()
                && h.refers(final(fs), final(fs).root_entries().last().inode_number as int),
            r matches Some(h) ==> forall|id: int| #[trigger] first_clear(old(fs).inode_bitmap@, id) ==> {
                &&& h.refers(final(fs), id)
                &&& h.valid(final(fs))
                &&& appended(final(fs), old(fs), name@, id)
                &&& final(fs).inode_bitmap@ == old(fs).inode_bitmap@.update(id, true)
                &&& final(fs).inodes@[id].size == 0
                &&& final(fs).inodes@[id].type_ == DiskInodeType::File
                &&& forall|j: int| 0 < j < old(fs).n_inodes() && j != id ==> #[trigger] final(fs).inodes@[j] == old(fs).inodes@[j]
            },
    {
        if !check_name(name) {
            return None;
        }
        let key = name.to_owned();
        if find_dent_pos(fs, &key).is_some() {
            return None;
        }
        if count_free(&fs.inode_bitmap) == 0 {
            return None;
        }
        assert(valid_name(name));
        assert(!has_name(old(fs).root_entries(), name@));
        assert(has_free_inode(old(fs)));
        let old_size = fs.inodes[0].size;
        proof {
            assert(old(fs).inode_sized(0));
        }
        if old_size as usize + DIRENT_SZ > MAX_FILE_SIZE {
            return None;
        }
        let need = blocks_num_needed(old_size, old_size + DIRENT_SZ as u32);
        if fs.free_data() < need as usize {
            return None;
        }
        fs.grow_blocks(0, need);
        proof {
            lemma_grown_core(fs, old(fs));
        }
        let ghost g0 = *fs;
        let id = match alloc_bit(&mut fs.inode_bitmap) {
            Some(i) => i,
            None => {
                return None;
            },
        };
        proof {
            assert(old(fs).inode_sized(id as int));
            assert(g0.inodes@[id as int] == old(fs).inodes@[id as int]);
            assert(id != 0);
            assert forall|i: int, k: int|
                0 <= i < fs.n_inodes() && 0 <= k < fs.inodes@[i].blocks@.len() implies #[trigger] fs.owned_ok(i, k) by {
                assert(g0.owned_ok(i, k));
            }
            assert forall|k: int| 0 <= k < fs.root_entries().len() implies #[trigger] fs.entry_ok(k) by {
                assert(g0.entry_ok(k));
            }
            assert(fs.inodes == g0.inodes);
            assert forall|i: int| 0 < i < fs.n_inodes() && i != id && #[trigger] fs.allocated(i) implies fs.referenced(i) by {
                assert(g0.allocated(i));
                assert(g0.referenced(i));
                let w = choose|w: int| 0 <= w < g0.root_entries().len() && #[trigger] g0.root_entries()[w].inode_number == i;
                assert(fs.root_entries()[w].inode_number == i);
            }
            assert forall|i: int| 0 < i < fs.n_inodes() implies #[trigger] fs.inode_sized(i) by {
                assert(g0.inode_sized(i));
            }
        }
        push_entry(fs, key, id as u32);
        proof {
            assert forall|i: int| #[trigger] first_clear(old(fs).inode_bitmap@, i) implies i == id by {
                if i < id {
                    assert(old(fs).inode_bitmap@[i]);
                } else if i > id {
                    assert(old(fs).inode_bitmap@[id as int]);
                }
            }
        }
        Some(Inode::at(fs, id as u32))
    }
}

/// Some entry other than `k` refers to inode `id`.
pub open spec fn others_refer(entries: Seq<DirEntry>, k: int, id: u32) -> bool {
    exists|j: int| 0 <= j < entries.len() && j != k && (#[trigger] entries[j]).inode_number == id
}

/// Whether an entry other than `k` refers to inode `id`.
fn shared_elsewhere(fs: &EasyFileSystem, k: usize, id: u32) -> (r: bool)
    requires
        fs.wf_core(),
    ensures
        r == others_refer(fs.root_entries(), k as int, id),
{
    let n = fs.inodes[0].entries.len();
    let mut j: usize = 0;
    while j < n
        invariant
            fs.wf_core(),
            n == fs.root_entries().len(),
            j <= n,
            forall|q: int| 0 <= q < j && q != k ==> (#[trigger] fs.root_entries()[q]).inode_number != id,
        decreases n - j,
    {
        if j != k && fs.inodes[0].entries[j].inode_number == id {
            return true;
        }
        j = j + 1;
    }
    false
}

impl Inode {
    /// Adds the name `new_name` for the inode that `old_name` refers to.
    /// -1, with nothing changed, when `old_name` is absent, `new_name` is
    /// not valid, or the directory cannot grow; 0 otherwise.
    pub fn vfs_link(&self, fs: &mut EasyFileSystem, old_name: &str, new_name: &str) -> (r: isize)
        requires
            old(fs).wf(),
            self.is_root(old(fs)),
        ensures
            final(fs).wf(),
            same_layout(final(fs), old(fs)),
            (has_name(old(fs).root_entries(), old_name@) && valid_name(new_name) && root_can_grow(old(fs))) <==> r == 0,
            r != 0 ==> r == -1 && *final(fs) == *old(fs),
            r == 0 ==> final(fs).root_entries().len() == old(fs).root_entries().len() + 1
                && final(fs).root_entries().last().name@ == new_name@,
            r == 0 ==> forall|k: int| #[trigger] first_named(old(fs).root_entries(), old_name@, k) ==> {
                &&& appended(final(fs), old(fs), new_name@, old(fs).root_entries()[k].inode_number as int)
                &&& final(fs).inode_bitmap@ == old(fs).inode_bitmap@
                &&& forall|j: int| 0 < j < old(fs).n_inodes() ==> #[trigger] final(fs).inodes@[j] == old(fs).inodes@[j]
            },
    {
        let key = old_name.to_owned();
        let k = match find_dent_pos(fs, &key) {
            Some(k) => k,
            None => {
                return -1;
            },
        };
        if !check_name(new_name) {
            return -1;
        }
        let old_size = fs.inodes[0].size;
        proof {
            assert(old(fs).inode_sized(0));
            assert(old(fs).entry_ok(k as int));
        }
        if old_size as usize + DIRENT_SZ > MAX_FILE_SIZE {
            return -1;
        }
        let need = blocks_num_needed(old_size, old_size + DIRENT_SZ as u32);
        if fs.free_data() < need as usize {
            return -1;
        }
        let id = fs.inodes[0].entries[k].inode_number;
        fs.grow_blocks(0, need);
        proof {
            lemma_grown_core(fs, old(fs));
        }
        push_entry(fs, new_name.to_owned(), id);
        proof {
            assert forall|q: int| #[trigger] first_named(old(fs).root_entries(), old_name@, q) implies q == k by {
                if q < k {
                    assert(old(fs).root_entries()[q].name@ != old_name@);
                } else if q > k {
                    assert(old(fs).root_entries()[k as int].name@ != old_name@);
                }
            }
        }
        0
    }

    /// Removes the first entry named `name`. If no other entry refers to its
    /// inode, the inode's blocks and the inode itself are freed. The last
    /// entry moves into the freed slot and the directory shrinks by one
    /// entry. -1, with nothing changed, when the name is absent; 0 otherwise.
    pub fn vfs_unlink(&self, fs: &mut EasyFileSystem, name: &str) -> (r: isize)
        requires
            old(fs).wf(),
            self.is_root(old(fs)),
        ensures
            final(fs).wf(),
            same_layout(final(fs), old(fs)),
            has_name(old(fs).root_entries(), name@) <==> r == 0,
            r != 0 ==> r == -1 && *final(fs) == *old(fs),
            r == 0 ==> final(fs).root_entries().len() == old(fs).root_entries().len() - 1,
            r == 0 ==> forall|k: int| #[trigger] first_named(old(fs).root_entries(), name@, k) ==> {
                let o = old(fs).root_entries();
                let id = o[k].inode_number;
                let root_freed = total_blocks(old(fs).inodes@[0].size as int) - total_blocks(old(fs).inodes@[0].size - DIRENT_SZ);
                &&& final(fs).root_entries() == o.update(k, o.last()).drop_last()
                &&& final(fs).inodes@[0].size == old(fs).inodes@[0].size - DIRENT_SZ
                &&& forall|j: int| 0 < j < old(fs).n_inodes() && j != id ==> #[trigger] final(fs).inodes@[j] == old(fs).inodes@[j]
                &&& others_refer(o, k, id) ==> final(fs).inode_bitmap@ == old(fs).inode_bitmap@
                    && final(fs).inodes@[id as int] == old(fs).inodes@[id as int]
                    && final(fs).used_data() == old(fs).used_data() - root_freed
                &&& !others_refer(o, k, id) ==> final(fs).inode_bitmap@ == old(fs).inode_bitmap@.update(id as int, false)
                    && final(fs).inodes@[id as int].size == 0
                    && final(fs).inodes@[id as int].blocks@.len() == 0
                    && final(fs).used_data() == old(fs).used_data() - root_freed
                        - total_blocks(old(fs).inodes@[id as int].size as int)
            },
    {
        let key = name.to_owned();
        let k = match find_dent_pos(fs, &key) {
            Some(k) => k,
            None => {
                return -1;
            },
        };
        let ghost o = old(fs).root_entries();
        let id = fs.inodes[0].entries[k].inode_number;
        proof {
            assert(old(fs).entry_ok(k as int));
            assert(old(fs).inode_sized(id as int));
            assert(old(fs).inode_sized(0));
        }
        let shared = shared_elsewhere(fs, k, id);
        if !shared {
            fs.shrink_blocks(id as usize, 0);
            let ghost g1 = *fs;
            fs.inodes.set(id as usize, DiskInode::initialize(DiskInodeType::File));
            fs.inode_bitmap.set(id as usize, false);
            proof {
                let bits = g1.inode_bitmap@;
                lemma_free_count_clear(bits, id as int, bits.len() as int);
                assert forall|i: int, q: int|
                    0 <= i < fs.n_inodes() && 0 <= q < fs.inodes@[i].blocks@.len() implies #[trigger] fs.owned_ok(i, q) by {
                    assert(g1.owned_ok(i, q));
                }
            }
        }
        let ghost g2 = *fs;
        proof {
            assert(g2.root_entries() == o);
            assert(g2.inodes@[0].size == old(fs).inodes@[0].size);
        }
        fs.inodes[0].entries.swap_remove(k);
        let new_size = fs.inodes[0].size - DIRENT_SZ as u32;
        fs.inodes[0].size = new_size;
        proof {
            let n = fs.root_entries();
            assert(n == o.update(k as int, o.last()).drop_last());
            assert forall|i: int, q: int|
                0 <= i < fs.n_inodes() && 0 <= q < fs.inodes@[i].blocks@.len() implies #[trigger] fs.owned_ok(i, q) by {
                assert(g2.owned_ok(i, q));
            }
            assert forall|q: int| 0 <= q < n.len() implies #[trigger] fs.entry_ok(q) by {
                let src = if q == k { o.len() - 1 } else { q };
                assert(n[q] == o[src]);
                assert(old(fs).entry_ok(src));
                if !shared {
                    assert(o[src].inode_number != id);
                }
            }
            assert forall|i: int| 0 < i < fs.n_inodes() && #[trigger] fs.allocated(i) implies fs.referenced(i) by {
                assert(old(fs).allocated(i));
                assert(old(fs).referenced(i));
                let w = choose|w: int| 0 <= w < o.len() && #[trigger] o[w].inode_number == i;
                let w2 = if w == k {
                    assert(shared);
                    choose|j: int| 0 <= j < o.len() && j != k && (#[trigger] o[j]).inode_number == id
                } else {
                    w
                };
                assert(o[w2].inode_number == i);
                let pos = if w2 == o.len() - 1 { k as int } else { w2 };
                assert(n[pos].inode_number == i);
            }
            assert forall|i: int| 0 < i < fs.n_inodes() implies (#[trigger] fs.inodes@[i]).type_ == DiskInodeType::File by {
                assert(g2.inodes@[i] == fs.inodes@[i]);
                assert(old(fs).inodes@[i].type_ == DiskInodeType::File);
            }
        }
        let t = total_blocks_of(new_size);
        proof {
            lemma_total_blocks_mono(new_size as int, old(fs).inodes@[0].size as int);
        }
        fs.shrink_blocks(0, t as usize);
        proof {
            assert forall|i: int| 0 <= i < fs.n_inodes() implies #[trigger] fs.inode_sized(i) by {
                if i != 0 && i != id {
                    assert(old(fs).inode_sized(i));
                    assert(fs.inodes@[i] == old(fs).inodes@[i]);
                }
            }
            assert forall|q: int| #[trigger] first_named(old(fs).root_entries(), name@, q) implies q == k by {
                if q < k {
                    assert(old(fs).root_entries()[q].name@ != name@);
                } else if q > k {
                    assert(old(fs).root_entries()[k as int].name@ != name@);
                }
            }
        }
        0
    }
}

/// `d` with `b` written at `off`; a gap past the end reads as zeros.
pub open spec fn write_bytes(d: Seq<u8>, off: int, b: Seq<u8>) -> Seq<u8> {
    let len = if off + b.len() > d.len() { off + b.len() } else { d.len() as int };
    Seq::new(len as nat, |x: int| if off <= x < off + b.len() { b[x - off] } else if x < d.len() { d[x] } else { 0u8 })
}

/// `n` is `o` but for the bytes of inode `t`.
pub open spec fn same_but_data(n: &EasyFileSystem, o: &EasyFileSystem, t: int) -> bool {
    &&& n.inodes@.len() == o.inodes@.len()
    &&& n.inode_bitmap == o.inode_bitmap
    &&& n.data_bitmap == o.data_bitmap
    &&& n.owner == o.owner
    &&& n.sb == o.sb
    &&& n.inode_area_start_block == o.inode_area_start_block
    &&& n.data_area_start_block == o.data_area_start_block
    &&& forall|j: int| 0 <= j < n.inodes@.len() && j != t ==> #[trigger] n.inodes@[j] == o.inodes@[j]
    &&& n.inodes@[t].size == o.inodes@[t].size
    &&& n.inodes@[t].type_ == o.inodes@[t].type_
    &&& n.inodes@[t].blocks == o.inodes@[t].blocks
    &&& n.inodes@[t].entries == o.inodes@[t].entries
}

/// Inode `t` is a regular file that exists.
pub open spec fn is_live_file(fs: &EasyFileSystem, t: int) -> bool {
    0 < t < fs.n_inodes() && fs.allocated(t)
}

/// Blocks that writing `len` bytes at `offset` into inode `t` takes.
pub open spec fn write_need(fs: &EasyFileSystem, t: int, offset: int, len: int) -> int {
    let size = fs.inodes@[t].size as int;
    let new_size = if offset + len > size { offset + len } else { size };
    total_blocks(new_size) - total_blocks(size)
}

/// A write of `len` bytes at `offset` into inode `t` can be done.
pub open spec fn can_write(fs: &EasyFileSystem, t: int, offset: int, len: int) -> bool {
    &&& is_live_file(fs, t)
    &&& offset + len <= MAX_FILE_SIZE
    &&& free_count(fs.data_bitmap@, fs.data_bitmap@.len() as int) >= write_need(fs, t, offset, len)
}

impl Inode {
    /// Writes `buf` at `offset`, growing the file first; returns the bytes
    /// written. When the handle is not onto a live regular file, the end
    /// would pass the largest file size, or too few blocks are free, nothing
    /// changes and 0 is returned.
    pub fn write_at(&self, fs: &mut EasyFileSystem, offset: usize, buf: &[u8]) -> (r: usize)
        requires
            old(fs).wf(),
            self.valid(old(fs)),
        ensures
            final(fs).wf(),
            same_layout(final(fs), old(fs)),
            ({
                let t = self.ino(old(fs));
                &&& can_write(old(fs), t, offset as int, buf@.len() as int) ==> {
                    &&& r == buf@.len()
                    &&& final(fs).inodes@[t].data@ == write_bytes(old(fs).inodes@[t].data@, offset as int, buf@)
                    &&& final(fs).inodes@[t].size == final(fs).inodes@[t].data@.len()
                    &&& final(fs).used_data() == old(fs).used_data() + write_need(old(fs), t, offset as int, buf@.len() as int)
                    &&& final(fs).inode_bitmap@ == old(fs).inode_bitmap@
                    &&& forall|j: int| 0 <= j < old(fs).n_inodes() && j != t ==> #[trigger] final(fs).inodes@[j] == old(fs).inodes@[j]
                }
                &&& !can_write(old(fs), t, offset as int, buf@.len() as int) ==> r == 0 && *final(fs) == *old(fs)
            }),
    {
        let t = self.inode_id(fs) as usize;
        if t == 0 || !fs.inode_bitmap[t] {
            return 0;
        }
        if offset > MAX_FILE_SIZE || buf.len() > MAX_FILE_SIZE - offset {
            return 0;
        }
        proof {
            assert(old(fs).inode_sized(t as int));
        }
        let end = offset + buf.len();
        let old_size = fs.inodes[t].size;
        let new_size: u32 = if end as u32 > old_size { end as u32 } else { old_size };
        let need = blocks_num_needed(old_size, new_size);
        if fs.free_data() < need as usize {
            return 0;
        }
        fs.grow_blocks(t, need);
        let ghost g = *fs;
        proof {
            assert(g.inodes@[t as int].data@ == old(fs).inodes@[t as int].data@);
        }
        while fs.inodes[t].data.len() < new_size as usize
            invariant
                t < fs.n_inodes(),
                same_but_data(fs, &g, t as int),
                fs.inodes@[t as int].data@.len() <= new_size,
                g.inodes@[t as int].data@.len() <= new_size,
                fs.inodes@[t as int].data@ == g.inodes@[t as int].data@ + Seq::new(
                    (fs.inodes@[t as int].data@.len() - g.inodes@[t as int].data@.len()) as nat,
                    |x: int| 0u8,
                ),
            decreases new_size - fs.inodes@[t as int].data@.len(),
        {
            let ghost before = fs.inodes@[t as int].data@;
            let ghost gf = *fs;
            fs.inodes[t].data.push(0);
            proof {
                assert(fs.inodes@[t as int].data@ =~= g.inodes@[t as int].data@ + Seq::new(
                    (fs.inodes@[t as int].data@.len() - g.inodes@[t as int].data@.len()) as nat,
                    |x: int| 0u8,
                ));
                assert forall|j: int| 0 <= j < fs.inodes@.len() && j != t implies #[trigger] fs.inodes@[j] == g.inodes@[j] by {
                    assert(gf.inodes@[j] == g.inodes@[j]);
                }
            }
        }
        let ghost padded = fs.inodes@[t as int].data@;
        let mut i: usize = 0;
        while i < buf.len()
            invariant
                t < fs.n_inodes(),
                same_but_data(fs, &g, t as int),
                i <= buf@.len(),
                end == offset + buf@.len(),
                end <= new_size,
                padded.len() == new_size,
                fs.inodes@[t as int].data@.len() == new_size,
                forall|x: int| 0 <= x < new_size && !(offset <= x < offset + i) ==> #[trigger] fs.inodes@[t as int].data@[x] == padded[x],
                forall|x: int| offset <= x < offset + i ==> #[trigger] fs.inodes@[t as int].data@[x] == buf@[x - offset],
            decreases buf@.len() - i,
        {
            let ghost gf = *fs;
            fs.inodes[t].data.set(offset + i, buf[i]);
            proof {
                assert forall|j: int| 0 <= j < fs.inodes@.len() && j != t implies #[trigger] fs.inodes@[j] == g.inodes@[j] by {
                    assert(gf.inodes@[j] == g.inodes@[j]);
                }
            }
            i = i + 1;
        }
        let ghost gw = *fs;
        fs.inodes[t].size = new_size;
        proof {
            let o = old(fs).inodes@[t as int].data@;
            assert(o.len() == old_size);
            assert(fs.inodes@[t as int].data@ =~= write_bytes(o, offset as int, buf@)) by {
                assert forall|x: int| 0 <= x < new_size implies #[trigger] fs.inodes@[t as int].data@[x] == write_bytes(o, offset as int, buf@)[x] by {
                    if !(offset <= x < offset + buf@.len()) {
                        assert(fs.inodes@[t as int].data@[x] == padded[x]);
                        if x < o.len() {
                            assert(padded[x] == o[x]);
                        }
                    }
                }
            }
            assert forall|j: int| 0 <= j < fs.inodes@.len() && j != t implies #[trigger] fs.inodes@[j] == g.inodes@[j] by {
                assert(gw.inodes@[j] == g.inodes@[j]);
            }
            assert forall|i2: int, k2: int|
                0 <= i2 < fs.n_inodes() && 0 <= k2 < fs.inodes@[i2].blocks@.len() implies #[trigger] fs.owned_ok(i2, k2) by {
                assert(g.owned_ok(i2, k2));
            }
            assert(fs.root_entries() == g.root_entries());
            assert forall|k2: int| 0 <= k2 < fs.root_entries().len() implies #[trigger] fs.entry_ok(k2) by {
                assert(g.entry_ok(k2));
            }
            assert forall|i2: int| 0 < i2 < fs.n_inodes() && #[trigger] fs.allocated(i2) implies fs.referenced(i2) by {
                assert(g.allocated(i2));
                assert(g.referenced(i2));
                let w = choose|w: int| 0 <= w < g.root_entries().len() && #[trigger] g.root_entries()[w].inode_number == i2;
                assert(fs.root_entries()[w].inode_number == i2);
            }
            assert forall|i2: int| 0 < i2 < fs.n_inodes() implies (#[trigger] fs.inodes@[i2]).type_ == DiskInodeType::File by {
                assert(g.inodes@[i2].type_ == DiskInodeType::File);
            }
            assert forall|i2: int| 0 <= i2 < fs.n_inodes() implies #[trigger] fs.inode_sized(i2) by {
                if i2 != t {
                    assert(old(fs).inode_sized(i2));
                    assert(fs.inodes@[i2] == old(fs).inodes@[i2]);
                }
            }
        }
        buf.len()
    }
}

/// The records of `entries`, one after another.
pub open spec fn dir_image(entries: Seq<DirEntry>) -> Seq<u8>
    decreases entries.len(),
{
    if entries.len() == 0 {
        Seq::empty()
    } else {
        dir_image(entries.drop_last()) + dirent_bytes(encode_utf8(entries.last().name@), entries.last().inode_number)
    }
}

/// What inode `t` reads as: a directory's entry records, a file's bytes.
pub open spec fn content_of(fs: &EasyFileSystem, t: int) -> Seq<u8> {
    if fs.inodes@[t].type_ == DiskInodeType::Directory {
        dir_image(fs.inodes@[t].entries@)
    } else {
        fs.inodes@[t].data@
    }
}

/// A copy of a file's bytes.
fn copy_data(v: &Vec<u8>) -> (r: Vec<u8>)
    ensures
        r@ == v@,
{
    let mut r: Vec<u8> = Vec::new();
    let mut i: usize = 0;
    while i < v.len()
        invariant
            i <= v@.len(),
            r@ == v@.subrange(0, i as int),
        decreases v@.len() - i,
    {
        r.push(v[i]);
        i = i + 1;
    }
    assert(r@ =~= v@);
    r
}

/// The root's entry records, one after another; as long as its size.
fn dir_image_of(fs: &EasyFileSystem) -> (r: Vec<u8>)
    requires
        fs.wf(),
    ensures
        r@ == dir_image(fs.root_entries()),
        r@.len() == fs.inodes@[0].size,
{
    proof {
        assert(fs.inode_sized(0));
    }
    let n = fs.inodes[0].entries.len();
    let mut image: Vec<u8> = Vec::new();
    let mut k: usize = 0;
    while k < n
        invariant
            fs.wf(),
            n == fs.root_entries().len(),
            k <= n,
            image@ == dir_image(fs.root_entries().take(k as int)),
            image@.len() == DIRENT_SZ * k,
        decreases n - k,
    {
        proof {
            assert(fs.entry_ok(k as int));
        }
        let mut rec = fs.inodes[0].entries[k].as_bytes();
        proof {
            lemma_dirent_round_trip(encode_utf8(fs.root_entries()[k as int].name@), fs.root_entries()[k as int].inode_number);
            assert(fs.root_entries().take(k + 1).drop_last() =~= fs.root_entries().take(k as int));
        }
        image.append(&mut rec);
        k = k + 1;
    }
    assert(fs.root_entries().take(n as int) =~= fs.root_entries());
    image
}

/// Bytes that a read of up to `len` bytes at `offset` returns from `d`.
pub open spec fn read_len(d: Seq<u8>, offset: int, len: int) -> int {
    if offset >= d.len() {
        0
    } else if d.len() - offset < len {
        d.len() - offset
    } else {
        len
    }
}

impl Inode {
    /// Reads up to `buf.len()` bytes at `offset` into the front of `buf`;
    /// returns how many: `min(size - offset, buf.len())`, or 0 at or past
    /// the end. A file reads as its bytes, a directory as its entries'
    /// 32-byte records in directory order.
    pub fn read_at(&self, fs: &EasyFileSystem, offset: usize, buf: &mut Vec<u8>) -> (r: usize)
        requires
            fs.wf(),
            self.valid(fs),
        ensures
            content_of(fs, self.ino(fs)).len() == fs.inodes@[self.ino(fs)].size,
            ({
                let d = content_of(fs, self.ino(fs));
                &&& r == read_len(d, offset as int, old(buf)@.len() as int)
                &&& final(buf)@.len() == old(buf)@.len()
                &&& forall|i: int| 0 <= i < r ==> #[trigger] final(buf)@[i] == d[offset + i]
                &&& forall|i: int| r <= i < old(buf)@.len() ==> #[trigger] final(buf)@[i] == old(buf)@[i]
            }),
    {
        let t = self.inode_id(fs) as usize;
        proof {
            assert(fs.inode_sized(t as int));
        }
        let image = if fs.inodes[t].is_dir() {
            dir_image_of(fs)
        } else {
            copy_data(&fs.inodes[t].data)
        };
        proof {
            if t != 0 {
                assert(fs.inodes@[t as int].type_ == DiskInodeType::File);
            }
        }
        let dlen = image.len();
        if offset >= dlen {
            return 0;
        }
        let n = if dlen - offset < buf.len() { dlen - offset } else { buf.len() };
        let mut i: usize = 0;
        while i < n
            invariant
                dlen == image@.len(),
                offset + n <= dlen,
                n <= old(buf)@.len(),
                i <= n,
                buf@.len() == old(buf)@.len(),
                forall|x: int| 0 <= x < i ==> #[trigger] buf@[x] == image@[offset + x],
                forall|x: int| i <= x < old(buf)@.len() ==> #[trigger] buf@[x] == old(buf)@[x],
            decreases n - i,
        {
            buf.set(i, image[offset + i]);
            i = i + 1;
        }
        n
    }
    /// Truncates a live regular file to zero bytes and frees its blocks;
    /// anything else is left as it is.
    pub fn clear(&self, fs: &mut EasyFileSystem)
        requires
            old(fs).wf(),
            self.valid(old(fs)),
        ensures
            final(fs).wf(),
            same_layout(final(fs), old(fs)),
            ({
                let t = self.ino(old(fs));
                &&& is_live_file(old(fs), t) ==> {
                    &&& final(fs).inodes@[t].size == 0
                    &&& final(fs).inodes@[t].data@.len() == 0
                    &&& final(fs).inodes@[t].blocks@.len() == 0
                    &&& final(fs).used_data() == old(fs).used_data() - total_blocks(old(fs).inodes@[t].size as int)
                    &&& final(fs).inode_bitmap@ == old(fs).inode_bitmap@
                    &&& forall|j: int| 0 <= j < old(fs).n_inodes() && j != t ==> #[trigger] final(fs).inodes@[j] == old(fs).inodes@[j]
                }
                &&& !is_live_file(old(fs), t) ==> *final(fs) == *old(fs)
            }),
    {
        let t = self.inode_id(fs) as usize;
        if t == 0 || !fs.inode_bitmap[t] {
            return;
        }
        proof {
            assert(old(fs).inode_sized(t as int));
        }
        fs.shrink_blocks(t, 0);
        let ghost g = *fs;
        fs.inodes[t].data.clear();
        fs.inodes[t].size = 0;
        proof {
            assert forall|j: int| 0 <= j < fs.inodes@.len() && j != t implies #[trigger] fs.inodes@[j] == g.inodes@[j] by {}
            assert forall|i2: int, k2: int|
                0 <= i2 < fs.n_inodes() && 0 <= k2 < fs.inodes@[i2].blocks@.len() implies #[trigger] fs.owned_ok(i2, k2) by {
                assert(g.owned_ok(i2, k2));
            }
            assert(fs.root_entries() == g.root_entries());
            assert forall|k2: int| 0 <= k2 < fs.root_entries().len() implies #[trigger] fs.entry_ok(k2) by {
                assert(g.entry_ok(k2));
            }
            assert forall|i2: int| 0 < i2 < fs.n_inodes() && #[trigger] fs.allocated(i2) implies fs.referenced(i2) by {
                assert(g.allocated(i2));
                assert(g.referenced(i2));
                let w = choose|w: int| 0 <= w < g.root_entries().len() && #[trigger] g.root_entries()[w].inode_number == i2;
                assert(fs.root_entries()[w].inode_number == i2);
            }
            assert forall|i2: int| 0 < i2 < fs.n_inodes() implies (#[trigger] fs.inodes@[i2]).type_ == DiskInodeType::File by {
                assert(g.inodes@[i2].type_ == DiskInodeType::File);
            }
            assert forall|i2: int| 0 <= i2 < fs.n_inodes() implies #[trigger] fs.inode_sized(i2) by {
                if i2 != t {
                    assert(old(fs).inode_sized(i2));
                    assert(fs.inodes@[i2] == old(fs).inodes@[i2]);
                }
            }
        }
    }
}

impl Inode {
    /// Size in bytes of the inode this handle refers to.
    pub fn size(&self, fs: &EasyFileSystem) -> (r: u32)
        requires
            fs.wf_core(),
            self.valid(fs),
        ensures
            r == fs.inodes@[self.ino(fs)].size,
    {
        let t = self.inode_id(fs) as usize;
        fs.inodes[t].size
    }
}

impl EasyFileSystem {
    /// Number of allocated data blocks.
    pub fn used_data_count(&self) -> (r: usize)
        requires
            self.wf_core(),
        ensures
            r == self.used_data(),
    {
        proof {
            crate::efs::lemma_free_count_bound(self.data_bitmap@, self.data_bitmap@.len() as int);
        }
        self.data_bitmap.len() - self.free_data()
    }

    /// Whether inode `id` is allocated.
    pub fn inode_allocated(&self, id: u32) -> (r: bool)
        requires
            self.wf_core(),
        ensures
            r == (id < self.n_inodes() && self.allocated(id as int)),
    {
        (id as usize) < self.inode_bitmap.len() && self.inode_bitmap[id as usize]
    }
}

/// Every allocated inode's map covers its size: it holds at least
/// `ceil(size / 512)` blocks, the data blocks plus the index blocks.
pub proof fn lemma_map_covers_size(fs: &EasyFileSystem, i: int)
    requires
        fs.wf(),
        0 <= i < fs.n_inodes(),
        fs.allocated(i),
    ensures
        fs.inodes@[i].blocks@.len() == total_blocks(fs.inodes@[i].size as int),
        crate::efs::data_blocks(fs.inodes@[i].size as int) <= fs.inodes@[i].blocks@.len(),
{
    assert(fs.inode_sized(i));
}

/// The allocated inodes are exactly the root and the inodes that some root
/// entry refers to.
pub proof fn lemma_allocated_are_referenced(fs: &EasyFileSystem)
    requires
        fs.wf(),
    ensures
        Set::new(|i: int| 0 <= i < fs.n_inodes() && fs.allocated(i)) == Set::new(|i: int| fs.referenced(i)).insert(0),
{
    assert forall|i: int| #[trigger] fs.referenced(i) implies 0 < i < fs.n_inodes() && fs.allocated(i) by {
        let k = choose|k: int| 0 <= k < fs.root_entries().len() && #[trigger] fs.root_entries()[k].inode_number == i;
        assert(fs.entry_ok(k));
    }
    assert(Set::new(|i: int| 0 <= i < fs.n_inodes() && fs.allocated(i)) =~= Set::new(|i: int| fs.referenced(i)).insert(0));
}

/// The root holds `size / 32` entries, and every name in it is non-empty.
pub proof fn lemma_root_shape(fs: &EasyFileSystem)
    requires
        fs.wf(),
    ensures
        fs.root_entries().len() == fs.inodes@[0].size as int / DIRENT_SZ as int,
        forall|k: int| 0 <= k < fs.root_entries().len() ==> (#[trigger] fs.root_entries()[k]).name@.len() > 0,
{
    assert(fs.inode_sized(0));
    assert forall|k: int| 0 <= k < fs.root_entries().len() implies (#[trigger] fs.root_entries()[k]).name@.len() > 0 by {
        assert(fs.entry_ok(k));
    }
}

/// A name created in a directory that lacked it is found at the new entry
/// (so `find` yields the new inode), and unlinking it afterwards leaves the
/// name absent.
pub proof fn lemma_create_find_unlink(o: Seq<DirEntry>, c: Seq<DirEntry>, u: Seq<DirEntry>, name: Seq<char>, k: int)
    requires
        !has_name(o, name),
        c.len() == o.len() + 1,
        c.drop_last() == o,
        c.last().name@ == name,
        first_named(c, name, k),
        u == c.update(k, c.last()).drop_last(),
    ensures
        k == o.len(),
        first_named(c, name, o.len() as int),
        !has_name(u, name),
{
    if k < o.len() {
        assert(o[k] == c[k]);
    }
    assert forall|j: int| 0 <= j < o.len() implies (#[trigger] c[j]).name@ != name by {
        assert(c[j] == o[j]);
    }
    assert(u =~= o);
}

/// Reading back what was written at `off` returns exactly those bytes.
pub proof fn lemma_write_read(d: Seq<u8>, off: int, b: Seq<u8>)
    requires
        0 <= off,
    ensures
        read_len(write_bytes(d, off, b), off, b.len() as int) == b.len(),
        forall|i: int| 0 <= i < b.len() ==> #[trigger] write_bytes(d, off, b)[off + i] == b[i],
        write_bytes(d, off, b).len() >= off + b.len(),
{
}

/// Compaction after removing entry `k`: one slot fewer; removing the last
/// entry keeps the others in place, removing another moves the last entry
/// into its slot.
pub proof fn lemma_compaction(o: Seq<DirEntry>, k: int)
    requires
        0 <= k < o.len(),
    ensures
        o.update(k, o.last()).drop_last().len() == o.len() - 1,
        k == o.len() - 1 ==> o.update(k, o.last()).drop_last() == o.drop_last(),
        k < o.len() - 1 ==> o.update(k, o.last()).drop_last()[k] == o.last(),
        forall|j: int| 0 <= j < o.len() - 1 && j != k ==> #[trigger] o.update(k, o.last()).drop_last()[j] == o[j],
{
    if k == o.len() - 1 {
        assert(o.update(k, o.last()).drop_last() =~= o.drop_last());
    }
}

impl EasyFileSystem {
    /// Where inode `id` is stored.
    pub fn get_disk_inode_pos(&self, id: u32) -> (r: (u32, usize))
        requires
            self.wf_core(),
            id < self.n_inodes(),
        ensures
            (r.0 as int, r.1 as int) == pos_of(self, id as int),
    {
        (self.inode_area_start_block + id / INODES_PER_BLOCK as u32, (id % INODES_PER_BLOCK as u32) as usize * DISK_INODE_SZ)
    }

    /// Which inode is stored at a position.
    pub fn get_disk_inode_id(&self, block_id: u32, block_offset: usize) -> (r: u32)
        requires
            self.wf_core(),
            block_id >= self.inode_area_start_block,
            block_offset < 512,
            (block_id - self.inode_area_start_block) * 4 + block_offset / 128 < self.n_inodes(),
        ensures
            r == (block_id - self.inode_area_start_block) * 4 + block_offset / 128,
    {
        (block_id - self.inode_area_start_block) * 4 + (block_offset / 128) as u32
    }
}

} // verus!
