//! The filesystem object: layout, the two bitmaps, the inode table and the
//! block map of each inode.
//!
//! The inode table holds what each disk inode records: its size, type, the
//! data and index blocks it owns (in map order), and its contents (bytes of a
//! regular file, entries of a directory).
use vstd::prelude::*;
use vstd::utf8::encode_utf8;
use crate::block_cache::{BlockCacheManager, BlockDevice, patch};

verus! {

/// Size of a block in bytes.
pub const BLOCK_SZ: usize = 512;
/// Size of a directory entry in bytes.
pub const DIRENT_SZ: usize = 32;
/// Longest name, in bytes, that a directory entry holds.
pub const NAME_LENGTH_LIMIT: usize = 27;
/// Blocks mapped directly by an inode.
pub const INODE_DIRECT_COUNT: usize = 28;
/// Block ids in one index block.
pub const INODE_INDIRECT1_COUNT: usize = 128;
/// Data blocks reachable through the direct and first indirect map.
pub const INDIRECT1_BOUND: usize = 156;
/// Largest file size in bytes.
pub const MAX_FILE_SIZE: usize = 8468480;
/// Magic number of the superblock.
pub const EFS_MAGIC: u32 = 0x3b800001;
/// Bits in one bitmap block.
pub const BLOCK_BITS: usize = 4096;
/// Disk inodes per block.
pub const INODES_PER_BLOCK: usize = 4;
/// Size of a disk inode in bytes.
pub const DISK_INODE_SZ: usize = 128;
/// Most inode bitmap blocks a filesystem is formatted with.
pub const MAX_INODE_BITMAP_BLOCKS: u32 = 16;

/// Data blocks that hold `size` bytes.
pub open spec fn data_blocks(size: int) -> int {
    (size + BLOCK_SZ - 1) / BLOCK_SZ as int
}

/// Data blocks plus the index blocks needed to map them: one for the first
/// indirect level past the direct blocks, and past that one for the second
/// level plus one per 128 further blocks.
pub open spec fn total_blocks(size: int) -> int {
    let d = data_blocks(size);
    let per = INODE_INDIRECT1_COUNT as int;
    d + (if d > INODE_DIRECT_COUNT { 1int } else { 0int }) + (if d > INDIRECT1_BOUND {
        1 + (d - INDIRECT1_BOUND + per - 1) / per
    } else {
        0int
    })
}

/// Data and index blocks that an inode of `size` bytes owns.
pub fn total_blocks_of(size: u32) -> (r: u32)
    ensures
        r == total_blocks(size as int),
{
    let d: u64 = (size as u64 + BLOCK_SZ as u64 - 1) / BLOCK_SZ as u64;
    let per = INODE_INDIRECT1_COUNT as u64;
    let mut t: u64 = d;
    if d > INODE_DIRECT_COUNT as u64 {
        t = t + 1;
    }
    if d > INDIRECT1_BOUND as u64 {
        t = t + 1 + (d - INDIRECT1_BOUND as u64 + per - 1) / per;
    }
    t as u32
}

/// How many blocks growing from `old_size` to `new_size` takes.
pub fn blocks_num_needed(old_size: u32, new_size: u32) -> (r: u32)
    requires
        old_size <= new_size,
    ensures
        r == total_blocks(new_size as int) - total_blocks(old_size as int),
{
    proof {
        lemma_total_blocks_mono(old_size as int, new_size as int);
    }
    total_blocks_of(new_size) - total_blocks_of(old_size)
}

/// More bytes never take fewer blocks.
pub proof fn lemma_total_blocks_mono(a: int, b: int)
    requires
        0 <= a <= b,
    ensures
        total_blocks(a) <= total_blocks(b),
        data_blocks(a) <= data_blocks(b),
{
    assert(data_blocks(a) <= data_blocks(b)) by (nonlinear_arith)
        requires 0 <= a <= b;
    let da = data_blocks(a);
    let db = data_blocks(b);
    assert((da - 156 + 127) / 128 <= (db - 156 + 127) / 128) by (nonlinear_arith)
        requires da <= db;
    assert(data_blocks(a) == (a + 511) / 512);
    assert(data_blocks(b) == (b + 511) / 512);
}

/// The type of a disk inode.
#[derive(Clone, Copy, PartialEq, Eq, Structural, Debug)]
pub enum DiskInodeType {
    /// A regular file.
    File,
    /// A directory.
    Directory,
}

/// A directory entry: a name and the inode it refers to.
pub struct DirEntry {
    pub name: String,
    pub inode_number: u32,
}

impl DirEntry {
    /// The entry's name.
    pub fn name(&self) -> (r: &str)
        ensures
            r@ == self.name@,
    {
        self.name.as_str()
    }

    /// The inode the entry refers to.
    pub fn inode_id(&self) -> (r: u32)
        ensures
            r == self.inode_number,
    {
        self.inode_number
    }
}

/// A disk inode.
pub struct DiskInode {
    /// Size in bytes.
    pub size: u32,
    /// The data and index blocks it owns, in map order.
    pub blocks: Vec<u32>,
    /// File or directory.
    pub type_: DiskInodeType,
    /// The bytes of a regular file.
    pub data: Vec<u8>,
    /// The entries of a directory.
    pub entries: Vec<DirEntry>,
}

impl DiskInode {
    /// An empty inode of the given type.
    pub fn initialize(type_: DiskInodeType) -> (r: Self)
        ensures
            r.size == 0,
            r.type_ == type_,
            r.blocks@.len() == 0,
            r.data@.len() == 0,
            r.entries@.len() == 0,
    {
        DiskInode { size: 0, blocks: Vec::new(), type_, data: Vec::new(), entries: Vec::new() }
    }

    /// Whether this is a directory.
    pub fn is_dir(&self) -> (r: bool)
        ensures
            r == (self.type_ == DiskInodeType::Directory),
    {
        match self.type_ {
            DiskInodeType::Directory => true,
            DiskInodeType::File => false,
        }
    }
}

/// The superblock: the layout fixed at format time.
#[derive(Clone, Copy, PartialEq, Eq, Structural, Debug)]
pub struct SuperBlock {
    pub magic: u32,
    pub total_blocks: u32,
    pub inode_bitmap_blocks: u32,
    pub inode_area_blocks: u32,
    pub data_bitmap_blocks: u32,
    pub data_area_blocks: u32,
}

impl SuperBlock {
    /// The magic number is right.
    pub fn is_valid(&self) -> (r: bool)
        ensures
            r == (self.magic == EFS_MAGIC),
    {
        self.magic == EFS_MAGIC
    }
}

/// The little-endian `u32` in bytes `[i, i + 4)` of `b`.
pub open spec fn u32_le(b: Seq<u8>, i: int) -> u32 {
    (b[i] as u32) | ((b[i + 1] as u32) << 8u32) | ((b[i + 2] as u32) << 16u32) | ((b[i + 3] as u32) << 24u32)
}

/// The four little-endian bytes of `x`.
pub open spec fn le_bytes(x: u32) -> Seq<u8> {
    seq![x as u8, (x >> 8u32) as u8, (x >> 16u32) as u8, (x >> 24u32) as u8]
}

/// Four little-endian bytes read back give the number.
pub proof fn lemma_u32_le_round_trip(x: u32)
    ensures
        u32_le(le_bytes(x), 0) == x,
{
    let b = le_bytes(x);
    let (b0, b1, b2, b3) = (b[0], b[1], b[2], b[3]);
    assert(b0 == x as u8 && b1 == (x >> 8u32) as u8 && b2 == (x >> 16u32) as u8 && b3 == (x >> 24u32) as u8);
    assert(((b0 as u32) | ((b1 as u32) << 8u32) | ((b2 as u32) << 16u32) | ((b3 as u32) << 24u32)) == x) by (bit_vector)
        requires
            b0 == x as u8,
            b1 == (x >> 8u32) as u8,
            b2 == (x >> 16u32) as u8,
            b3 == (x >> 24u32) as u8,
    ;
}

fn push_u32_le(v: &mut Vec<u8>, x: u32)
    ensures
        final(v)@ == old(v)@ + le_bytes(x),
{
    v.push(x as u8);
    v.push((x >> 8) as u8);
    v.push((x >> 16) as u8);
    v.push((x >> 24) as u8);
    assert(v@ =~= old(v)@ + le_bytes(x));
}

pub(crate) fn read_u32_le(b: &[u8], i: usize) -> (r: u32)
    requires
        i + 4 <= b@.len(),
    ensures
        r == u32_le(b@, i as int),
{
    (b[i] as u32) | ((b[i + 1] as u32) << 8) | ((b[i + 2] as u32) << 16) | ((b[i + 3] as u32) << 24)
}

/// The 24 bytes that hold a superblock: the magic and the five counts, each
/// a little-endian `u32`.
pub open spec fn sb_bytes(sb: SuperBlock) -> Seq<u8> {
    le_bytes(sb.magic) + le_bytes(sb.total_blocks) + le_bytes(sb.inode_bitmap_blocks) + le_bytes(
        sb.inode_area_blocks,
    ) + le_bytes(sb.data_bitmap_blocks) + le_bytes(sb.data_area_blocks)
}

/// The superblock that bytes `b` hold, if they start with the magic.
pub open spec fn sb_decode(b: Seq<u8>) -> Option<SuperBlock> {
    if b.len() >= 24 && u32_le(b, 0) == EFS_MAGIC {
        Some(SuperBlock {
            magic: u32_le(b, 0),
            total_blocks: u32_le(b, 4),
            inode_bitmap_blocks: u32_le(b, 8),
            inode_area_blocks: u32_le(b, 12),
            data_bitmap_blocks: u32_le(b, 16),
            data_area_blocks: u32_le(b, 20),
        })
    } else {
        None
    }
}

impl SuperBlock {
    /// The superblock's bytes as they lie at the start of block 0.
    pub fn to_bytes(&self) -> (r: Vec<u8>)
        ensures
            r@ == sb_bytes(*self),
    {
        let mut v: Vec<u8> = Vec::new();
        push_u32_le(&mut v, self.magic);
        push_u32_le(&mut v, self.total_blocks);
        push_u32_le(&mut v, self.inode_bitmap_blocks);
        push_u32_le(&mut v, self.inode_area_blocks);
        push_u32_le(&mut v, self.data_bitmap_blocks);
        push_u32_le(&mut v, self.data_area_blocks);
        v
    }

    /// Reads a superblock from the start of `b`; `None` when `b` is too
    /// short or does not start with the magic.
    pub fn from_bytes(b: &[u8]) -> (r: Option<SuperBlock>)
        ensures
            r == sb_decode(b@),
    {
        if b.len() < 24 {
            return None;
        }
        let magic = read_u32_le(b, 0);
        if magic != EFS_MAGIC {
            return None;
        }
        Some(SuperBlock {
            magic,
            total_blocks: read_u32_le(b, 4),
            inode_bitmap_blocks: read_u32_le(b, 8),
            inode_area_blocks: read_u32_le(b, 12),
            data_bitmap_blocks: read_u32_le(b, 16),
            data_area_blocks: read_u32_le(b, 20),
        })
    }
}

/// A valid superblock read back from its bytes, followed by anything, is
/// the same superblock.
pub proof fn lemma_superblock_round_trip(sb: SuperBlock, rest: Seq<u8>)
    requires
        sb.magic == EFS_MAGIC,
    ensures
        sb_decode(sb_bytes(sb) + rest) == Some(sb),
{
    let b = sb_bytes(sb) + rest;
    lemma_field(b, 0, sb.magic);
    lemma_field(b, 4, sb.total_blocks);
    lemma_field(b, 8, sb.inode_bitmap_blocks);
    lemma_field(b, 12, sb.inode_area_blocks);
    lemma_field(b, 16, sb.data_bitmap_blocks);
    lemma_field(b, 20, sb.data_area_blocks);
}

proof fn lemma_field(b: Seq<u8>, i: int, x: u32)
    requires
        0 <= i,
        i + 4 <= b.len(),
        b[i] == le_bytes(x)[0],
        b[i + 1] == le_bytes(x)[1],
        b[i + 2] == le_bytes(x)[2],
        b[i + 3] == le_bytes(x)[3],
    ensures
        u32_le(b, i) == x,
{
    lemma_u32_le_round_trip(x);
}

impl EasyFileSystem {
    /// Writes the superblock to the start of block 0 through the cache.
    pub fn store_superblock(&self, cache: &mut BlockCacheManager, dev: &mut BlockDevice)
        requires
            old(cache).wf(old(dev)),
            old(dev)@.len() > 0,
        ensures
            final(cache).wf(final(dev)),
            final(dev)@.len() == old(dev)@.len(),
            final(cache).logical(final(dev)) == old(cache).logical(old(dev)).update(
                0,
                patch(old(cache).logical(old(dev))[0], 0, sb_bytes(self.sb)),
            ),
    {
        let bytes = self.sb.to_bytes();
        cache.modify(dev, 0, 0, bytes.as_slice());
    }
}

/// Reads the superblock at the start of block 0 through the cache; `None`
/// when the magic is not there.
pub fn load_superblock(cache: &mut BlockCacheManager, dev: &mut BlockDevice) -> (r: Option<SuperBlock>)
    requires
        old(cache).wf(old(dev)),
        old(dev)@.len() > 0,
    ensures
        final(cache).wf(final(dev)),
        final(dev)@.len() == old(dev)@.len(),
        final(cache).logical(final(dev)) == old(cache).logical(old(dev)),
        r == sb_decode(old(cache).logical(old(dev))[0].subrange(0, 24)),
{
    let bytes = cache.read(dev, 0, 0, 24);
    SuperBlock::from_bytes(bytes.as_slice())
}

/// A superblock stored into a block of 512 bytes is read back unchanged.
pub proof fn lemma_store_load_superblock(sb: SuperBlock, block: Seq<u8>)
    requires
        sb.magic == EFS_MAGIC,
        block.len() == 512,
    ensures
        sb_decode(patch(block, 0, sb_bytes(sb)).subrange(0, 24)) == Some(sb),
{
    lemma_superblock_round_trip(sb, Seq::empty());
    assert(patch(block, 0, sb_bytes(sb)).subrange(0, 24) =~= sb_bytes(sb) + Seq::<u8>::empty());
}

/// Bytes that a directory entry can hold as a name: at most 27, none zero.
pub open spec fn name_bytes_ok(b: Seq<u8>) -> bool {
    b.len() <= NAME_LENGTH_LIMIT && forall|j: int| 0 <= j < b.len() ==> #[trigger] b[j] != 0
}

/// Number of clear bits among the first `n`.
pub open spec fn free_count(bits: Seq<bool>, n: int) -> int
    decreases n,
{
    if n <= 0 {
        0
    } else {
        free_count(bits, n - 1) + if bits[n - 1] { 0int } else { 1int }
    }
}

/// The index of the first clear bit.
pub open spec fn first_clear(bits: Seq<bool>, i: int) -> bool {
    &&& 0 <= i < bits.len()
    &&& !bits[i]
    &&& forall|j: int| 0 <= j < i ==> #[trigger] bits[j]
}

/// Setting a clear bit leaves one fewer clear.
pub proof fn lemma_free_count_set(bits: Seq<bool>, i: int, n: int)
    requires
        0 <= i < n <= bits.len(),
        !bits[i],
    ensures
        free_count(bits.update(i, true), n) == free_count(bits, n) - 1,
    decreases n,
{
    if n - 1 > i {
        lemma_free_count_set(bits, i, n - 1);
    } else {
        lemma_free_count_same(bits.update(i, true), bits, n - 1);
    }
}

/// Clearing a set bit leaves one more clear.
pub proof fn lemma_free_count_clear(bits: Seq<bool>, i: int, n: int)
    requires
        0 <= i < n <= bits.len(),
        bits[i],
    ensures
        free_count(bits.update(i, false), n) == free_count(bits, n) + 1,
    decreases n,
{
    if n - 1 > i {
        lemma_free_count_clear(bits, i, n - 1);
    } else {
        lemma_free_count_same(bits.update(i, false), bits, n - 1);
    }
}

/// Counts over equal prefixes are equal.
pub proof fn lemma_free_count_same(b1: Seq<bool>, b2: Seq<bool>, n: int)
    requires
        forall|j: int| 0 <= j < n ==> #[trigger] b1[j] == b2[j],
    ensures
        free_count(b1, n) == free_count(b2, n),
    decreases n,
{
    if n > 0 {
        lemma_free_count_same(b1, b2, n - 1);
    }
}

/// A positive count has a first clear bit.
pub proof fn lemma_free_count_pos(bits: Seq<bool>, n: int)
    requires
        0 <= n <= bits.len(),
        free_count(bits, n) > 0,
    ensures
        exists|i: int| 0 <= i < n && #[trigger] first_clear(bits, i),
    decreases n,
{
    if free_count(bits, n - 1) > 0 {
        lemma_free_count_pos(bits, n - 1);
    } else {
        lemma_free_count_none(bits, n - 1);
        assert(first_clear(bits, n - 1));
    }
}

/// A zero count means every bit is set.
pub proof fn lemma_free_count_none(bits: Seq<bool>, n: int)
    requires
        0 <= n <= bits.len(),
        free_count(bits, n) == 0,
    ensures
        forall|j: int| 0 <= j < n ==> #[trigger] bits[j],
    decreases n,
{
    if n > 0 {
        lemma_free_count_bound(bits, n - 1);
        lemma_free_count_none(bits, n - 1);
    }
}

/// A count lies between zero and the number of bits.
pub proof fn lemma_free_count_bound(bits: Seq<bool>, n: int)
    requires
        0 <= n,
    ensures
        0 <= free_count(bits, n) <= n,
    decreases n,
{
    if n > 0 {
        lemma_free_count_bound(bits, n - 1);
    }
}

/// First-fit allocation: sets the first clear bit and returns its index.
pub(crate) fn alloc_bit(bits: &mut Vec<bool>) -> (r: Option<usize>)
    ensures
        r is None ==> final(bits)@ == old(bits)@ && free_count(old(bits)@, old(bits)@.len() as int) == 0,
        r matches Some(i) ==> first_clear(old(bits)@, i as int) && final(bits)@ == old(bits)@.update(i as int, true)
            && free_count(final(bits)@, final(bits)@.len() as int) == free_count(old(bits)@, old(bits)@.len() as int) - 1,
{
    let n = bits.len();
    let mut i: usize = 0;
    while i < n
        invariant
            n == bits@.len(),
            bits@ == old(bits)@,
            i <= n,
            forall|j: int| 0 <= j < i ==> #[trigger] bits@[j],
        decreases n - i,
    {
        if !bits[i] {
            bits.set(i, true);
            proof {
                lemma_free_count_set(old(bits)@, i as int, n as int);
            }
            return Some(i);
        }
        i = i + 1;
    }
    proof {
        lemma_free_count_bound(bits@, n as int);
        if free_count(bits@, n as int) > 0 {
            lemma_free_count_pos(bits@, n as int);
        }
    }
    None
}

/// Counts the clear bits.
pub(crate) fn count_free(bits: &Vec<bool>) -> (r: usize)
    ensures
        r == free_count(bits@, bits@.len() as int),
{
    let mut c: usize = 0;
    let mut i: usize = 0;
    while i < bits.len()
        invariant
            i <= bits@.len(),
            c == free_count(bits@, i as int),
            c <= i,
        decreases bits@.len() - i,
    {
        if !bits[i] {
            c = c + 1;
        }
        i = i + 1;
    }
    c
}

/// A mounted filesystem.
pub struct EasyFileSystem {
    /// The layout.
    pub sb: SuperBlock,
    /// One bit per inode: allocated.
    pub inode_bitmap: Vec<bool>,
    /// One bit per data block: allocated.
    pub data_bitmap: Vec<bool>,
    /// The inode table.
    pub inodes: Vec<DiskInode>,
    /// First block of the inode area.
    pub inode_area_start_block: u32,
    /// First block of the data area.
    pub data_area_start_block: u32,
    /// For each owned block id, the inode and the place in its map.
    pub owner: Ghost<Map<u32, (int, int)>>,
}

impl EasyFileSystem {
    /// Number of inodes.
    pub open spec fn n_inodes(&self) -> int {
        self.inodes@.len() as int
    }

    /// The root directory's entries.
    pub open spec fn root_entries(&self) -> Seq<DirEntry> {
        self.inodes@[0].entries@
    }

    /// Some root entry refers to inode `i`.
    pub open spec fn referenced(&self, i: int) -> bool {
        exists|k: int| 0 <= k < self.root_entries().len() && #[trigger] self.root_entries()[k].inode_number == i
    }

    /// Inode `i` is allocated.
    pub open spec fn allocated(&self, i: int) -> bool {
        self.inode_bitmap@[i]
    }

    /// Size, type, contents and block count of inode `i` agree.
    pub open spec fn inode_sized(&self, i: int) -> bool {
        let d = self.inodes@[i];
        &&& d.size <= MAX_FILE_SIZE
        &&& d.type_ == DiskInodeType::File ==> d.size == d.data@.len() && d.entries@.len() == 0
        &&& d.type_ == DiskInodeType::Directory ==> d.size == DIRENT_SZ * d.entries@.len() && d.data@.len() == 0
        &&& self.allocated(i) ==> d.blocks@.len() == total_blocks(d.size as int)
        &&& !self.allocated(i) ==> d.blocks@.len() == 0 && d.size == 0 && d.type_ == DiskInodeType::File
    }

    /// Root entry `k` is well formed: a non-empty name, and an allocated
    /// inode other than the root.
    pub open spec fn entry_ok(&self, k: int) -> bool {
        let e = self.root_entries()[k];
        &&& e.name@.len() > 0
        &&& name_bytes_ok(encode_utf8(e.name@))
        &&& 0 < e.inode_number < self.n_inodes()
        &&& self.allocated(e.inode_number as int)
    }

    /// Block `k` of inode `i`'s map.
    pub open spec fn block_of(&self, i: int, k: int) -> u32 {
        self.inodes@[i].blocks@[k]
    }

    /// Block `k` of inode `i`'s map lies in the data area, is marked in the
    /// data bitmap, and is recorded as owned there.
    pub open spec fn owned_ok(&self, i: int, k: int) -> bool {
        let b = self.block_of(i, k);
        &&& self.data_area_start_block <= b < self.data_area_start_block + self.data_bitmap@.len()
        &&& self.data_bitmap@[b - self.data_area_start_block]
        &&& self.owner@.contains_key(b)
        &&& self.owner@[b] == (i, k)
    }

    /// Everything but the per-inode sizes.
    pub open spec fn wf_core(&self) -> bool {
        self.wf_core_but(0)
    }

    /// Everything but the per-inode sizes, and but that inode `x` may be
    /// allocated before any entry refers to it.
    pub open spec fn wf_core_but(&self, x: int) -> bool {
        &&& self.inode_bitmap@.len() == self.inodes@.len()
        &&& 0 < self.n_inodes() <= MAX_INODE_BITMAP_BLOCKS * BLOCK_BITS
        &&& self.data_area_start_block + self.data_bitmap@.len() <= self.sb.total_blocks
        &&& self.data_area_start_block >= 1
        &&& self.inode_area_start_block == 1 + self.sb.inode_bitmap_blocks
        &&& self.n_inodes() == self.sb.inode_bitmap_blocks * BLOCK_BITS
        &&& self.data_area_start_block == self.inode_area_start_block + self.sb.inode_area_blocks + self.sb.data_bitmap_blocks
        &&& self.data_bitmap@.len() <= self.sb.data_bitmap_blocks * BLOCK_BITS
        &&& self.inode_area_start_block as int + self.n_inodes() / 4 <= u32::MAX
        &&& self.allocated(0)
        &&& self.inodes@[0].type_ == DiskInodeType::Directory
        &&& forall|i: int| 0 < i < self.n_inodes() ==> (#[trigger] self.inodes@[i]).type_ == DiskInodeType::File
        &&& forall|i: int, k: int|
            0 <= i < self.n_inodes() && 0 <= k < self.inodes@[i].blocks@.len() ==> #[trigger] self.owned_ok(i, k)
        &&& forall|k: int| 0 <= k < self.root_entries().len() ==> #[trigger] self.entry_ok(k)
        &&& forall|i: int| 0 < i < self.n_inodes() && i != x && #[trigger] self.allocated(i) ==> self.referenced(i)
    }

    /// The filesystem's invariant.
    pub open spec fn wf(&self) -> bool {
        &&& self.wf_core()
        &&& forall|i: int| 0 <= i < self.n_inodes() ==> #[trigger] self.inode_sized(i)
    }

    /// Number of allocated data blocks.
    pub open spec fn used_data(&self) -> int {
        self.data_bitmap@.len() - free_count(self.data_bitmap@, self.data_bitmap@.len() as int)
    }

    /// Number of allocated inodes.
    pub open spec fn used_inodes(&self) -> int {
        self.inode_bitmap@.len() - free_count(self.inode_bitmap@, self.inode_bitmap@.len() as int)
    }

    /// Lays out a device of `total_blocks` blocks with `inode_bitmap_blocks`
    /// blocks of inode bitmap, and creates the root directory. `None` when
    /// the bitmap size is out of range or the device is too small to hold
    /// the layout and a data area.
    pub fn create(total_blocks: u32, inode_bitmap_blocks: u32) -> (r: Option<Self>)
        ensures
            (1 <= inode_bitmap_blocks <= MAX_INODE_BITMAP_BLOCKS && total_blocks as int > 1 + inode_bitmap_blocks
                * (1 + BLOCK_BITS / 4) + 1) <==> r is Some,
            r matches Some(fs) ==> fs.wf() && fs.root_entries().len() == 0 && fs.inodes@[0].size == 0
                && fs.used_data() == 0 && fs.n_inodes() == inode_bitmap_blocks * BLOCK_BITS
                && fs.sb.magic == EFS_MAGIC && fs.sb.total_blocks == total_blocks,
            r matches Some(fs) ==> {
                let data_total = total_blocks - 1 - inode_bitmap_blocks * (1 + BLOCK_BITS / 4);
                &&& fs.sb.inode_bitmap_blocks == inode_bitmap_blocks
                &&& fs.sb.inode_area_blocks == inode_bitmap_blocks * (BLOCK_BITS / 4)
                &&& fs.sb.data_bitmap_blocks == (data_total + 4096) / 4097
                &&& fs.sb.data_area_blocks == data_total - fs.sb.data_bitmap_blocks
                &&& fs.sb.data_area_blocks >= 1
                &&& fs.data_bitmap@.len() == fs.sb.data_area_blocks
                &&& fs.inode_area_start_block == 1 + inode_bitmap_blocks
                &&& fs.data_area_start_block == 1 + inode_bitmap_blocks * (1 + BLOCK_BITS / 4) + fs.sb.data_bitmap_blocks
                &&& free_count(fs.data_bitmap@, fs.data_bitmap@.len() as int) == fs.data_bitmap@.len()
                &&& free_count(fs.inode_bitmap@, fs.inode_bitmap@.len() as int) == fs.n_inodes() - 1
                &&& forall|i: int| 0 < i < fs.n_inodes() ==> !#[trigger] fs.allocated(i)
            },
    {
        if inode_bitmap_blocks < 1 || inode_bitmap_blocks > MAX_INODE_BITMAP_BLOCKS {
            return None;
        }
        let inode_num: u32 = inode_bitmap_blocks * BLOCK_BITS as u32;
        let inode_area_blocks: u32 = inode_num / INODES_PER_BLOCK as u32;
        let inode_total_blocks: u32 = inode_bitmap_blocks + inode_area_blocks;
        assert(inode_total_blocks == inode_bitmap_blocks * (1 + BLOCK_BITS / 4)) by (nonlinear_arith)
            requires
                inode_num == inode_bitmap_blocks * 4096,
                inode_area_blocks == inode_num / 4,
                inode_total_blocks == inode_bitmap_blocks + inode_area_blocks,
        ;
        if total_blocks <= 1 + inode_total_blocks + 1 {
            return None;
        }
        let data_total_blocks: u32 = total_blocks - 1 - inode_total_blocks;
        let data_bitmap_blocks: u32 = ((data_total_blocks as u64 + 4096) / 4097) as u32;
        let data_area_blocks: u32 = data_total_blocks - data_bitmap_blocks;
        assert(data_area_blocks <= data_bitmap_blocks * 4096) by (nonlinear_arith)
            requires
                data_bitmap_blocks == (data_total_blocks + 4096) / 4097,
                data_area_blocks == data_total_blocks - data_bitmap_blocks,
        ;
        assert(data_area_blocks >= 1) by (nonlinear_arith)
            requires
                data_total_blocks >= 2,
                data_bitmap_blocks == (data_total_blocks + 4096) / 4097,
                data_area_blocks == data_total_blocks - data_bitmap_blocks,
        ;
        let sb = SuperBlock {
            magic: EFS_MAGIC,
            total_blocks,
            inode_bitmap_blocks,
            inode_area_blocks,
            data_bitmap_blocks,
            data_area_blocks,
        };
        let mut inode_bitmap: Vec<bool> = Vec::new();
        let mut inodes: Vec<DiskInode> = Vec::new();
        let mut i: u32 = 0;
        while i < inode_num
            invariant
                i <= inode_num,
                inode_bitmap@.len() == i,
                inodes@.len() == i,
                forall|j: int| 0 <= j < i ==> !#[trigger] inode_bitmap@[j],
                free_count(inode_bitmap@, i as int) == i,
                forall|j: int| 0 <= j < i ==> (#[trigger] inodes@[j]).size == 0 && inodes@[j].type_ == DiskInodeType::File
                    && inodes@[j].blocks@.len() == 0 && inodes@[j].data@.len() == 0 && inodes@[j].entries@.len() == 0,
            decreases inode_num - i,
        {
            let ghost before = inode_bitmap@;
            inode_bitmap.push(false);
            proof {
                lemma_free_count_same(inode_bitmap@, before, i as int);
            }
            inodes.push(DiskInode::initialize(DiskInodeType::File));
            i = i + 1;
        }
        let mut data_bitmap: Vec<bool> = Vec::new();
        let mut i: u32 = 0;
        while i < data_area_blocks
            invariant
                i <= data_area_blocks,
                data_bitmap@.len() == i,
                forall|j: int| 0 <= j < i ==> !#[trigger] data_bitmap@[j],
                free_count(data_bitmap@, i as int) == i,
            decreases data_area_blocks - i,
        {
            let ghost before = data_bitmap@;
            data_bitmap.push(false);
            proof {
                lemma_free_count_same(data_bitmap@, before, i as int);
            }
            i = i + 1;
        }
        let ghost ib = inode_bitmap@;
        inode_bitmap.set(0, true);
        proof {
            lemma_free_count_set(ib, 0, inode_num as int);
        }
        inodes.set(0, DiskInode::initialize(DiskInodeType::Directory));
        let fs = EasyFileSystem {
            sb,
            inode_bitmap,
            data_bitmap,
            inodes,
            inode_area_start_block: 1 + inode_bitmap_blocks,
            data_area_start_block: 1 + inode_total_blocks + data_bitmap_blocks,
            owner: Ghost(Map::empty()),
        };
        proof {
            assert forall|i: int| 0 <= i < fs.n_inodes() implies #[trigger] fs.inode_sized(i) by {}
            assert forall|i: int| 0 < i < fs.n_inodes() && #[trigger] fs.allocated(i) implies fs.referenced(i) by {}
        }
        Some(fs)
    }
}

impl EasyFileSystem {
    /// Everything of inode `j` but its block map is as in `o`, and every
    /// other inode, both bitmaps' shapes, the layout and the root entries
    /// are unchanged.
    pub open spec fn same_but_blocks(&self, o: &Self, i: int) -> bool {
        &&& self.inodes@.len() == o.inodes@.len()
        &&& self.inode_bitmap@ == o.inode_bitmap@
        &&& self.data_bitmap@.len() == o.data_bitmap@.len()
        &&& self.sb == o.sb
        &&& self.inode_area_start_block == o.inode_area_start_block
        &&& self.data_area_start_block == o.data_area_start_block
        &&& forall|j: int| 0 <= j < self.inodes@.len() && j != i ==> #[trigger] self.inodes@[j] == o.inodes@[j]
        &&& self.inodes@[i].size == o.inodes@[i].size
        &&& self.inodes@[i].type_ == o.inodes@[i].type_
        &&& self.inodes@[i].data == o.inodes@[i].data
        &&& self.inodes@[i].entries == o.inodes@[i].entries
    }

    /// Free data blocks.
    pub fn free_data(&self) -> (r: usize)
        ensures
            r == free_count(self.data_bitmap@, self.data_bitmap@.len() as int),
    {
        count_free(&self.data_bitmap)
    }

    /// Appends `k` freshly allocated data blocks to inode `i`'s map.
    pub fn grow_blocks(&mut self, i: usize, k: u32)
        requires
            old(self).wf_core(),
            i < old(self).n_inodes(),
            free_count(old(self).data_bitmap@, old(self).data_bitmap@.len() as int) >= k,
        ensures
            final(self).wf_core(),
            final(self).same_but_blocks(old(self), i as int),
            final(self).inodes@[i as int].blocks@.len() == old(self).inodes@[i as int].blocks@.len() + k,
            final(self).inodes@[i as int].blocks@.subrange(0, old(self).inodes@[i as int].blocks@.len() as int)
                == old(self).inodes@[i as int].blocks@,
            final(self).used_data() == old(self).used_data() + k,
    {
        let mut j: u32 = 0;
        while j < k
            invariant
                j <= k,
                i < self.n_inodes(),
                self.wf_core(),
                self.same_but_blocks(old(self), i as int),
                self.inodes@[i as int].blocks@.len() == old(self).inodes@[i as int].blocks@.len() + j,
                self.inodes@[i as int].blocks@.subrange(0, old(self).inodes@[i as int].blocks@.len() as int)
                    == old(self).inodes@[i as int].blocks@,
                self.used_data() == old(self).used_data() + j,
                free_count(self.data_bitmap@, self.data_bitmap@.len() as int) >= k - j,
            decreases k - j,
        {
            let ghost g = *self;
            proof {
                lemma_free_count_pos(self.data_bitmap@, self.data_bitmap@.len() as int);
            }
            let bit = alloc_bit(&mut self.data_bitmap);
            let bit = match bit {
                Some(x) => x,
                None => {
                    return;
                },
            };
            let b: u32 = self.data_area_start_block + bit as u32;
            let ghost pos = self.inodes@[i as int].blocks@.len() as int;
            proof {
                assert forall|i2: int, k2: int|
                    0 <= i2 < g.n_inodes() && 0 <= k2 < g.inodes@[i2].blocks@.len() implies g.block_of(i2, k2) != b by {
                    assert(g.owned_ok(i2, k2));
                }
            }
            self.inodes[i].blocks.push(b);
            self.owner = Ghost(self.owner@.insert(b, (i as int, pos)));
            proof {
                assert forall|i2: int, k2: int|
                    0 <= i2 < self.n_inodes() && 0 <= k2 < self.inodes@[i2].blocks@.len() implies #[trigger] self.owned_ok(i2, k2) by {
                    if i2 == i && k2 == pos {
                    } else {
                        assert(g.owned_ok(i2, k2));
                        assert(self.block_of(i2, k2) == g.block_of(i2, k2));
                    }
                }
                assert(self.inodes@[i as int].blocks@.subrange(0, old(self).inodes@[i as int].blocks@.len() as int)
                    =~= old(self).inodes@[i as int].blocks@);
                assert(self.root_entries() == g.root_entries());
                assert forall|k2: int| 0 <= k2 < self.root_entries().len() implies #[trigger] self.entry_ok(k2) by {
                    assert(g.entry_ok(k2));
                }
                assert forall|i2: int| 0 < i2 < self.n_inodes() && #[trigger] self.allocated(i2) implies self.referenced(i2) by {
                    assert(g.allocated(i2));
                    assert(g.referenced(i2));
                    let w = choose|w: int| 0 <= w < g.root_entries().len() && #[trigger] g.root_entries()[w].inode_number == i2;
                    assert(self.root_entries()[w].inode_number == i2);
                }
            }
            j = j + 1;
        }
    }

    /// Drops the tail of inode `i`'s map down to `m` blocks and frees them.
    pub fn shrink_blocks(&mut self, i: usize, m: usize)
        requires
            old(self).wf_core(),
            i < old(self).n_inodes(),
            m <= old(self).inodes@[i as int].blocks@.len(),
        ensures
            final(self).wf_core(),
            final(self).same_but_blocks(old(self), i as int),
            final(self).inodes@[i as int].blocks@ == old(self).inodes@[i as int].blocks@.subrange(0, m as int),
            final(self).used_data() == old(self).used_data() - (old(self).inodes@[i as int].blocks@.len() - m),
    {
        while self.inodes[i].blocks.len() > m
            invariant
                i < self.n_inodes(),
                self.wf_core(),
                self.same_but_blocks(old(self), i as int),
                m <= self.inodes@[i as int].blocks@.len(),
                self.inodes@[i as int].blocks@.len() <= old(self).inodes@[i as int].blocks@.len(),
                self.inodes@[i as int].blocks@ == old(self).inodes@[i as int].blocks@.subrange(
                    0,
                    self.inodes@[i as int].blocks@.len() as int,
                ),
                self.used_data() == old(self).used_data() - (old(self).inodes@[i as int].blocks@.len()
                    - self.inodes@[i as int].blocks@.len()),
            decreases self.inodes@[i as int].blocks@.len(),
        {
            let ghost g = *self;
            let ghost last = self.inodes@[i as int].blocks@.len() - 1;
            proof {
                assert(g.owned_ok(i as int, last));
            }
            let b = self.inodes[i].blocks.pop().unwrap();
            let bit = (b - self.data_area_start_block) as usize;
            let ghost before_bits = self.data_bitmap@;
            self.data_bitmap.set(bit, false);
            proof {
                lemma_free_count_clear(before_bits, bit as int, before_bits.len() as int);
                assert forall|i2: int, k2: int|
                    0 <= i2 < self.n_inodes() && 0 <= k2 < self.inodes@[i2].blocks@.len() implies #[trigger] self.owned_ok(i2, k2) by {
                    assert(g.owned_ok(i2, k2));
                    assert(self.block_of(i2, k2) == g.block_of(i2, k2));
                    if g.block_of(i2, k2) == b {
                        assert(g.owner@[b] == (i as int, last));
                    }
                }
                assert(self.inodes@[i as int].blocks@ == g.inodes@[i as int].blocks@.drop_last());
                assert(self.inodes@[i as int].blocks@ =~= old(self).inodes@[i as int].blocks@.subrange(
                    0,
                    self.inodes@[i as int].blocks@.len() as int,
                ));
                assert(self.root_entries() == g.root_entries());
                assert forall|k2: int| 0 <= k2 < self.root_entries().len() implies #[trigger] self.entry_ok(k2) by {
                    assert(g.entry_ok(k2));
                }
                assert forall|i2: int| 0 < i2 < self.n_inodes() && #[trigger] self.allocated(i2) implies self.referenced(i2) by {
                    assert(g.allocated(i2));
                    assert(g.referenced(i2));
                    let w = choose|w: int| 0 <= w < g.root_entries().len() && #[trigger] g.root_entries()[w].inode_number == i2;
                    assert(self.root_entries()[w].inode_number == i2);
                }
            }
        }
    }
}

} // verus!
