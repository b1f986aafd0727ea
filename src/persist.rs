//! Saving the root directory's entries to the device, 32 bytes each in the
//! directory's blocks, and reading the names back.
use vstd::prelude::*;
use vstd::utf8::{encode_utf8, valid_utf8, decode_utf8, encode_utf8_decode_utf8, encode_utf8_valid_utf8};
use crate::block_cache::{BlockCacheManager, BlockDevice, patch};
use crate::efs::{EasyFileSystem, DirEntry, name_bytes_ok, u32_le, le_bytes, lemma_u32_le_round_trip, read_u32_le, DIRENT_SZ};

verus! {

/// Entries per 512-byte block.
pub const DIRENTS_PER_BLOCK: usize = 16;

/// The 32 bytes of a directory entry: the name's bytes padded with zeros to
/// 27, the inode number as a little-endian `u32`, and one zero byte.
pub open spec fn dirent_bytes(name: Seq<u8>, ino: u32) -> Seq<u8> {
    name + Seq::new((27 - name.len()) as nat, |i: int| 0u8) + le_bytes(ino) + seq![0u8]
}

/// Where the name in a record ends: at the first zero byte from `i` on, or
/// at 27.
pub open spec fn name_end(r: Seq<u8>, i: int) -> int
    decreases 27 - i,
{
    if i >= 27 || r[i] == 0 {
        i
    } else {
        name_end(r, i + 1)
    }
}

/// The name bytes of a record.
pub open spec fn name_field(r: Seq<u8>) -> Seq<u8> {
    r.subrange(0, name_end(r, 0))
}

/// The record of root entry `k` as the blocks `l` hold it.
pub open spec fn slot_bytes(l: Seq<Seq<u8>>, fs: &EasyFileSystem, k: int) -> Seq<u8> {
    let off = (k % 16) * 32;
    l[fs.inodes@[0].blocks@[k / 16] as int].subrange(off, off + 32)
}

/// The record of root entry `k` as it is meant to be stored.
pub open spec fn entry_record(fs: &EasyFileSystem, k: int) -> Seq<u8> {
    let e = fs.root_entries()[k];
    dirent_bytes(encode_utf8(e.name@), e.inode_number)
}

/// Relies on `std::str::from_utf8`: it accepts exactly the valid UTF-8
/// byte strings, and the string it yields has those bytes.
#[verifier::external_body]
fn string_from_utf8(b: &[u8]) -> (r: Option<String>)
    ensures
        valid_utf8(b@) <==> r is Some,
        r matches Some(s) ==> encode_utf8(s@) == b@,
{
    match std::str::from_utf8(b) {
        Ok(s) => Some(s.to_string()),
        Err(_) => None,
    }
}

/// A record's name field and inode number read back as stored.
pub proof fn lemma_dirent_round_trip(name: Seq<u8>, ino: u32)
    requires
        name_bytes_ok(name),
    ensures
        dirent_bytes(name, ino).len() == DIRENT_SZ,
        name_field(dirent_bytes(name, ino)) == name,
        u32_le(dirent_bytes(name, ino), 27) == ino,
{
    let r = dirent_bytes(name, ino);
    lemma_name_end(name, ino, 0);
    assert(r.subrange(0, name.len() as int) =~= name);
    lemma_u32_le_round_trip(ino);
    assert(r[27] == le_bytes(ino)[0] && r[28] == le_bytes(ino)[1] && r[29] == le_bytes(ino)[2] && r[30] == le_bytes(ino)[3]);
}

proof fn lemma_name_end(name: Seq<u8>, ino: u32, i: int)
    requires
        name_bytes_ok(name),
        0 <= i <= name.len(),
    ensures
        name_end(dirent_bytes(name, ino), i) == name.len(),
    decreases name.len() - i,
{
    let r = dirent_bytes(name, ino);
    if i < name.len() {
        assert(r[i] == name[i]);
        lemma_name_end(name, ino, i + 1);
    }
}

/// Names with equal bytes are equal.
pub proof fn lemma_utf8_injective(s: Seq<char>, t: Seq<char>)
    requires
        encode_utf8(s) == encode_utf8(t),
    ensures
        s == t,
{
    encode_utf8_decode_utf8(s);
    encode_utf8_decode_utf8(t);
}

/// The name in a record read back as a string, with the inode number.
pub fn decode_dirent(rec: &[u8]) -> (r: Option<(String, u32)>)
    requires
        rec@.len() >= DIRENT_SZ,
    ensures
        valid_utf8(name_field(rec@)) <==> r is Some,
        r matches Some(p) ==> encode_utf8(p.0@) == name_field(rec@) && p.1 == u32_le(rec@, 27),
{
    let mut i: usize = 0;
    while i < 27 && rec[i] != 0
        invariant
            i <= 27,
            rec@.len() >= DIRENT_SZ,
            name_end(rec@, i as int) == name_end(rec@, 0),
        decreases 27 - i,
    {
        i = i + 1;
    }
    let mut name: Vec<u8> = Vec::new();
    let mut j: usize = 0;
    while j < i
        invariant
            j <= i <= 27,
            rec@.len() >= DIRENT_SZ,
            name@ == rec@.subrange(0, j as int),
        decreases i - j,
    {
        name.push(rec[j]);
        j = j + 1;
    }
    assert(name@ == name_field(rec@));
    match string_from_utf8(name.as_slice()) {
        Some(s) => Some((s, read_u32_le(rec, 27))),
        None => None,
    }
}

impl DirEntry {
    /// The entry's 32-byte record.
    pub fn as_bytes(&self) -> (r: Vec<u8>)
        requires
            name_bytes_ok(encode_utf8(self.name@)),
        ensures
            r@ == dirent_bytes(encode_utf8(self.name@), self.inode_number),
    {
        let b = self.name.as_str().as_bytes();
        let mut r: Vec<u8> = Vec::new();
        let mut i: usize = 0;
        while i < b.len()
            invariant
                i <= b@.len(),
                b@ == encode_utf8(self.name@),
                r@ == b@.subrange(0, i as int),
            decreases b@.len() - i,
        {
            r.push(b[i]);
            i = i + 1;
        }
        while r.len() < 27
            invariant
                b@ == encode_utf8(self.name@),
                b@.len() <= r@.len() <= 27,
                r@ == b@ + Seq::new((r@.len() - b@.len()) as nat, |j: int| 0u8),
            decreases 27 - r@.len(),
        {
            r.push(0);
            assert(r@ =~= b@ + Seq::new((r@.len() - b@.len()) as nat, |j: int| 0u8));
        }
        let x = self.inode_number;
        r.push(x as u8);
        r.push((x >> 8) as u8);
        r.push((x >> 16) as u8);
        r.push((x >> 24) as u8);
        r.push(0);
        assert(r@ =~= dirent_bytes(encode_utf8(self.name@), self.inode_number));
        r
    }
}

/// Distinct places in the root's map hold distinct blocks.
proof fn lemma_root_blocks_distinct(fs: &EasyFileSystem, i: int, j: int)
    requires
        fs.wf_core(),
        0 <= i < fs.inodes@[0].blocks@.len(),
        0 <= j < fs.inodes@[0].blocks@.len(),
        i != j,
    ensures
        fs.inodes@[0].blocks@[i] != fs.inodes@[0].blocks@[j],
{
    assert(fs.owned_ok(0, i));
    assert(fs.owned_ok(0, j));
}

/// The blocks of the root's map that hold its entries exist, and lie on a
/// device of `n` blocks.
proof fn lemma_slot_in_range(fs: &EasyFileSystem, k: int, n: int)
    requires
        fs.wf(),
        0 <= k < fs.root_entries().len(),
        n >= fs.sb.total_blocks,
    ensures
        k / 16 < fs.inodes@[0].blocks@.len(),
        (fs.inodes@[0].blocks@[k / 16] as int) < n,
{
    assert(fs.inode_sized(0));
    let size = fs.inodes@[0].size as int;
    let len = fs.root_entries().len() as int;
    assert(size == 32 * len);
    assert(k / 16 < (size + 511) / 512) by (nonlinear_arith)
        requires
            0 <= k < len,
            size == 32 * len,
    ;
    crate::vfs::lemma_map_covers_size(fs, 0);
    assert(fs.owned_ok(0, k / 16));
}

/// Block `b` with bytes `[off, off + 32)` replaced by `rec` still holds, in
/// a disjoint slot, what it held there.
proof fn lemma_patch_other_slot(b: Seq<u8>, off: int, rec: Seq<u8>, off2: int)
    requires
        b.len() == 512,
        rec.len() == 32,
        0 <= off && off + 32 <= 512,
        0 <= off2 && off2 + 32 <= 512,
        off + 32 <= off2 || off2 + 32 <= off,
    ensures
        patch(b, off, rec).subrange(off2, off2 + 32) == b.subrange(off2, off2 + 32),
{
    assert(patch(b, off, rec).subrange(off2, off2 + 32) =~= b.subrange(off2, off2 + 32));
}

impl EasyFileSystem {
    /// Writes every root entry's record into the root's blocks through the
    /// cache: entry `k` at byte `32 * (k % 16)` of the map's block `k / 16`.
    pub fn store_root_dir(&self, cache: &mut BlockCacheManager, dev: &mut BlockDevice)
        requires
            self.wf(),
            old(cache).wf(old(dev)),
            old(dev)@.len() >= self.sb.total_blocks,
        ensures
            final(cache).wf(final(dev)),
            final(dev)@.len() == old(dev)@.len(),
            forall|k: int| 0 <= k < self.root_entries().len() ==> #[trigger] slot_bytes(final(cache).logical(final(dev)), self, k)
                == entry_record(self, k),
    {
        let n = self.inodes[0].entries.len();
        let mut k: usize = 0;
        while k < n
            invariant
                self.wf(),
                n == self.root_entries().len(),
                k <= n,
                cache.wf(dev),
                dev@.len() == old(dev)@.len(),
                dev@.len() >= self.sb.total_blocks,
                forall|j: int| 0 <= j < k ==> #[trigger] slot_bytes(cache.logical(dev), self, j) == entry_record(self, j),
            decreases n - k,
        {
            proof {
                lemma_slot_in_range(self, k as int, dev@.len() as int);
                assert(self.entry_ok(k as int));
            }
            let b = self.inodes[0].blocks[k / DIRENTS_PER_BLOCK] as usize;
            let off = (k % DIRENTS_PER_BLOCK) * DIRENT_SZ;
            let rec = self.inodes[0].entries[k].as_bytes();
            proof {
                lemma_dirent_round_trip(encode_utf8(self.root_entries()[k as int].name@), self.root_entries()[k as int].inode_number);
            }
            let ghost l0 = cache.logical(dev);
            proof {
                cache.lemma_logical_len(dev, b as int);
            }
            cache.modify(dev, b, off, rec.as_slice());
            proof {
                let l1 = cache.logical(dev);
                assert(l0.len() == dev@.len());
                assert(rec@ == entry_record(self, k as int));
                assert forall|j: int| 0 <= j < k + 1 implies #[trigger] slot_bytes(l1, self, j) == entry_record(self, j) by {
                    lemma_slot_in_range(self, j, dev@.len() as int);
                    let bj = self.inodes@[0].blocks@[j / 16] as int;
                    let offj = (j % 16) * 32;
                    assert(slot_bytes(l1, self, j) == l1[bj].subrange(offj, offj + 32));
                    if j == k {
                        assert(bj == b);
                        assert(offj == off);
                        assert(l1[b as int] == patch(l0[b as int], off as int, rec@));
                        assert(l1[b as int].subrange(offj, offj + 32) =~= rec@);
                    } else {
                        assert(slot_bytes(l0, self, j) == entry_record(self, j));
                        assert(slot_bytes(l0, self, j) == l0[bj].subrange(offj, offj + 32));
                        if bj != b {
                            assert(l1[bj] == l0[bj]);
                        } else {
                            if j / 16 != k / 16 {
                                lemma_root_blocks_distinct(self, j / 16, k as int / 16);
                            }
                            assert(j / 16 == k / 16);
                            assert(j % 16 != k % 16);
                            assert(offj + 32 <= off || off + 32 <= offj);
                            lemma_patch_other_slot(l0[b as int], off as int, rec@, offj);
                            assert(l1[bj] == patch(l0[b as int], off as int, rec@));
                        }
                    }
                }
            }
            k = k + 1;
        }
    }
}

/// Reads the names of the root's entries back from the root's blocks
/// through the cache. `None` when some stored name is not valid UTF-8.
pub fn load_root_names(fs: &EasyFileSystem, cache: &mut BlockCacheManager, dev: &mut BlockDevice) -> (r: Option<Vec<String>>)
    requires
        fs.wf(),
        old(cache).wf(old(dev)),
        old(dev)@.len() >= fs.sb.total_blocks,
    ensures
        final(cache).wf(final(dev)),
        final(dev)@.len() == old(dev)@.len(),
        final(cache).logical(final(dev)) == old(cache).logical(old(dev)),
        (forall|k: int| 0 <= k < fs.root_entries().len() ==> valid_utf8(
            #[trigger] name_field(slot_bytes(old(cache).logical(old(dev)), fs, k)),
        )) <==> r is Some,
        r matches Some(v) ==> v@.len() == fs.root_entries().len() && forall|k: int| 0 <= k < v@.len() ==> encode_utf8(
            (#[trigger] v@[k])@,
        ) == name_field(slot_bytes(old(cache).logical(old(dev)), fs, k)),
{
    let ghost l0 = cache.logical(dev);
    let n = fs.inodes[0].entries.len();
    let mut v: Vec<String> = Vec::new();
    let mut k: usize = 0;
    while k < n
        invariant
            fs.wf(),
            n == fs.root_entries().len(),
            k <= n,
            cache.wf(dev),
            dev@.len() == old(dev)@.len(),
            dev@.len() >= fs.sb.total_blocks,
            cache.logical(dev) == l0,
            l0 == old(cache).logical(old(dev)),
            v@.len() == k,
            forall|j: int| 0 <= j < k ==> valid_utf8(#[trigger] name_field(slot_bytes(l0, fs, j))),
            forall|j: int| 0 <= j < k ==> encode_utf8((#[trigger] v@[j])@) == name_field(slot_bytes(l0, fs, j)),
        decreases n - k,
    {
        proof {
            lemma_slot_in_range(fs, k as int, dev@.len() as int);
        }
        let b = fs.inodes[0].blocks[k / DIRENTS_PER_BLOCK] as usize;
        let off = (k % DIRENTS_PER_BLOCK) * DIRENT_SZ;
        let rec = cache.read(dev, b, off, DIRENT_SZ);
        assert(rec@ == slot_bytes(l0, fs, k as int));
        match decode_dirent(rec.as_slice()) {
            Some((name, _ino)) => {
                v.push(name);
            },
            None => {
                return None;
            },
        }
        k = k + 1;
    }
    Some(v)
}

/// Names written by `store_root_dir` and read back by `load_root_names`
/// are the directory's names, in directory order.
pub proof fn lemma_names_survive(fs: &EasyFileSystem, l: Seq<Seq<u8>>, names: Seq<Seq<char>>)
    requires
        fs.wf(),
        forall|k: int| 0 <= k < fs.root_entries().len() ==> #[trigger] slot_bytes(l, fs, k) == entry_record(fs, k),
        names.len() == fs.root_entries().len(),
        forall|k: int| 0 <= k < names.len() ==> encode_utf8(#[trigger] names[k]) == name_field(slot_bytes(l, fs, k)),
    ensures
        forall|k: int| 0 <= k < fs.root_entries().len() ==> valid_utf8(#[trigger] name_field(slot_bytes(l, fs, k))),
        forall|k: int| 0 <= k < names.len() ==> #[trigger] names[k] == fs.root_entries()[k].name@,
{
    assert forall|k: int| 0 <= k < fs.root_entries().len() implies valid_utf8(#[trigger] name_field(slot_bytes(l, fs, k))) by {
        assert(fs.entry_ok(k));
        let e = fs.root_entries()[k];
        lemma_dirent_round_trip(encode_utf8(e.name@), e.inode_number);
        encode_utf8_valid_utf8(e.name@);
    }
    assert forall|k: int| 0 <= k < names.len() implies #[trigger] names[k] == fs.root_entries()[k].name@ by {
        assert(fs.entry_ok(k));
        let e = fs.root_entries()[k];
        lemma_dirent_round_trip(encode_utf8(e.name@), e.inode_number);
        lemma_utf8_injective(names[k], e.name@);
    }
}

/// Bytes of chunk `c` of `d`: `[512 c, min(512 (c + 1), len))`.
pub open spec fn chunk(d: Seq<u8>, c: int) -> Seq<u8> {
    let end = if 512 * (c + 1) < d.len() { 512 * (c + 1) } else { d.len() as int };
    d.subrange(512 * c, end)
}

/// Number of chunks of `d`.
pub open spec fn n_chunks(d: Seq<u8>) -> int {
    (d.len() as int + 511) / 512
}

/// The blocks `l` hold the bytes of file `t`: chunk `c` at the start of
/// the map's block `c`.
pub open spec fn file_stored(l: Seq<Seq<u8>>, fs: &EasyFileSystem, t: int) -> bool {
    let d = fs.inodes@[t].data@;
    forall|c: int| 0 <= c < n_chunks(d) ==> #[trigger] l[fs.inodes@[t].blocks@[c] as int].subrange(0, chunk(d, c).len() as int)
        == chunk(d, c)
}

/// Inode `t`'s chunks lie in its map, on a device of `n` blocks, and
/// differ from every other inode's blocks.
proof fn lemma_chunk_block(fs: &EasyFileSystem, t: int, c: int, n: int)
    requires
        fs.wf(),
        0 <= t < fs.n_inodes(),
        fs.allocated(t),
        fs.inodes@[t].type_ == crate::efs::DiskInodeType::File,
        0 <= c < n_chunks(fs.inodes@[t].data@),
        n >= fs.sb.total_blocks,
    ensures
        c < fs.inodes@[t].blocks@.len(),
        1 <= (fs.inodes@[t].blocks@[c] as int) < n,
        forall|i: int, k: int| 0 <= i < fs.n_inodes() && 0 <= k < fs.inodes@[i].blocks@.len() && (i, k) != (t, c)
            ==> #[trigger] fs.inodes@[i].blocks@[k] != fs.inodes@[t].blocks@[c],
{
    assert(fs.inode_sized(t));
    crate::vfs::lemma_map_covers_size(fs, t);
    assert(fs.owned_ok(t, c));
    assert forall|i: int, k: int| 0 <= i < fs.n_inodes() && 0 <= k < fs.inodes@[i].blocks@.len() && (i, k) != (t, c)
        implies #[trigger] fs.inodes@[i].blocks@[k] != fs.inodes@[t].blocks@[c] by {
        assert(fs.owned_ok(i, k));
    }
}

/// The bytes of chunk `c` of `v`.
fn chunk_of(v: &Vec<u8>, c: usize) -> (r: Vec<u8>)
    requires
        512 * c < v@.len(),
        v@.len() <= crate::efs::MAX_FILE_SIZE,
    ensures
        r@ == chunk(v@, c as int),
        r@.len() <= 512,
{
    assert(c < 16540);
    let start = 512 * c;
    let end = if v.len() - start > 512 { start + 512 } else { v.len() };
    let mut r: Vec<u8> = Vec::new();
    let mut i = start;
    while i < end
        invariant
            start <= i <= end <= v@.len(),
            end - start <= 512,
            r@ == v@.subrange(start as int, i as int),
        decreases end - i,
    {
        r.push(v[i]);
        i = i + 1;
    }
    r
}

impl EasyFileSystem {
    /// Writes the bytes of live file `t` into its blocks through the cache.
    pub fn store_file(&self, t: usize, cache: &mut BlockCacheManager, dev: &mut BlockDevice)
        requires
            self.wf(),
            0 < t < self.n_inodes(),
            self.allocated(t as int),
            old(cache).wf(old(dev)),
            old(dev)@.len() >= self.sb.total_blocks,
        ensures
            final(cache).wf(final(dev)),
            final(dev)@.len() == old(dev)@.len(),
            file_stored(final(cache).logical(final(dev)), self, t as int),
            forall|b: int| 0 <= b < old(dev)@.len() && !(exists|k: int| 0 <= k < self.inodes@[t as int].blocks@.len()
                && #[trigger] self.inodes@[t as int].blocks@[k] == b) ==> #[trigger] final(cache).logical(final(dev))[b]
                == old(cache).logical(old(dev))[b],
    {
        proof {
            assert(self.inodes@[t as int].type_ == crate::efs::DiskInodeType::File);
            assert(self.inode_sized(t as int));
        }
        let ghost l00 = cache.logical(dev);
        let ghost d = self.inodes@[t as int].data@;
        let len = self.inodes[t].data.len();
        let nc = (len + 511) / 512;
        let mut c: usize = 0;
        while c < nc
            invariant
                self.wf(),
                0 < t < self.n_inodes(),
                self.allocated(t as int),
                self.inodes@[t as int].type_ == crate::efs::DiskInodeType::File,
                d == self.inodes@[t as int].data@,
                len == d.len(),
                len <= crate::efs::MAX_FILE_SIZE,
                nc == n_chunks(d),
                c <= nc,
                cache.wf(dev),
                dev@.len() == old(dev)@.len(),
                dev@.len() >= self.sb.total_blocks,
                l00 == old(cache).logical(old(dev)),
                forall|j: int| 0 <= j < c ==> #[trigger] cache.logical(dev)[self.inodes@[t as int].blocks@[j] as int].subrange(
                    0,
                    chunk(d, j).len() as int,
                ) == chunk(d, j),
                forall|b: int| 0 <= b < dev@.len() && !(exists|k: int| 0 <= k < c && #[trigger] self.inodes@[t as int].blocks@[k] == b)
                    ==> #[trigger] cache.logical(dev)[b] == l00[b],
            decreases nc - c,
        {
            proof {
                lemma_chunk_block(self, t as int, c as int, dev@.len() as int);
            }
            let b = self.inodes[t].blocks[c] as usize;
            let bytes = chunk_of(&self.inodes[t].data, c);
            let ghost l0 = cache.logical(dev);
            proof {
                cache.lemma_logical_len(dev, b as int);
            }
            cache.modify(dev, b, 0, bytes.as_slice());
            proof {
                let l1 = cache.logical(dev);
                assert forall|j: int| 0 <= j < c + 1 implies #[trigger] l1[self.inodes@[t as int].blocks@[j] as int].subrange(
                    0,
                    chunk(d, j).len() as int,
                ) == chunk(d, j) by {
                    if j == c {
                        assert(l1[b as int].subrange(0, bytes@.len() as int) =~= bytes@);
                    } else {
                        lemma_chunk_block(self, t as int, j, dev@.len() as int);
                        assert(self.inodes@[t as int].blocks@[j] != self.inodes@[t as int].blocks@[c as int]);
                    }
                }
                assert forall|x: int| 0 <= x < dev@.len() && !(exists|k: int| 0 <= k < c + 1 && #[trigger] self.inodes@[t as int].blocks@[k] == x)
                    implies #[trigger] l1[x] == l00[x] by {
                    assert(x != b);
                }
            }
            c = c + 1;
        }
        proof {
            assert forall|b: int| 0 <= b < dev@.len() && !(exists|k: int| 0 <= k < self.inodes@[t as int].blocks@.len()
                && #[trigger] self.inodes@[t as int].blocks@[k] == b) implies #[trigger] cache.logical(dev)[b] == l00[b] by {
                if exists|k: int| 0 <= k < c && #[trigger] self.inodes@[t as int].blocks@[k] == b {
                    let k = choose|k: int| 0 <= k < c && #[trigger] self.inodes@[t as int].blocks@[k] == b;
                    lemma_chunk_block(self, t as int, k, dev@.len() as int);
                }
            }
        }
    }
}

/// A block of inode `i`'s map is in no other inode's map.
proof fn lemma_blocks_disjoint(fs: &EasyFileSystem, i: int, k: int, j: int)
    requires
        fs.wf_core(),
        0 <= i < fs.n_inodes(),
        0 <= j < fs.n_inodes(),
        i != j,
        0 <= k < fs.inodes@[i].blocks@.len(),
    ensures
        !(exists|k2: int| 0 <= k2 < fs.inodes@[j].blocks@.len() && #[trigger] fs.inodes@[j].blocks@[k2] == fs.inodes@[i].blocks@[k]),
        fs.inodes@[i].blocks@[k] >= 1,
{
    assert(fs.owned_ok(i, k));
    if exists|k2: int| 0 <= k2 < fs.inodes@[j].blocks@.len() && #[trigger] fs.inodes@[j].blocks@[k2] == fs.inodes@[i].blocks@[k] {
        let k2 = choose|k2: int| 0 <= k2 < fs.inodes@[j].blocks@.len() && #[trigger] fs.inodes@[j].blocks@[k2] == fs.inodes@[i].blocks@[k];
        assert(fs.owned_ok(j, k2));
    }
}

/// Reads the bytes of live file `t` back from its blocks through the cache.
pub fn load_file(fs: &EasyFileSystem, t: usize, cache: &mut BlockCacheManager, dev: &mut BlockDevice) -> (r: Vec<u8>)
    requires
        fs.wf(),
        0 < t < fs.n_inodes(),
        fs.allocated(t as int),
        old(cache).wf(old(dev)),
        old(dev)@.len() >= fs.sb.total_blocks,
    ensures
        final(cache).wf(final(dev)),
        final(dev)@.len() == old(dev)@.len(),
        final(cache).logical(final(dev)) == old(cache).logical(old(dev)),
        r@.len() == fs.inodes@[t as int].size,
        file_stored(old(cache).logical(old(dev)), fs, t as int) ==> r@ == fs.inodes@[t as int].data@,
{
    proof {
        assert(fs.inodes@[t as int].type_ == crate::efs::DiskInodeType::File);
        assert(fs.inode_sized(t as int));
    }
    let ghost l0 = cache.logical(dev);
    let ghost d = fs.inodes@[t as int].data@;
    let len = fs.inodes[t].size as usize;
    let nc = (len + 511) / 512;
    let mut r: Vec<u8> = Vec::new();
    let mut c: usize = 0;
    while c < nc
        invariant
            fs.wf(),
            0 < t < fs.n_inodes(),
            fs.allocated(t as int),
            fs.inodes@[t as int].type_ == crate::efs::DiskInodeType::File,
            d == fs.inodes@[t as int].data@,
            len == d.len(),
            len <= crate::efs::MAX_FILE_SIZE,
            nc == n_chunks(d),
            c <= nc,
            cache.wf(dev),
            dev@.len() == old(dev)@.len(),
            dev@.len() >= fs.sb.total_blocks,
            cache.logical(dev) == l0,
            l0 == old(cache).logical(old(dev)),
            r@.len() == if 512 * c < len { 512 * c } else { len as int },
            file_stored(l0, fs, t as int) ==> r@ == d.subrange(0, r@.len() as int),
        decreases nc - c,
    {
        proof {
            lemma_chunk_block(fs, t as int, c as int, dev@.len() as int);
        }
        let b = fs.inodes[t].blocks[c] as usize;
        let start = 512 * c;
        let n = if len - start > 512 { 512 } else { len - start };
        proof {
            cache.lemma_logical_len(dev, b as int);
        }
        let mut piece = cache.read(dev, b, 0, n);
        proof {
            if file_stored(l0, fs, t as int) {
                assert(l0[b as int].subrange(0, chunk(d, c as int).len() as int) == chunk(d, c as int));
                assert(r@ + piece@ =~= d.subrange(0, start + n));
            }
        }
        r.append(&mut piece);
        c = c + 1;
    }
    proof {
        if file_stored(l0, fs, t as int) {
            assert(d.subrange(0, len as int) =~= d);
        }
    }
    r
}

/// Everything `sync_to_device` leaves on the device: the superblock at the
/// start of block 0, the root's entry records, and every live file's bytes.
pub open spec fn persisted(l: Seq<Seq<u8>>, fs: &EasyFileSystem) -> bool {
    &&& l[0].subrange(0, 24) == crate::efs::sb_bytes(fs.sb)
    &&& forall|k: int| 0 <= k < fs.root_entries().len() ==> #[trigger] slot_bytes(l, fs, k) == entry_record(fs, k)
    &&& forall|t: int| 0 < t < fs.n_inodes() && fs.allocated(t) ==> #[trigger] file_stored(l, fs, t)
    &&& bitmap_stored(l, 1, fs.inode_bitmap@)
    &&& bitmap_stored(l, fs.data_area_start_block - fs.sb.data_bitmap_blocks, fs.data_bitmap@)
}

/// Reads `len` bits stored from block `start` back through the cache.
pub fn load_bitmap(start: usize, len: usize, cache: &mut BlockCacheManager, dev: &mut BlockDevice) -> (r: Vec<bool>)
    requires
        old(cache).wf(old(dev)),
        len <= u32::MAX,
        start + (((len as int + 7) / 8) + 511) / 512 <= old(dev)@.len(),
    ensures
        final(cache).wf(final(dev)),
        final(dev)@.len() == old(dev)@.len(),
        final(cache).logical(final(dev)) == old(cache).logical(old(dev)),
        r@.len() == len,
        forall|bits: Seq<bool>| bits.len() == len && #[trigger] bitmap_stored(old(cache).logical(old(dev)), start as int, bits)
            ==> r@ == bits,
{
    let ghost l0 = cache.logical(dev);
    let mut r: Vec<bool> = Vec::new();
    let mut i: usize = 0;
    while i < len
        invariant
            cache.wf(dev),
            dev@.len() == old(dev)@.len(),
            len <= u32::MAX,
            start + (((len as int + 7) / 8) + 511) / 512 <= dev@.len(),
            cache.logical(dev) == l0,
            l0 == old(cache).logical(old(dev)),
            i <= len,
            r@.len() == i,
            forall|bits: Seq<bool>| bits.len() == len && #[trigger] bitmap_stored(l0, start as int, bits)
                ==> r@ == bits.subrange(0, i as int),
        decreases len - i,
    {
        let j = i / 8;
        proof {
            assert(j / 512 < (((len as int + 7) / 8) + 511) / 512) by (nonlinear_arith)
                requires
                    i < len,
                    j == i / 8,
            ;
        }
        let dl = dev.len();
        let blk = start + j / 512;
        proof {
            cache.lemma_logical_len(dev, blk as int);
        }
        let piece = cache.read(dev, blk, j % 512, 1);
        let byte = piece[0];
        let k = (i % 8) as u8;
        let bit = (byte >> k) & 1u8 == 1u8;
        proof {
            assert(byte == l0[blk as int][(j % 512) as int]);
            assert forall|bits: Seq<bool>| bits.len() == len && #[trigger] bitmap_stored(l0, start as int, bits)
                implies r@.push(bit) == bits.subrange(0, i + 1) by {
                assert(byte_stored(l0, start as int, bits, j as int));
                assert(bit_at(byte, k) == (8 * j + k < bits.len() && bits[8 * j + k]));
                assert(8 * j + k == i);
                assert(r@ == bits.subrange(0, i as int));
                assert(r@.push(bit) =~= bits.subrange(0, i + 1));
            }
        }
        r.push(bit);
        i = i + 1;
    }
    proof {
        assert forall|bits: Seq<bool>| bits.len() == len && #[trigger] bitmap_stored(l0, start as int, bits)
            implies r@ == bits by {
            assert(bits.subrange(0, len as int) =~= bits);
        }
    }
    r
}

/// Where the data bitmap starts.
pub open spec fn data_bitmap_start(fs: &EasyFileSystem) -> int {
    fs.data_area_start_block - fs.sb.data_bitmap_blocks
}

/// A stored bitmap stays stored while its blocks are untouched.
proof fn lemma_bitmap_frame(l0: Seq<Seq<u8>>, l1: Seq<Seq<u8>>, start: int, bits: Seq<bool>)
    requires
        bitmap_stored(l0, start, bits),
        forall|b: int| start <= b < start + n_bitmap_blocks(bits) ==> #[trigger] l1[b] == l0[b],
    ensures
        bitmap_stored(l1, start, bits),
{
    assert forall|j: int| 0 <= j < n_bytes(bits) implies #[trigger] byte_stored(l1, start, bits, j) by {
        assert(byte_stored(l0, start, bits, j));
        assert(j / 512 < n_bitmap_blocks(bits)) by (nonlinear_arith)
            requires
                0 <= j < n_bytes(bits),
                n_bitmap_blocks(bits) == (n_bytes(bits) + 511) / 512,
        ;
        assert(l1[start + j / 512] == l0[start + j / 512]);
        assert forall|k: u8| k < 8 implies #[trigger] bit_at(l1[start + j / 512][j % 512], k) == (8 * j + k < bits.len() && bits[8 * j + k]) by {
            assert(bit_at(l0[start + j / 512][j % 512], k) == (8 * j + k < bits.len() && bits[8 * j + k]));
        }
    }
}

/// The two bitmaps' blocks lie below the data area, the inode bitmap's
/// below the data bitmap's, and both above block 0.
proof fn lemma_bitmap_ranges(fs: &EasyFileSystem)
    requires
        fs.wf(),
    ensures
        1 + n_bitmap_blocks(fs.inode_bitmap@) <= data_bitmap_start(fs),
        1 <= data_bitmap_start(fs),
        data_bitmap_start(fs) + n_bitmap_blocks(fs.data_bitmap@) <= fs.data_area_start_block,
        fs.data_area_start_block <= fs.sb.total_blocks,
        fs.inode_bitmap@.len() <= u32::MAX,
        fs.data_bitmap@.len() <= u32::MAX,
{
    let ib = fs.sb.inode_bitmap_blocks as int;
    let db = fs.sb.data_bitmap_blocks as int;
    assert(n_bitmap_blocks(fs.inode_bitmap@) <= ib) by (nonlinear_arith)
        requires
            fs.inode_bitmap@.len() == ib * 4096,
            n_bitmap_blocks(fs.inode_bitmap@) == ((fs.inode_bitmap@.len() as int + 7) / 8 + 511) / 512,
    ;
    assert(n_bitmap_blocks(fs.data_bitmap@) <= db) by (nonlinear_arith)
        requires
            fs.data_bitmap@.len() <= db * 4096,
            n_bitmap_blocks(fs.data_bitmap@) == ((fs.data_bitmap@.len() as int + 7) / 8 + 511) / 512,
    ;
}

impl EasyFileSystem {
    /// Writes the superblock, the root's entries and every live file's bytes
    /// through the cache, then writes every dirty block to the device.
    pub fn sync_to_device(&self, cache: &mut BlockCacheManager, dev: &mut BlockDevice)
        requires
            self.wf(),
            old(cache).wf(old(dev)),
            old(dev)@.len() >= self.sb.total_blocks,
            old(dev)@.len() > 0,
        ensures
            final(cache).wf(final(dev)),
            final(dev)@.len() == old(dev)@.len(),
            final(dev)@ == final(cache).logical(final(dev)),
            persisted(final(dev)@, self),
    {
        self.store_root_dir(cache, dev);
        let n = self.inodes.len();
        let mut t: usize = 1;
        while t < n
            invariant
                self.wf(),
                n == self.n_inodes(),
                1 <= t <= n,
                cache.wf(dev),
                dev@.len() == old(dev)@.len(),
                dev@.len() >= self.sb.total_blocks,
                forall|k: int| 0 <= k < self.root_entries().len() ==> #[trigger] slot_bytes(cache.logical(dev), self, k)
                    == entry_record(self, k),
                forall|u: int| 0 < u < t && self.allocated(u) ==> #[trigger] file_stored(cache.logical(dev), self, u),
            decreases n - t,
        {
            if self.inode_bitmap[t] {
                let ghost l0 = cache.logical(dev);
                self.store_file(t, cache, dev);
                proof {
                    let l1 = cache.logical(dev);
                    assert forall|k: int| 0 <= k < self.root_entries().len() implies #[trigger] slot_bytes(l1, self, k)
                        == entry_record(self, k) by {
                        lemma_slot_in_range(self, k, dev@.len() as int);
                        lemma_blocks_disjoint(self, 0, k / 16, t as int);
                        let b = self.inodes@[0].blocks@[k / 16] as int;
                        assert(l1[b] == l0[b]);
                        assert(slot_bytes(l0, self, k) == entry_record(self, k));
                    }
                    assert forall|u: int| 0 < u < t + 1 && self.allocated(u) implies #[trigger] file_stored(l1, self, u) by {
                        if u < t {
                            assert(file_stored(l0, self, u));
                            assert(self.inodes@[u].type_ == crate::efs::DiskInodeType::File);
                            let d = self.inodes@[u].data@;
                            assert forall|c: int| 0 <= c < n_chunks(d) implies #[trigger] l1[self.inodes@[u].blocks@[c] as int].subrange(
                                0,
                                chunk(d, c).len() as int,
                            ) == chunk(d, c) by {
                                lemma_chunk_block(self, u, c, dev@.len() as int);
                                lemma_blocks_disjoint(self, u, c, t as int);
                                assert(l0[self.inodes@[u].blocks@[c] as int].subrange(0, chunk(d, c).len() as int) == chunk(d, c));
                            }
                        }
                    }
                }
            }
            t = t + 1;
        }
        proof {
            lemma_bitmap_ranges(self);
        }
        let ghost la = cache.logical(dev);
        store_bitmap(&self.inode_bitmap, 1, cache, dev);
        let ghost lb = cache.logical(dev);
        let dstart = (self.data_area_start_block - self.sb.data_bitmap_blocks) as usize;
        store_bitmap(&self.data_bitmap, dstart, cache, dev);
        let ghost l2 = cache.logical(dev);
        proof {
            lemma_bitmap_frame(lb, l2, 1, self.inode_bitmap@);
            assert forall|k: int| 0 <= k < self.root_entries().len() implies #[trigger] slot_bytes(l2, self, k)
                == entry_record(self, k) by {
                lemma_slot_in_range(self, k, dev@.len() as int);
                assert(self.owned_ok(0, k / 16));
                assert(slot_bytes(la, self, k) == entry_record(self, k));
            }
            assert forall|u: int| 0 < u < n && self.allocated(u) implies #[trigger] file_stored(l2, self, u) by {
                assert(file_stored(la, self, u));
                assert(self.inodes@[u].type_ == crate::efs::DiskInodeType::File);
                let d = self.inodes@[u].data@;
                assert forall|c: int| 0 <= c < n_chunks(d) implies #[trigger] l2[self.inodes@[u].blocks@[c] as int].subrange(
                    0,
                    chunk(d, c).len() as int,
                ) == chunk(d, c) by {
                    lemma_chunk_block(self, u, c, dev@.len() as int);
                    assert(self.owned_ok(u, c));
                    assert(la[self.inodes@[u].blocks@[c] as int].subrange(0, chunk(d, c).len() as int) == chunk(d, c));
                }
            }
        }
        self.store_superblock(cache, dev);
        proof {
            let l3 = cache.logical(dev);
            cache.lemma_logical_len(dev, 0);
            lemma_bitmap_frame(l2, l3, 1, self.inode_bitmap@);
            lemma_bitmap_frame(l2, l3, data_bitmap_start(self), self.data_bitmap@);
            assert(l3[0].subrange(0, 24) =~= crate::efs::sb_bytes(self.sb));
            assert forall|k: int| 0 <= k < self.root_entries().len() implies #[trigger] slot_bytes(l3, self, k)
                == entry_record(self, k) by {
                lemma_slot_in_range(self, k, dev@.len() as int);
                assert(self.owned_ok(0, k / 16));
                assert(slot_bytes(l2, self, k) == entry_record(self, k));
            }
            assert forall|u: int| 0 < u < n && self.allocated(u) implies #[trigger] file_stored(l3, self, u) by {
                assert(file_stored(l2, self, u));
                assert(self.inodes@[u].type_ == crate::efs::DiskInodeType::File);
                let d = self.inodes@[u].data@;
                assert forall|c: int| 0 <= c < n_chunks(d) implies #[trigger] l3[self.inodes@[u].blocks@[c] as int].subrange(
                    0,
                    chunk(d, c).len() as int,
                ) == chunk(d, c) by {
                    lemma_chunk_block(self, u, c, dev@.len() as int);
                    assert(l2[self.inodes@[u].blocks@[c] as int].subrange(0, chunk(d, c).len() as int) == chunk(d, c));
                }
            }
        }
        cache.sync_all(dev);
    }
}

/// Bit `k` of byte `b`.
pub open spec fn bit_at(b: u8, k: u8) -> bool {
    (b >> k) & 1u8 == 1u8
}

proof fn lemma_set_bit(acc: u8, k: u8, j: u8)
    requires
        k < 8,
        j <= k,
        acc < (1u8 << k),
    ensures
        bit_at(acc | (1u8 << k), j) == (j == k || bit_at(acc, j)),
        k < 7 ==> (acc | (1u8 << k)) < (1u8 << (k + 1) as u8),
        !bit_at(acc, k),
        k < 7 ==> acc < (1u8 << (k + 1) as u8),
{
    assert(bit_at(acc | (1u8 << k), j) == (j == k || bit_at(acc, j))) by (bit_vector)
        requires
            k < 8,
            j <= k,
            acc < (1u8 << k),
    ;
    assert(!bit_at(acc, k)) by (bit_vector)
        requires
            k < 8,
            acc < (1u8 << k),
    ;
    if k < 7 {
        let k1 = (k + 1) as u8;
        assert((acc | (1u8 << k)) < (1u8 << k1) && acc < (1u8 << k1)) by (bit_vector)
            requires
                k < 7,
                k1 == k + 1,
                acc < (1u8 << k),
        ;
    }
}

/// The byte that holds bits `[8 j, 8 j + 8)` of `bits`, lowest first; bits
/// past the end are zero.
fn pack_byte(bits: &Vec<bool>, j: usize) -> (r: u8)
    requires
        8 * j < bits@.len(),
        bits@.len() <= u32::MAX,
    ensures
        forall|k: u8| k < 8 ==> #[trigger] bit_at(r, k) == (8 * j + k < bits@.len() && bits@[8 * j + k]),
{
    let mut acc: u8 = 0;
    let mut k: u8 = 0;
    assert(0u8 < (1u8 << 0u8)) by (bit_vector);
    while k < 8
        invariant
            8 * j < bits@.len(),
            bits@.len() <= u32::MAX,
            k <= 8,
            k < 8 ==> acc < (1u8 << k),
            forall|i: u8| i < k ==> #[trigger] bit_at(acc, i) == (8 * j + i < bits@.len() && bits@[8 * j + i]),
        decreases 8 - k,
    {
        let idx = 8 * j + k as usize;
        let set = idx < bits.len() && bits[idx];
        proof {
            lemma_set_bit(acc, k, k);
            assert forall|i: u8| i < k implies bit_at(acc | (1u8 << k), i) == bit_at(acc, i) by {
                lemma_set_bit(acc, k, i);
            }
        }
        let ghost acc0 = acc;
        if set {
            acc = acc | (1u8 << k);
        }
        proof {
            assert forall|i: u8| i < k + 1 implies #[trigger] bit_at(acc, i) == (8 * j + i < bits@.len() && bits@[8 * j + i]) by {
                if i < k {
                    assert(bit_at(acc0, i) == (8 * j + i < bits@.len() && bits@[8 * j + i]));
                } else {
                    assert(i == k);
                }
            }
        }
        k = k + 1;
    }
    acc
}

/// Bytes that hold `bits`.
pub open spec fn n_bytes(bits: Seq<bool>) -> int {
    (bits.len() as int + 7) / 8
}

/// Blocks that hold `bits`.
pub open spec fn n_bitmap_blocks(bits: Seq<bool>) -> int {
    (n_bytes(bits) + 511) / 512
}

/// Byte `j` of a bitmap stored from block `start` holds bits `[8 j, 8 j + 8)`,
/// lowest first, zero past the end.
pub open spec fn byte_stored(l: Seq<Seq<u8>>, start: int, bits: Seq<bool>, j: int) -> bool {
    forall|k: u8| k < 8 ==> #[trigger] bit_at(l[start + j / 512][j % 512], k) == (8 * j + k < bits.len() && bits[8 * j + k])
}

/// The blocks from `start` on hold `bits`.
pub open spec fn bitmap_stored(l: Seq<Seq<u8>>, start: int, bits: Seq<bool>) -> bool {
    forall|j: int| 0 <= j < n_bytes(bits) ==> #[trigger] byte_stored(l, start, bits, j)
}

/// Writes `bits` into the blocks from `start` on through the cache.
pub fn store_bitmap(bits: &Vec<bool>, start: usize, cache: &mut BlockCacheManager, dev: &mut BlockDevice)
    requires
        old(cache).wf(old(dev)),
        bits@.len() <= u32::MAX,
        start + n_bitmap_blocks(bits@) <= old(dev)@.len(),
    ensures
        final(cache).wf(final(dev)),
        final(dev)@.len() == old(dev)@.len(),
        bitmap_stored(final(cache).logical(final(dev)), start as int, bits@),
        forall|b: int| 0 <= b < old(dev)@.len() && !(start <= b < start + n_bitmap_blocks(bits@))
            ==> #[trigger] final(cache).logical(final(dev))[b] == old(cache).logical(old(dev))[b],
{
    let ghost l00 = cache.logical(dev);
    let nb = ((bits.len() as u64 + 7) / 8) as usize;
    let mut j: usize = 0;
    while j < nb
        invariant
            cache.wf(dev),
            dev@.len() == old(dev)@.len(),
            bits@.len() <= u32::MAX,
            start + n_bitmap_blocks(bits@) <= dev@.len(),
            nb == n_bytes(bits@),
            j <= nb,
            l00 == old(cache).logical(old(dev)),
            forall|q: int| 0 <= q < j ==> #[trigger] byte_stored(cache.logical(dev), start as int, bits@, q),
            forall|b: int| 0 <= b < dev@.len() && !(start <= b < start + n_bitmap_blocks(bits@))
                ==> #[trigger] cache.logical(dev)[b] == l00[b],
        decreases nb - j,
    {
        let byte = pack_byte(bits, j);
        proof {
            assert(j / 512 < n_bitmap_blocks(bits@)) by (nonlinear_arith)
                requires
                    j < nb,
                    nb == n_bytes(bits@),
                    n_bitmap_blocks(bits@) == (nb + 511) / 512,
            ;
        }
        let dl = dev.len();
        let blk = start + j / 512;
        let off = j % 512;
        proof {
            cache.lemma_logical_len(dev, blk as int);
        }
        let mut one: Vec<u8> = Vec::new();
        one.push(byte);
        let ghost l0 = cache.logical(dev);
        cache.modify(dev, blk, off, one.as_slice());
        proof {
            let l1 = cache.logical(dev);
            assert(l1[blk as int][off as int] == byte);
            assert forall|q: int| 0 <= q < j + 1 implies #[trigger] byte_stored(l1, start as int, bits@, q) by {
                if q < j {
                    assert(byte_stored(l0, start as int, bits@, q));
                    let bq = start + q / 512;
                    if bq == blk {
                        assert(q % 512 != off as int);
                        assert(l1[bq][q % 512] == l0[bq][q % 512]);
                    } else {
                        assert(l1[bq] == l0[bq]);
                    }
                    assert forall|k: u8| k < 8 implies #[trigger] bit_at(l1[start + q / 512][q % 512], k) == (8 * q + k < bits@.len() && bits@[8 * q + k]) by {
                        assert(bit_at(l0[start + q / 512][q % 512], k) == (8 * q + k < bits@.len() && bits@[8 * q + k]));
                    }
                } else {
                    assert forall|k: u8| k < 8 implies #[trigger] bit_at(l1[start + q / 512][q % 512], k) == (8 * q + k < bits@.len() && bits@[8 * q + k]) by {
                        assert(bit_at(byte, k) == (8 * j + k < bits@.len() && bits@[8 * j + k]));
                    }
                }
            }
        }
        j = j + 1;
    }
}

/// A cache with nothing resident reads as the device.
pub proof fn lemma_empty_cache_reads_device(c: &BlockCacheManager, dev: &BlockDevice)
    requires
        c.entries_view().len() == 0,
    ensures
        c.logical(dev) == dev@,
{
    assert forall|b: int| 0 <= b < dev@.len() implies #[trigger] c.logical(dev)[b] == dev@[b] by {
        assert forall|k: int| !c.holds(k, b) by {}
    }
    assert(c.logical(dev) =~= dev@);
}

} // verus!
