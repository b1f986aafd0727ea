//! The block device interface and a bounded write-back cache over it.
use vstd::prelude::*;

verus! {

/// Size of a block in bytes.
pub const BLOCK_BYTES: usize = 512;
/// Most blocks resident in the cache.
pub const BLOCK_CACHE_SIZE: usize = 16;

/// A device of fixed-size blocks held in memory.
pub struct BlockDevice {
    blocks: Vec<Vec<u8>>,
}

impl BlockDevice {
    /// The blocks' contents.
    pub closed spec fn view(&self) -> Seq<Seq<u8>> {
        self.blocks@.map_values(|b: Vec<u8>| b@)
    }

    /// Every block is 512 bytes.
    pub open spec fn wf(&self) -> bool {
        forall|b: int| 0 <= b < self@.len() ==> #[trigger] self@[b].len() == BLOCK_BYTES
    }

    /// A device of `n` zeroed blocks.
    pub fn new(n: usize) -> (r: Self)
        ensures
            r.wf(),
            r@.len() == n,
            forall|b: int, i: int| 0 <= b < n && 0 <= i < BLOCK_BYTES ==> #[trigger] r@[b][i] == 0,
    {
        let mut blocks: Vec<Vec<u8>> = Vec::new();
        let mut k: usize = 0;
        while k < n
            invariant
                k <= n,
                blocks@.len() == k,
                forall|b: int| 0 <= b < k ==> (#[trigger] blocks@[b])@ == Seq::new(BLOCK_BYTES as nat, |i: int| 0u8),
            decreases n - k,
        {
            blocks.push(zero_block());
            k = k + 1;
        }
        BlockDevice { blocks }
    }

    /// Number of blocks.
    pub fn len(&self) -> (r: usize)
        ensures
            r == self@.len(),
    {
        self.blocks.len()
    }

    /// A copy of block `id`.
    pub fn read_block(&self, id: usize) -> (r: Vec<u8>)
        requires
            id < self@.len(),
        ensures
            r@ == self@[id as int],
    {
        let src = &self.blocks[id];
        let mut r: Vec<u8> = Vec::new();
        let mut i: usize = 0;
        while i < src.len()
            invariant
                i <= src@.len(),
                r@ == src@.subrange(0, i as int),
            decreases src@.len() - i,
        {
            r.push(src[i]);
            i = i + 1;
        }
        assert(r@ =~= src@);
        r
    }

    /// Replaces block `id` with `data`.
    pub fn write_block(&mut self, id: usize, data: Vec<u8>)
        requires
            id < old(self)@.len(),
        ensures
            final(self)@ == old(self)@.update(id as int, data@),
    {
        self.blocks.set(id, data);
        assert(self@ =~= old(self)@.update(id as int, data@));
    }
}

fn zero_block() -> (r: Vec<u8>)
    ensures
        r@ == Seq::new(BLOCK_BYTES as nat, |i: int| 0u8),
{
    let mut r: Vec<u8> = Vec::new();
    let mut i: usize = 0;
    while i < BLOCK_BYTES
        invariant
            i <= BLOCK_BYTES,
            r@ == Seq::new(i as nat, |j: int| 0u8),
        decreases BLOCK_BYTES - i,
    {
        r.push(0);
        assert(r@ =~= Seq::new((i + 1) as nat, |j: int| 0u8));
        i = i + 1;
    }
    r
}

/// A resident block.
pub struct CacheEntry {
    pub block_id: usize,
    pub data: Vec<u8>,
    pub dirty: bool,
    pub tick: u64,
}

/// A cache of at most 16 blocks, evicting the least recently used.
pub struct BlockCacheManager {
    entries: Vec<CacheEntry>,
    tick: u64,
}

/// `b` written with `bytes` at `off`.
pub open spec fn patch(b: Seq<u8>, off: int, bytes: Seq<u8>) -> Seq<u8> {
    Seq::new(b.len(), |i: int| if off <= i < off + bytes.len() { bytes[i - off] } else { b[i] })
}

impl BlockCacheManager {
    /// The resident entries.
    pub closed spec fn entries_view(&self) -> Seq<CacheEntry> {
        self.entries@
    }

    /// Slot `k` holds block `b`.
    pub open spec fn holds(&self, k: int, b: int) -> bool {
        0 <= k < self.entries_view().len() && self.entries_view()[k].block_id == b
    }

    /// Block `b` is resident.
    pub open spec fn cached(&self, b: int) -> bool {
        exists|k: int| #[trigger] self.holds(k, b)
    }

    /// Resident blocks are distinct, 512 bytes, on the device, and a clean
    /// one matches the device.
    pub open spec fn wf(&self, dev: &BlockDevice) -> bool {
        &&& dev.wf()
        &&& self.entries_view().len() <= BLOCK_CACHE_SIZE
        &&& forall|k: int| 0 <= k < self.entries_view().len() ==> {
            let e = #[trigger] self.entries_view()[k];
            &&& e.block_id < dev@.len()
            &&& e.data@.len() == BLOCK_BYTES
            &&& !e.dirty ==> e.data@ == dev@[e.block_id as int]
        }
        &&& forall|j: int, k: int|
            0 <= j < k < self.entries_view().len() ==> #[trigger] self.entries_view()[j].block_id
                != #[trigger] self.entries_view()[k].block_id
    }

    /// What block `b` reads as: the resident copy if there is one, else the
    /// device's.
    pub open spec fn logical_block(&self, dev: &BlockDevice, b: int) -> Seq<u8> {
        if self.cached(b) {
            self.entries_view()[choose|k: int| self.holds(k, b)].data@
        } else {
            dev@[b]
        }
    }

    /// The disk as readers see it.
    pub open spec fn logical(&self, dev: &BlockDevice) -> Seq<Seq<u8>> {
        Seq::new(dev@.len(), |b: int| self.logical_block(dev, b))
    }

    /// An empty cache.
    pub fn new() -> (r: Self)
        ensures
            r.entries_view().len() == 0,
    {
        BlockCacheManager { entries: Vec::new(), tick: 0 }
    }

    /// Number of resident blocks.
    pub fn resident(&self) -> (r: usize)
        ensures
            r == self.entries_view().len(),
    {
        self.entries.len()
    }

    /// Whether any resident block is dirty.
    pub fn any_dirty(&self) -> (r: bool)
        ensures
            r == exists|k: int| 0 <= k < self.entries_view().len() && (#[trigger] self.entries_view()[k]).dirty,
    {
        let mut k: usize = 0;
        while k < self.entries.len()
            invariant
                k <= self.entries@.len(),
                forall|j: int| 0 <= j < k ==> !(#[trigger] self.entries@[j]).dirty,
            decreases self.entries@.len() - k,
        {
            if self.entries[k].dirty {
                assert(self.entries_view()[k as int].dirty);
                return true;
            }
            k = k + 1;
        }
        false
    }

    proof fn lemma_holds_unique(&self, dev: &BlockDevice, k: int, b: int)
        requires
            self.wf(dev),
            self.holds(k, b),
        ensures
            self.cached(b),
            (choose|j: int| self.holds(j, b)) == k,
            self.logical_block(dev, b) == self.entries_view()[k].data@,
    {
        let j = choose|j: int| self.holds(j, b);
        if j < k {
            assert(self.entries_view()[j].block_id != self.entries_view()[k].block_id);
        } else if j > k {
            assert(self.entries_view()[k].block_id != self.entries_view()[j].block_id);
        }
    }

    /// Every block reads as 512 bytes.
    pub proof fn lemma_logical_len(&self, dev: &BlockDevice, b: int)
        requires
            self.wf(dev),
            0 <= b < dev@.len(),
        ensures
            self.logical(dev)[b].len() == BLOCK_BYTES,
    {
        if self.cached(b) {
            let k = choose|k: int| self.holds(k, b);
            assert(self.entries_view()[k].data@.len() == BLOCK_BYTES);
        }
    }

    /// The slot holding block `id`, if resident.
    fn slot_of(&self, id: usize) -> (r: Option<usize>)
        ensures
            r is None ==> !self.cached(id as int),
            r matches Some(k) ==> self.holds(k as int, id as int),
    {
        let mut k: usize = 0;
        while k < self.entries.len()
            invariant
                k <= self.entries@.len(),
                forall|j: int| 0 <= j < k ==> (#[trigger] self.entries@[j]).block_id != id,
            decreases self.entries@.len() - k,
        {
            if self.entries[k].block_id == id {
                return Some(k);
            }
            k = k + 1;
        }
        proof {
            assert forall|j: int| !self.holds(j, id as int) by {
                if 0 <= j < self.entries@.len() {
                    assert(self.entries@[j].block_id != id);
                }
            }
        }
        None
    }

    /// The least recently used slot.
    fn lru_slot(&self) -> (r: usize)
        requires
            self.entries_view().len() > 0,
        ensures
            r < self.entries_view().len(),
    {
        let mut best: usize = 0;
        let mut k: usize = 1;
        while k < self.entries.len()
            invariant
                1 <= k <= self.entries@.len(),
                best < k,
            decreases self.entries@.len() - k,
        {
            if self.entries[k].tick < self.entries[best].tick {
                best = k;
            }
            k = k + 1;
        }
        best
    }
}

/// A copy of a block's bytes.
fn copy_bytes(v: &Vec<u8>) -> (r: Vec<u8>)
    ensures
        r@ == v@,
{
    let mut r: Vec<u8> = Vec::new();
    let mut i: usize = 0;
    while i < v.len()
        invariant
            i <= v@.len(),
            r@ == v@.subrange(0, i as int),
        decreases v@.len() - i,
    {
        r.push(v[i]);
        i = i + 1;
    }
    assert(r@ =~= v@);
    r
}

impl BlockCacheManager {
    /// Makes block `id` resident and returns its slot. A miss with a full
    /// cache evicts the least recently used block, writing it back first if
    /// it is dirty. What every block reads as does not change.
    pub fn get(&mut self, dev: &mut BlockDevice, id: usize) -> (slot: usize)
        requires
            old(self).wf(old(dev)),
            id < old(dev)@.len(),
        ensures
            final(self).wf(final(dev)),
            final(dev)@.len() == old(dev)@.len(),
            final(self).logical(final(dev)) == old(self).logical(old(dev)),
            final(self).holds(slot as int, id as int),
    {
        let ghost c0 = *self;
        let ghost d0 = *dev;
        match self.slot_of(id) {
            Some(k) => {
                let t = self.tick;
                self.entries[k].tick = t;
                if self.tick < u64::MAX {
                    self.tick = self.tick + 1;
                }
                proof {
                    assert forall|j: int| 0 <= j < self.entries_view().len() implies #[trigger] self.entries_view()[j].block_id
                        == c0.entries_view()[j].block_id && self.entries_view()[j].data == c0.entries_view()[j].data
                        && self.entries_view()[j].dirty == c0.entries_view()[j].dirty by {}
                    assert forall|b: int| 0 <= b < dev@.len() implies #[trigger] self.logical_block(dev, b)
                        == c0.logical_block(&d0, b) by {
                        if c0.cached(b) {
                            let q = choose|q: int| c0.holds(q, b);
                            c0.lemma_holds_unique(&d0, q, b);
                            assert(self.holds(q, b));
                            self.lemma_holds_unique(dev, q, b);
                        } else {
                            assert forall|q: int| !self.holds(q, b) by {
                                assert(!c0.holds(q, b));
                            }
                        }
                    }
                    assert(self.logical(dev) =~= c0.logical(&d0));
                }
                k
            },
            None => {
                let data = dev.read_block(id);
                let e = CacheEntry { block_id: id, data, dirty: false, tick: self.tick };
                if self.tick < u64::MAX {
                    self.tick = self.tick + 1;
                }
                if self.entries.len() < BLOCK_CACHE_SIZE {
                    self.entries.push(e);
                    let k = self.entries.len() - 1;
                    proof {
                        assert forall|q: int| 0 <= q < self.entries_view().len() implies {
                            let e = #[trigger] self.entries_view()[q];
                            &&& e.block_id < dev@.len()
                            &&& e.data@.len() == BLOCK_BYTES
                            &&& !e.dirty ==> e.data@ == dev@[e.block_id as int]
                        } by {
                            if q < k {
                                assert(c0.entries_view()[q] == self.entries_view()[q]);
                            }
                        }
                        assert forall|j: int, q: int|
                            0 <= j < q < self.entries_view().len() implies #[trigger] self.entries_view()[j].block_id
                                != #[trigger] self.entries_view()[q].block_id by {
                            if q == k {
                                assert(!c0.holds(j, id as int));
                            } else {
                                assert(c0.entries_view()[j] == self.entries_view()[j]);
                                assert(c0.entries_view()[q] == self.entries_view()[q]);
                            }
                        }
                        assert forall|b: int| 0 <= b < dev@.len() implies #[trigger] self.logical_block(dev, b)
                            == c0.logical_block(&d0, b) by {
                            if b == id {
                                self.lemma_holds_unique(dev, k as int, b);
                            } else if c0.cached(b) {
                                let q = choose|q: int| c0.holds(q, b);
                                c0.lemma_holds_unique(&d0, q, b);
                                assert(self.holds(q, b));
                                self.lemma_holds_unique(dev, q, b);
                            } else {
                                assert forall|q: int| !self.holds(q, b) by {
                                    if 0 <= q < c0.entries_view().len() {
                                        assert(!c0.holds(q, b));
                                    }
                                }
                            }
                        }
                        assert(self.logical(dev) =~= c0.logical(&d0));
                    }
                    k
                } else {
                    let v = self.lru_slot();
                    let vb = self.entries[v].block_id;
                    if self.entries[v].dirty {
                        let back = copy_bytes(&self.entries[v].data);
                        dev.write_block(vb, back);
                    }
                    let ghost d1 = *dev;
                    proof {
                        assert(d1@ == d0@.update(vb as int, c0.entries_view()[v as int].data@));
                        assert(c0.holds(v as int, vb as int));
                        assert(vb != id);
                        assert(d1@[id as int] == d0@[id as int]);
                    }
                    self.entries.set(v, e);
                    proof {
                        assert forall|k: int| 0 <= k < self.entries_view().len() implies {
                            let e = #[trigger] self.entries_view()[k];
                            &&& e.block_id < dev@.len()
                            &&& e.data@.len() == BLOCK_BYTES
                            &&& !e.dirty ==> e.data@ == dev@[e.block_id as int]
                        } by {
                            if k != v {
                                assert(c0.entries_view()[k] == self.entries_view()[k]);
                                assert(c0.entries_view()[k].block_id != vb);
                            }
                        }
                        assert forall|j: int, k: int|
                            0 <= j < k < self.entries_view().len() implies #[trigger] self.entries_view()[j].block_id
                                != #[trigger] self.entries_view()[k].block_id by {
                            if j == v {
                                assert(!c0.holds(k, id as int));
                            } else if k == v {
                                assert(!c0.holds(j, id as int));
                            }
                        }
                        assert forall|b: int| 0 <= b < dev@.len() implies #[trigger] self.logical_block(dev, b)
                            == c0.logical_block(&d0, b) by {
                            if b == id {
                                self.lemma_holds_unique(dev, v as int, b);
                            } else if b == vb {
                                c0.lemma_holds_unique(&d0, v as int, b);
                                assert forall|q: int| !self.holds(q, b) by {
                                    if 0 <= q < self.entries_view().len() && q != v {
                                        assert(c0.entries_view()[q].block_id != vb);
                                    }
                                }
                            } else if c0.cached(b) {
                                let q = choose|q: int| c0.holds(q, b);
                                c0.lemma_holds_unique(&d0, q, b);
                                assert(self.holds(q, b));
                                self.lemma_holds_unique(dev, q, b);
                            } else {
                                assert forall|q: int| !self.holds(q, b) by {
                                    if 0 <= q < c0.entries_view().len() && q != v {
                                        assert(!c0.holds(q, b));
                                    }
                                }
                            }
                        }
                        assert(self.logical(dev) =~= c0.logical(&d0));
                    }
                    v
                }
            },
        }
    }

    /// Bytes `[offset, offset + len)` of block `id` as readers see it.
    pub fn read(&mut self, dev: &mut BlockDevice, id: usize, offset: usize, len: usize) -> (r: Vec<u8>)
        requires
            old(self).wf(old(dev)),
            id < old(dev)@.len(),
            offset + len <= BLOCK_BYTES,
        ensures
            final(self).wf(final(dev)),
            final(dev)@.len() == old(dev)@.len(),
            final(self).logical(final(dev)) == old(self).logical(old(dev)),
            r@ == old(self).logical(old(dev))[id as int].subrange(offset as int, offset + len),
    {
        let k = self.get(dev, id);
        proof {
            self.lemma_holds_unique(dev, k as int, id as int);
            assert(self.logical(dev)[id as int] == self.entries_view()[k as int].data@);
        }
        let mut r: Vec<u8> = Vec::new();
        let mut i: usize = 0;
        while i < len
            invariant
                k < self.entries@.len(),
                self.entries@[k as int].data@.len() == BLOCK_BYTES,
                offset + len <= BLOCK_BYTES,
                i <= len,
                r@ == self.entries@[k as int].data@.subrange(offset as int, offset + i),
            decreases len - i,
        {
            r.push(self.entries[k].data[offset + i]);
            i = i + 1;
        }
        r
    }

    /// Writes `bytes` into block `id` at `offset`; the block becomes dirty.
    pub fn modify(&mut self, dev: &mut BlockDevice, id: usize, offset: usize, bytes: &[u8])
        requires
            old(self).wf(old(dev)),
            id < old(dev)@.len(),
            offset + bytes@.len() <= BLOCK_BYTES,
        ensures
            final(self).wf(final(dev)),
            final(dev)@.len() == old(dev)@.len(),
            final(self).logical(final(dev)) == old(self).logical(old(dev)).update(
                id as int,
                patch(old(self).logical(old(dev))[id as int], offset as int, bytes@),
            ),
    {
        let k = self.get(dev, id);
        let ghost c1 = *self;
        proof {
            self.lemma_holds_unique(dev, k as int, id as int);
        }
        let mut i: usize = 0;
        while i < bytes.len()
            invariant
                k < self.entries@.len(),
                self.entries@.len() == c1.entries@.len(),
                forall|j: int| 0 <= j < self.entries@.len() && j != k ==> #[trigger] self.entries@[j] == c1.entries@[j],
                self.entries@[k as int].block_id == id,
                self.entries@[k as int].dirty == c1.entries@[k as int].dirty,
                self.entries@[k as int].data@.len() == BLOCK_BYTES,
                c1.entries@[k as int].data@.len() == BLOCK_BYTES,
                offset + bytes@.len() <= BLOCK_BYTES,
                i <= bytes@.len(),
                self.entries@[k as int].data@ == patch(c1.entries@[k as int].data@, offset as int, bytes@.subrange(0, i as int)),
            decreases bytes@.len() - i,
        {
            let ghost before = self.entries@[k as int].data@;
            self.entries[k].data.set(offset + i, bytes[i]);
            proof {
                assert(self.entries@[k as int].data@ =~= patch(c1.entries@[k as int].data@, offset as int, bytes@.subrange(0, i + 1)));
            }
            i = i + 1;
        }
        self.entries[k].dirty = true;
        proof {
            assert(bytes@.subrange(0, bytes@.len() as int) =~= bytes@);
            assert forall|q: int| 0 <= q < self.entries_view().len() implies {
                let e = #[trigger] self.entries_view()[q];
                &&& e.block_id < dev@.len()
                &&& e.data@.len() == BLOCK_BYTES
                &&& !e.dirty ==> e.data@ == dev@[e.block_id as int]
            } by {
                if q != k {
                    assert(c1.entries_view()[q] == self.entries_view()[q]);
                }
            }
            assert forall|j: int, q: int|
                0 <= j < q < self.entries_view().len() implies #[trigger] self.entries_view()[j].block_id
                    != #[trigger] self.entries_view()[q].block_id by {
                assert(c1.entries_view()[j].block_id == self.entries_view()[j].block_id);
                assert(c1.entries_view()[q].block_id == self.entries_view()[q].block_id);
            }
            assert forall|b: int| 0 <= b < dev@.len() implies #[trigger] self.logical_block(dev, b)
                == c1.logical(dev).update(id as int, patch(c1.logical(dev)[id as int], offset as int, bytes@))[b] by {
                if b == id {
                    self.lemma_holds_unique(dev, k as int, b);
                    c1.lemma_holds_unique(dev, k as int, b);
                } else if c1.cached(b) {
                    let q = choose|q: int| c1.holds(q, b);
                    c1.lemma_holds_unique(dev, q, b);
                    assert(self.holds(q, b));
                    self.lemma_holds_unique(dev, q, b);
                } else {
                    assert forall|q: int| !self.holds(q, b) by {
                        assert(!c1.holds(q, b));
                    }
                }
            }
            assert(self.logical(dev) =~= c1.logical(dev).update(id as int, patch(c1.logical(dev)[id as int], offset as int, bytes@)));
        }
    }

    /// Writes every dirty block back; afterwards the device holds what
    /// readers see and no block is dirty.
    pub fn sync_all(&mut self, dev: &mut BlockDevice)
        requires
            old(self).wf(old(dev)),
        ensures
            final(self).wf(final(dev)),
            final(dev)@ == old(self).logical(old(dev)),
            final(self).logical(final(dev)) == old(self).logical(old(dev)),
            forall|k: int| 0 <= k < final(self).entries_view().len() ==> !(#[trigger] final(self).entries_view()[k]).dirty,
    {
        let ghost c0 = *self;
        let ghost d0 = *dev;
        let n = self.entries.len();
        let mut k: usize = 0;
        while k < n
            invariant
                n == self.entries@.len(),
                n == c0.entries@.len(),
                k <= n,
                dev.wf(),
                dev@.len() == d0@.len(),
                c0.wf(&d0),
                forall|j: int| 0 <= j < n ==> (#[trigger] self.entries@[j]).block_id == c0.entries@[j].block_id
                    && self.entries@[j].data == c0.entries@[j].data,
                forall|j: int| 0 <= j < k ==> !(#[trigger] self.entries@[j]).dirty,
                forall|j: int| k <= j < n ==> (#[trigger] self.entries@[j]).dirty == c0.entries@[j].dirty,
                forall|b: int| 0 <= b < dev@.len() ==> #[trigger] dev@[b] == if exists|j: int| 0 <= j < k && c0.holds(j, b) {
                    c0.logical(&d0)[b]
                } else {
                    d0@[b]
                },
            decreases n - k,
        {
            let ghost dk = *dev;
            if self.entries[k].dirty {
                let b = self.entries[k].block_id;
                let back = copy_bytes(&self.entries[k].data);
                dev.write_block(b, back);
                self.entries[k].dirty = false;
            }
            proof {
                c0.lemma_holds_unique(&d0, k as int, c0.entries@[k as int].block_id as int);
                assert forall|b: int| 0 <= b < dev@.len() implies #[trigger] dev@[b] == if exists|j: int| 0 <= j < k + 1 && c0.holds(j, b) {
                    c0.logical(&d0)[b]
                } else {
                    d0@[b]
                } by {
                    let bk = c0.entries@[k as int].block_id as int;
                    if b == bk {
                        assert(c0.holds(k as int, b));
                        if exists|j: int| 0 <= j < k && c0.holds(j, b) {
                            let j = choose|j: int| 0 <= j < k && c0.holds(j, b);
                            assert(c0.entries_view()[j].block_id != c0.entries_view()[k as int].block_id);
                        }
                    } else {
                        assert forall|j: int| 0 <= j < k + 1 && c0.holds(j, b) implies j < k by {}
                    }
                }
            }
            k = k + 1;
        }
        proof {
            assert forall|b: int| 0 <= b < dev@.len() implies #[trigger] dev@[b] == c0.logical(&d0)[b] by {
                if !c0.cached(b) {
                } else {
                    let j = choose|j: int| c0.holds(j, b);
                    assert(0 <= j < n);
                }
            }
            assert(dev@ =~= c0.logical(&d0));
            assert forall|q: int| 0 <= q < self.entries_view().len() implies {
                let e = #[trigger] self.entries_view()[q];
                &&& e.block_id < dev@.len()
                &&& e.data@.len() == BLOCK_BYTES
                &&& !e.dirty ==> e.data@ == dev@[e.block_id as int]
            } by {
                c0.lemma_holds_unique(&d0, q, c0.entries@[q].block_id as int);
            }
            assert forall|j: int, q: int|
                0 <= j < q < self.entries_view().len() implies #[trigger] self.entries_view()[j].block_id
                    != #[trigger] self.entries_view()[q].block_id by {
                assert(c0.entries_view()[j].block_id != c0.entries_view()[q].block_id);
            }
            assert forall|b: int| 0 <= b < dev@.len() implies #[trigger] self.logical_block(dev, b) == c0.logical(&d0)[b] by {
                if c0.cached(b) {
                    let q = choose|q: int| c0.holds(q, b);
                    c0.lemma_holds_unique(&d0, q, b);
                    assert(self.holds(q, b));
                    self.lemma_holds_unique(dev, q, b);
                } else {
                    assert forall|q: int| !self.holds(q, b) by {
                        assert(!c0.holds(q, b));
                    }
                }
            }
            assert(self.logical(dev) =~= c0.logical(&d0));
        }
    }
}

} // verus!
