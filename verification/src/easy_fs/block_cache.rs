use vstd::prelude::*;
use crate::codec::{le_u32, le_u64, splice, with_u32, with_u64};
use crate::easy_fs::block_dev::BlockDevice;

verus! {

/// Number of blocks the cache holds at most.
pub const BLOCK_CACHE_SIZE: usize = 16;

/// A block held in memory, with the number of the block it mirrors.
pub struct BlockCache {
    cache: [u8; 512],
    block_id: usize,
    modified: bool,
}

impl View for BlockCache {
    type V = Seq<u8>;

    closed spec fn view(&self) -> Seq<u8> {
        self.cache@
    }
}

impl BlockCache {
    /// The number of the block this buffer mirrors.
    pub closed spec fn id(&self) -> usize {
        self.block_id
    }

    /// Whether the buffer differs from what the device was last given.
    pub closed spec fn dirty(&self) -> bool {
        self.modified
    }

    /// A buffer always holds one whole block.
    pub proof fn lemma_len(&self)
        ensures
            self@.len() == 512,
    {
    }

    /// Loads block `block_id` from the device.
    pub fn new<D: BlockDevice>(block_id: usize, block_device: &D) -> (r: Self)
        ensures
            r@ == block_device.blocks()[block_id],
            r.id() == block_id,
            !r.dirty(),
    {
        let mut cache = [0u8; 512];
        block_device.read_block(block_id, &mut cache);
        Self { cache, block_id, modified: false }
    }

    /// The number of the block that the buffer holds.
    pub fn block_id(&self) -> (r: usize)
        ensures
            r == self.id(),
    {
        self.block_id
    }

    /// Whether the buffer was written to since it was read or written back.
    pub fn is_modified(&self) -> (r: bool)
        ensures
            r == self.dirty(),
    {
        self.modified
    }

    /// Writes the buffer back if it was modified; afterwards it is clean.
    pub fn sync<D: BlockDevice>(&mut self, block_device: &mut D)
        ensures
            final(self)@ == old(self)@,
            final(self).id() == old(self).id(),
            !final(self).dirty(),
            final(block_device).blocks() == if old(self).dirty() {
                old(block_device).blocks().insert(old(self).id(), old(self)@)
            } else {
                old(block_device).blocks()
            },
    {
        if self.modified {
            self.modified = false;
            block_device.write_block(self.block_id, &self.cache);
        }
    }

    /// The byte at `offset`.
    pub fn read_u8(&self, offset: usize) -> (v: u8)
        requires
            offset < 512,
        ensures
            v == self@[offset as int],
    {
        self.cache[offset]
    }

    /// The little-endian `u32` at `offset`.
    pub fn read_u32(&self, offset: usize) -> (v: u32)
        requires
            offset + 4 <= 512,
        ensures
            v == le_u32(self@, offset as int),
    {
        crate::codec::read_u32(self.cache.as_slice(), offset)
    }

    /// The little-endian `u64` at `offset`.
    pub fn read_u64(&self, offset: usize) -> (v: u64)
        requires
            offset + 8 <= 512,
        ensures
            v == le_u64(self@, offset as int),
    {
        crate::codec::read_u64(self.cache.as_slice(), offset)
    }

    /// Stores `v` at `offset` and marks the buffer modified.
    pub fn write_u32(&mut self, offset: usize, v: u32)
        requires
            offset + 4 <= 512,
        ensures
            final(self)@ == with_u32(old(self)@, offset as int, v),
            final(self).id() == old(self).id(),
            final(self).dirty(),
    {
        self.modified = true;
        crate::codec::write_u32(&mut self.cache, offset, v);
    }

    /// Stores `v` at `offset` and marks the buffer modified.
    pub fn write_u64(&mut self, offset: usize, v: u64)
        requires
            offset + 8 <= 512,
        ensures
            final(self)@ == with_u64(old(self)@, offset as int, v),
            final(self).id() == old(self).id(),
            final(self).dirty(),
    {
        self.modified = true;
        crate::codec::write_u64(&mut self.cache, offset, v);
    }

    /// Copies `src` into the buffer from `offset` on and marks it modified.
    pub fn write_bytes(&mut self, offset: usize, src: &[u8])
        requires
            offset + src@.len() <= 512,
        ensures
            final(self)@ == splice(old(self)@, offset as int, src@),
            final(self).id() == old(self).id(),
            final(self).dirty(),
    {
        self.modified = true;
        crate::codec::write_bytes(&mut self.cache, offset, src);
    }

    /// Hands `f` the `len` bytes that start at `offset` and returns what `f` returns.
    pub fn read<V, F: FnOnce(&[u8]) -> V>(&self, offset: usize, len: usize, f: F) -> (v: V)
        requires
            offset + len <= 512,
            forall|b: &[u8]| b@ == self@.subrange(offset as int, offset + len) ==> f.requires((b,)),
        ensures
            exists|b: &[u8]| b@ == self@.subrange(offset as int, offset + len) && f.ensures((b,), v),
    {
        f(vstd::slice::slice_subrange(self.cache.as_slice(), offset, offset + len))
    }

    /// Hands `f` a copy of the `len` bytes that start at `offset`, stores the
    /// bytes that `f` gives back in their place, marks the buffer modified
    /// and returns the value that `f` returns beside them.
    pub fn modify<V, F: FnOnce(Vec<u8>) -> (Vec<u8>, V)>(&mut self, offset: usize, len: usize, f: F) -> (v:
        V)
        requires
            offset + len <= 512,
            forall|b: Vec<u8>| b@ == old(self)@.subrange(offset as int, offset + len) ==> f.requires((b,)),
            forall|b: Vec<u8>, r: (Vec<u8>, V)| f.ensures((b,), r) ==> r.0@.len() == len,
        ensures
            exists|b: Vec<u8>, r: (Vec<u8>, V)|
                b@ == old(self)@.subrange(offset as int, offset + len) && f.ensures((b,), r) && r.1 == v
                    && final(self)@ == splice(old(self)@, offset as int, r.0@),
            final(self).id() == old(self).id(),
            final(self).dirty(),
    {
        self.modified = true;
        let b = vstd::slice::slice_to_vec(
            vstd::slice::slice_subrange(self.cache.as_slice(), offset, offset + len),
        );
        let r = f(b);
        crate::codec::write_bytes(&mut self.cache, offset, r.0.as_slice());
        r.1
    }

    /// The whole buffer.
    pub fn bytes(&self) -> (r: &[u8])
        ensures
            r@ == self@,
    {
        self.cache.as_slice()
    }
}


/// What the cache knows of one block: its number, the bytes held for it,
/// whether they were modified, and how many holders besides the cache
/// keep the entry.
pub struct Slot {
    pub block_id: usize,
    pub data: Seq<u8>,
    pub modified: bool,
    pub holders: nat,
}

/// Whether some entry of `q` is for block `id`.
pub open spec fn cached(q: Seq<Slot>, id: usize) -> bool {
    exists|i: int| 0 <= i < q.len() && (#[trigger] q[i]).block_id == id
}

/// The position of the entry for block `id`, where there is one.
pub open spec fn slot_of(q: Seq<Slot>, id: usize) -> int {
    choose|i: int| 0 <= i < q.len() && (#[trigger] q[i]).block_id == id
}

/// Whether `v` is the first entry that nobody but the cache holds.
pub open spec fn is_victim(q: Seq<Slot>, v: int) -> bool {
    &&& 0 <= v < q.len()
    &&& q[v].holders == 0
    &&& forall|j: int| 0 <= j < v ==> (#[trigger] q[j]).holders > 0
}

/// Whether an entry can leave: one that nobody but the cache holds.
pub open spec fn has_victim(q: Seq<Slot>) -> bool {
    exists|v: int| is_victim(q, v)
}

/// The entry that leaves when room is needed.
pub open spec fn victim(q: Seq<Slot>) -> int {
    choose|v: int| is_victim(q, v)
}

/// The order is first in, first out, and no block has two entries.
pub open spec fn queue_wf(q: Seq<Slot>) -> bool {
    &&& q.len() <= BLOCK_CACHE_SIZE
    &&& forall|i: int, j: int|
        0 <= i < q.len() && 0 <= j < q.len() && (#[trigger] q[i]).block_id == (#[trigger] q[j]).block_id
            ==> i == j
    &&& forall|i: int| 0 <= i < q.len() ==> (#[trigger] q[i]).data.len() == 512
}

/// Every entry that was not modified holds what the device holds.
pub open spec fn queue_clean(q: Seq<Slot>, blocks: Map<usize, Seq<u8>>) -> bool {
    forall|i: int|
        0 <= i < q.len() && !(#[trigger] q[i]).modified ==> q[i].data == blocks[q[i].block_id]
}

/// The disk as a reader sees it through the cache: the cached bytes where a
/// block is cached, the device's bytes elsewhere.
pub open spec fn disk_of(q: Seq<Slot>, blocks: Map<usize, Seq<u8>>) -> Map<usize, Seq<u8>> {
    Map::new(
        |id: usize| true,
        |id: usize|
            if cached(q, id) {
                q[slot_of(q, id)].data
            } else {
                blocks[id]
            },
    )
}

/// The entry made for a block that was just loaded.
pub open spec fn loaded(id: usize, blocks: Map<usize, Seq<u8>>) -> Slot {
    Slot { block_id: id, data: blocks[id], modified: false, holders: 0 }
}

/// The queue after a request for block `id`.
pub open spec fn queue_after_get(q: Seq<Slot>, blocks: Map<usize, Seq<u8>>, id: usize) -> Seq<Slot> {
    if cached(q, id) {
        q
    } else if q.len() == BLOCK_CACHE_SIZE {
        q.remove(victim(q)).push(loaded(id, blocks_after_get(q, blocks, id)))
    } else {
        q.push(loaded(id, blocks))
    }
}

/// The device after a request for block `id`: a modified entry that had to
/// leave was written back.
pub open spec fn blocks_after_get(q: Seq<Slot>, blocks: Map<usize, Seq<u8>>, id: usize) -> Map<
    usize,
    Seq<u8>,
> {
    if !cached(q, id) && q.len() == BLOCK_CACHE_SIZE && q[victim(q)].modified {
        blocks.insert(q[victim(q)].block_id, q[victim(q)].data)
    } else {
        blocks
    }
}

/// The first entry that nobody holds is the only one that `is_victim` accepts.
pub proof fn lemma_victim_unique(q: Seq<Slot>, v: int)
    requires
        is_victim(q, v),
    ensures
        victim(q) == v,
        has_victim(q),
{
    let w = victim(q);
    assert(is_victim(q, w));
    if w < v {
        assert(q[w].holders > 0);
    }
    if v < w {
        assert(q[v].holders > 0);
    }
}

/// With one entry per block, the entry for a block is where that block is found.
pub proof fn lemma_slot_unique(q: Seq<Slot>, i: int)
    requires
        queue_wf(q),
        0 <= i < q.len(),
    ensures
        cached(q, q[i].block_id),
        slot_of(q, q[i].block_id) == i,
{
    let id = q[i].block_id;
    assert(q[i].block_id == id);
    let j = slot_of(q, id);
    assert(0 <= j < q.len() && q[j].block_id == id);
}

/// A request changes nothing that a reader of the disk can see, and keeps
/// the cache in order.
pub proof fn lemma_get_keeps_disk(q: Seq<Slot>, blocks: Map<usize, Seq<u8>>, id: usize)
    requires
        queue_wf(q),
        queue_clean(q, blocks),
        cached(q, id) || q.len() < BLOCK_CACHE_SIZE || has_victim(q),
        blocks[id].len() == 512,
    ensures
        queue_wf(queue_after_get(q, blocks, id)),
        queue_clean(queue_after_get(q, blocks, id), blocks_after_get(q, blocks, id)),
        cached(queue_after_get(q, blocks, id), id),
        disk_of(queue_after_get(q, blocks, id), blocks_after_get(q, blocks, id)) == disk_of(q, blocks),
        q.len() < BLOCK_CACHE_SIZE || has_victim(q) ==> queue_after_get(q, blocks, id).len()
            < BLOCK_CACHE_SIZE || has_victim(queue_after_get(q, blocks, id)),
{
    let q2 = queue_after_get(q, blocks, id);
    let b2 = blocks_after_get(q, blocks, id);
    if cached(q, id) {
    } else {
        let evict = q.len() == BLOCK_CACHE_SIZE;
        let v = victim(q);
        let q1 = if evict {
            q.remove(v)
        } else {
            q
        };
        let fresh = loaded(id, b2);
        let n = q1.len() as int;
        assert(q2 == q1.push(fresh));
        if evict {
            assert(is_victim(q, v));
            assert(q[v].block_id != id);
        }
        assert(b2[id] == blocks[id]);
        // every entry of q1 is an entry of q, and the other way round but for the victim
        assert forall|i: int| 0 <= i < n implies #[trigger] q1[i] == q[if evict && i >= v {
            i + 1
        } else {
            i
        }] by {}
        assert forall|i: int| 0 <= i < n implies (#[trigger] q2[i]) == q1[i] by {}
        assert(q2[n] == fresh);
        assert(queue_wf(q2));
        assert(queue_clean(q2, b2)) by {
            assert forall|i: int| 0 <= i < q2.len() && !(#[trigger] q2[i]).modified implies q2[i].data
                == b2[q2[i].block_id] by {
                if i < n {
                    let k = if evict && i >= v {
                        i + 1
                    } else {
                        i
                    };
                    assert(q2[i] == q[k]);
                    if evict {
                        assert(q[k].block_id != q[v].block_id);
                    }
                }
            }
        }
        assert(cached(q2, id));
        lemma_some_victim(q2, n);
        assert forall|x: usize| #[trigger] disk_of(q2, b2)[x] == disk_of(q, blocks)[x] by {
            if x == id {
                lemma_slot_unique(q2, n);
            } else if cached(q, x) {
                let k = slot_of(q, x);
                lemma_slot_unique(q, k);
                if evict && k == v {
                    if cached(q2, x) {
                        let i = slot_of(q2, x);
                        assert(i < n);
                        let kk = if i >= v {
                            i + 1
                        } else {
                            i
                        };
                        assert(q2[i] == q[kk]);
                    }
                    assert(!cached(q2, x));
                } else {
                    let i = if evict && k > v {
                        k - 1
                    } else {
                        k
                    };
                    assert(q2[i] == q[k]);
                    lemma_slot_unique(q2, i);
                }
            } else {
                if cached(q2, x) {
                    let i = slot_of(q2, x);
                    assert(i < n);
                    let kk = if evict && i >= v {
                        i + 1
                    } else {
                        i
                    };
                    assert(q2[i] == q[kk]);
                }
                assert(!cached(q2, x));
                if evict {
                    assert(q[v].block_id != x);
                }
            }
        }
        assert(disk_of(q2, b2) =~= disk_of(q, blocks));
    }
}

/// Where some entry is held by nobody, a first such entry exists.
pub proof fn lemma_some_victim(q: Seq<Slot>, k: int)
    requires
        0 <= k < q.len(),
        q[k].holders == 0,
    ensures
        has_victim(q),
    decreases k,
{
    if forall|j: int| 0 <= j < k ==> (#[trigger] q[j]).holders > 0 {
        assert(is_victim(q, k));
    } else {
        let j = choose|j: int| 0 <= j < k && !((#[trigger] q[j]).holders > 0);
        lemma_some_victim(q, j);
    }
}


/// Modifying the bytes cached for a block changes that block, and no other,
/// for a reader of the disk.
pub proof fn lemma_modify_entry(q: Seq<Slot>, blocks: Map<usize, Seq<u8>>, i: int, data: Seq<u8>)
    requires
        queue_wf(q),
        queue_clean(q, blocks),
        0 <= i < q.len(),
        data.len() == 512,
    ensures
        queue_wf(q.update(i, Slot { data, modified: true, ..q[i] })),
        queue_clean(q.update(i, Slot { data, modified: true, ..q[i] }), blocks),
        disk_of(q.update(i, Slot { data, modified: true, ..q[i] }), blocks) == disk_of(q, blocks).insert(
            q[i].block_id,
            data,
        ),
        has_victim(q) ==> has_victim(q.update(i, Slot { data, modified: true, ..q[i] })),
{
    let q2 = q.update(i, Slot { data, modified: true, ..q[i] });
    assert forall|k: int| 0 <= k < q.len() implies (#[trigger] q2[k]).block_id == q[k].block_id
        && q2[k].holders == q[k].holders by {}
    assert(queue_wf(q2));
    assert forall|x: usize| #[trigger] disk_of(q2, blocks)[x] == disk_of(q, blocks).insert(
        q[i].block_id,
        data,
    )[x] by {
        if cached(q, x) {
            let k = slot_of(q, x);
            lemma_slot_unique(q, k);
            assert(q2[k].block_id == x);
            lemma_slot_unique(q2, k);
        } else {
            if cached(q2, x) {
                let k = slot_of(q2, x);
                assert(q[k].block_id == x);
            }
        }
    }
    assert(disk_of(q2, blocks) =~= disk_of(q, blocks).insert(q[i].block_id, data));
    if has_victim(q) {
        let v = victim(q);
        assert(is_victim(q, v));
        assert(q2[v].holders == 0);
        lemma_some_victim(q2, v);
    }
}

/// One entry of the cache.
pub struct CacheEntry {
    block_id: usize,
    cache: BlockCache,
    holders: usize,
}

impl View for CacheEntry {
    type V = Slot;

    closed spec fn view(&self) -> Slot {
        Slot {
            block_id: self.block_id,
            data: self.cache@,
            modified: self.cache.dirty(),
            holders: self.holders as nat,
        }
    }
}

/// The cache of blocks: a queue of at most 16 entries, oldest first.
pub struct BlockCacheManager {
    queue: Vec<CacheEntry>,
}

impl View for BlockCacheManager {
    type V = Seq<Slot>;

    closed spec fn view(&self) -> Seq<Slot> {
        Seq::new(self.queue@.len(), |i: int| self.queue@[i]@)
    }
}

impl BlockCacheManager {
    /// Each buffer is filed under the number of the block it mirrors.
    pub closed spec fn tagged(&self) -> bool {
        forall|i: int|
            0 <= i < self.queue@.len() ==> (#[trigger] self.queue@[i]).block_id
                == self.queue@[i].cache.id()
    }

    /// The cache is in order and agrees with the device `dev`.
    pub open spec fn wf<D: BlockDevice>(&self, dev: &D) -> bool {
        &&& self.tagged()
        &&& queue_wf(self@)
        &&& queue_clean(self@, dev.blocks())
    }

    /// The cache is in order and can take in one more block.
    pub open spec fn ready<D: BlockDevice>(&self, dev: &D) -> bool {
        &&& self.wf(dev)
        &&& (self@.len() < BLOCK_CACHE_SIZE || has_victim(self@))
    }

    /// The disk as seen through the cache.
    pub open spec fn disk<D: BlockDevice>(&self, dev: &D) -> Map<usize, Seq<u8>> {
        disk_of(self@, dev.blocks())
    }

    /// An empty cache.
    pub fn new() -> (r: Self)
        ensures
            r@ == Seq::<Slot>::empty(),
            r.tagged(),
    {
        let r = Self { queue: Vec::new() };
        assert(r@ =~= Seq::<Slot>::empty());
        r
    }

    /// Number of blocks in the cache.
    pub fn len(&self) -> (n: usize)
        ensures
            n == self@.len(),
    {
        self.queue.len()
    }

    /// The position of block `block_id` in the queue, if it is cached.
    pub fn find(&self, block_id: usize) -> (r: Option<usize>)
        ensures
            match r {
                Some(i) => i < self@.len() && self@[i as int].block_id == block_id,
                None => !cached(self@, block_id),
            },
    {
        let mut i: usize = 0;
        while i < self.queue.len()
            invariant
                i <= self.queue@.len(),
                forall|j: int| 0 <= j < i ==> (#[trigger] self@[j]).block_id != block_id,
            decreases self.queue@.len() - i,
        {
            if self.queue[i].block_id == block_id {
                return Some(i);
            }
            i += 1;
        }
        None
    }

    /// The first entry that nobody but the cache holds.
    fn find_victim(&self) -> (r: Option<usize>)
        ensures
            match r {
                Some(v) => is_victim(self@, v as int),
                None => !has_victim(self@),
            },
    {
        let mut i: usize = 0;
        while i < self.queue.len()
            invariant
                i <= self.queue@.len(),
                forall|j: int| 0 <= j < i ==> (#[trigger] self@[j]).holders > 0,
            decreases self.queue@.len() - i,
        {
            if self.queue[i].holders == 0 {
                return Some(i);
            }
            i += 1;
        }
        assert(!has_victim(self@)) by {
            if has_victim(self@) {
                let v = victim(self@);
                assert(is_victim(self@, v));
                assert(self@[v].holders > 0);
            }
        }
        None
    }

    /// Hands out the entry for block `block_id`, loading the block if it is
    /// not cached. When the cache is full, the oldest entry that nobody
    /// holds leaves first, written back if it was modified. Returns the
    /// entry's position in the queue.
    pub fn get_block_cache<D: BlockDevice>(&mut self, block_id: usize, block_device: &mut D) -> (idx:
        usize)
        requires
            old(self).wf(old(block_device)),
            cached(old(self)@, block_id) || old(self)@.len() < BLOCK_CACHE_SIZE || has_victim(
                old(self)@,
            ),
        ensures
            final(self)@ == queue_after_get(old(self)@, old(block_device).blocks(), block_id),
            final(block_device).blocks() == blocks_after_get(
                old(self)@,
                old(block_device).blocks(),
                block_id,
            ),
            final(self).wf(final(block_device)),
            final(self).disk(final(block_device)) == old(self).disk(old(block_device)),
            old(self).ready(old(block_device)) ==> final(self).ready(final(block_device)),
            idx < final(self)@.len(),
            final(self)@[idx as int].block_id == block_id,
            final(self)@[idx as int].data == old(self).disk(old(block_device))[block_id],
            old(self).disk(old(block_device))[block_id].len() == 512,
    {
        let ghost q0 = self@;
        let ghost b0 = block_device.blocks();
        if let Some(i) = self.find(block_id) {
            proof {
                lemma_get_keeps_disk_hit(q0, b0, i as int);
            }
            return i;
        }
        if self.queue.len() == BLOCK_CACHE_SIZE {
            let found = self.find_victim();
            let v = found.unwrap();
            proof {
                lemma_victim_unique(q0, v as int);
            }
            let mut e = self.queue.remove(v);
            e.cache.sync(block_device);
            assert(self@ =~= q0.remove(v as int));
        }
        let cache = BlockCache::new(block_id, block_device);
        proof {
            cache.lemma_len();
            assert(block_device.blocks()[block_id] == b0[block_id]) by {
                if q0.len() == BLOCK_CACHE_SIZE {
                    assert(is_victim(q0, victim(q0)));
                }
            }
            lemma_get_keeps_disk(q0, b0, block_id);
        }
        let ghost q1 = self@;
        self.queue.push(CacheEntry { block_id, cache, holders: 0 });
        assert(self@ =~= q1.push(loaded(block_id, block_device.blocks())));
        proof {
            lemma_slot_unique(self@, self@.len() - 1);
        }
        self.queue.len() - 1
    }

    /// Adds a holder to the entry for block `block_id`: the entry stays in
    /// the cache until every holder has released it.
    pub fn hold(&mut self, block_id: usize)
        requires
            cached(old(self)@, block_id),
            queue_wf(old(self)@),
            old(self)@[slot_of(old(self)@, block_id)].holders < usize::MAX,
        ensures
            final(self)@ == old(self)@.update(
                slot_of(old(self)@, block_id),
                Slot {
                    holders: old(self)@[slot_of(old(self)@, block_id)].holders + 1,
                    ..old(self)@[slot_of(old(self)@, block_id)]
                },
            ),
            old(self).tagged() ==> final(self).tagged(),
    {
        let found = self.find(block_id);
        let i = found.unwrap();
        proof {
            lemma_slot_unique(self@, i as int);
        }
        let ghost q0 = self@;
        let ghost old_queue = self.queue@;
        let e = &mut self.queue[i];
        e.holders = e.holders + 1;
        assert(self@ =~= q0.update(i as int, Slot { holders: q0[i as int].holders + 1, ..q0[i as int] }));
        assert forall|j: int| 0 <= j < self.queue@.len() implies (#[trigger] self.queue@[j]).block_id
            == old_queue[j].block_id && self.queue@[j].cache == old_queue[j].cache by {}
    }

    /// Takes one holder off the entry for block `block_id`.
    pub fn release(&mut self, block_id: usize)
        requires
            cached(old(self)@, block_id),
            queue_wf(old(self)@),
            old(self)@[slot_of(old(self)@, block_id)].holders > 0,
        ensures
            final(self)@ == old(self)@.update(
                slot_of(old(self)@, block_id),
                Slot {
                    holders: (old(self)@[slot_of(old(self)@, block_id)].holders - 1) as nat,
                    ..old(self)@[slot_of(old(self)@, block_id)]
                },
            ),
            old(self).tagged() ==> final(self).tagged(),
    {
        let found = self.find(block_id);
        let i = found.unwrap();
        proof {
            lemma_slot_unique(self@, i as int);
        }
        let ghost q0 = self@;
        let ghost old_queue = self.queue@;
        let e = &mut self.queue[i];
        e.holders = e.holders - 1;
        assert(self@ =~= q0.update(
            i as int,
            Slot { holders: (q0[i as int].holders - 1) as nat, ..q0[i as int] },
        ));
        assert forall|j: int| 0 <= j < self.queue@.len() implies (#[trigger] self.queue@[j]).block_id
            == old_queue[j].block_id && self.queue@[j].cache == old_queue[j].cache by {}
    }
}

impl BlockCacheManager {
    /// The byte at `offset` of block `block_id`.
    pub fn read_u8<D: BlockDevice>(&mut self, block_device: &mut D, block_id: usize, offset: usize) -> (v:
        u8)
        requires
            old(self).ready(old(block_device)),
            offset < 512,
        ensures
            final(self).ready(final(block_device)),
            final(self).disk(final(block_device)) == old(self).disk(old(block_device)),
            v == old(self).disk(old(block_device))[block_id][offset as int],
            old(self).disk(old(block_device))[block_id].len() == 512,
    {
        let idx = self.get_block_cache(block_id, block_device);
        self.queue[idx].cache.read_u8(offset)
    }

    /// The little-endian `u32` at `offset` of block `block_id`.
    pub fn read_u32<D: BlockDevice>(&mut self, block_device: &mut D, block_id: usize, offset: usize) -> (v:
        u32)
        requires
            old(self).ready(old(block_device)),
            offset + 4 <= 512,
        ensures
            final(self).ready(final(block_device)),
            final(self).disk(final(block_device)) == old(self).disk(old(block_device)),
            v == le_u32(old(self).disk(old(block_device))[block_id], offset as int),
            old(self).disk(old(block_device))[block_id].len() == 512,
    {
        let idx = self.get_block_cache(block_id, block_device);
        self.queue[idx].cache.read_u32(offset)
    }

    /// The little-endian `u64` at `offset` of block `block_id`.
    pub fn read_u64<D: BlockDevice>(&mut self, block_device: &mut D, block_id: usize, offset: usize) -> (v:
        u64)
        requires
            old(self).ready(old(block_device)),
            offset + 8 <= 512,
        ensures
            final(self).ready(final(block_device)),
            final(self).disk(final(block_device)) == old(self).disk(old(block_device)),
            v == le_u64(old(self).disk(old(block_device))[block_id], offset as int),
            old(self).disk(old(block_device))[block_id].len() == 512,
    {
        let idx = self.get_block_cache(block_id, block_device);
        self.queue[idx].cache.read_u64(offset)
    }

    /// Copies `len` bytes of block `block_id`, from `offset` on, into `dst`
    /// from `at` on.
    pub fn read_bytes<D: BlockDevice>(
        &mut self,
        block_device: &mut D,
        block_id: usize,
        offset: usize,
        dst: &mut [u8],
        at: usize,
        len: usize,
    )
        requires
            old(self).ready(old(block_device)),
            offset + len <= 512,
            at + len <= old(dst)@.len(),
        ensures
            final(self).ready(final(block_device)),
            final(self).disk(final(block_device)) == old(self).disk(old(block_device)),
            final(dst)@ == splice(
                old(dst)@,
                at as int,
                old(self).disk(old(block_device))[block_id].subrange(offset as int, offset + len),
            ),
            old(self).disk(old(block_device))[block_id].len() == 512,
    {
        let idx = self.get_block_cache(block_id, block_device);
        let src = vstd::slice::slice_subrange(self.queue[idx].cache.bytes(), offset, offset + len);
        crate::codec::write_bytes(dst, at, src);
    }

    /// Stores `v` at `offset` of block `block_id`.
    pub fn write_u32<D: BlockDevice>(
        &mut self,
        block_device: &mut D,
        block_id: usize,
        offset: usize,
        v: u32,
    )
        requires
            old(self).ready(old(block_device)),
            offset + 4 <= 512,
        ensures
            final(self).ready(final(block_device)),
            final(self).disk(final(block_device)) == old(self).disk(old(block_device)).insert(
                block_id,
                with_u32(old(self).disk(old(block_device))[block_id], offset as int, v),
            ),
    {
        let idx = self.get_block_cache(block_id, block_device);
        let ghost q1 = self@;
        let ghost old_queue = self.queue@;
        let e = &mut self.queue[idx];
        e.cache.write_u32(offset, v);
        proof {
            let data = with_u32(q1[idx as int].data, offset as int, v);
            assert(self@ =~= q1.update(idx as int, Slot { data, modified: true, ..q1[idx as int] }));
            lemma_modify_entry(q1, block_device.blocks(), idx as int, data);
            assert forall|j: int| 0 <= j < self.queue@.len() implies (#[trigger] self.queue@[j]).block_id
                == old_queue[j].block_id && self.queue@[j].cache.id() == old_queue[j].cache.id() by {}
        }
    }

    /// Stores `v` at `offset` of block `block_id`.
    pub fn write_u64<D: BlockDevice>(
        &mut self,
        block_device: &mut D,
        block_id: usize,
        offset: usize,
        v: u64,
    )
        requires
            old(self).ready(old(block_device)),
            offset + 8 <= 512,
        ensures
            final(self).ready(final(block_device)),
            final(self).disk(final(block_device)) == old(self).disk(old(block_device)).insert(
                block_id,
                with_u64(old(self).disk(old(block_device))[block_id], offset as int, v),
            ),
    {
        let idx = self.get_block_cache(block_id, block_device);
        let ghost q1 = self@;
        let ghost old_queue = self.queue@;
        let e = &mut self.queue[idx];
        e.cache.write_u64(offset, v);
        proof {
            let data = with_u64(q1[idx as int].data, offset as int, v);
            assert(self@ =~= q1.update(idx as int, Slot { data, modified: true, ..q1[idx as int] }));
            lemma_modify_entry(q1, block_device.blocks(), idx as int, data);
            assert forall|j: int| 0 <= j < self.queue@.len() implies (#[trigger] self.queue@[j]).block_id
                == old_queue[j].block_id && self.queue@[j].cache.id() == old_queue[j].cache.id() by {}
        }
    }

    /// Copies `src` into block `block_id` from `offset` on.
    pub fn write_bytes<D: BlockDevice>(
        &mut self,
        block_device: &mut D,
        block_id: usize,
        offset: usize,
        src: &[u8],
    )
        requires
            old(self).ready(old(block_device)),
            offset + src@.len() <= 512,
        ensures
            final(self).ready(final(block_device)),
            final(self).disk(final(block_device)) == old(self).disk(old(block_device)).insert(
                block_id,
                splice(old(self).disk(old(block_device))[block_id], offset as int, src@),
            ),
    {
        let idx = self.get_block_cache(block_id, block_device);
        let ghost q1 = self@;
        let ghost old_queue = self.queue@;
        let e = &mut self.queue[idx];
        e.cache.write_bytes(offset, src);
        proof {
            let data = splice(q1[idx as int].data, offset as int, src@);
            assert(self@ =~= q1.update(idx as int, Slot { data, modified: true, ..q1[idx as int] }));
            lemma_modify_entry(q1, block_device.blocks(), idx as int, data);
            assert forall|j: int| 0 <= j < self.queue@.len() implies (#[trigger] self.queue@[j]).block_id
                == old_queue[j].block_id && self.queue@[j].cache.id() == old_queue[j].cache.id() by {}
        }
    }

    /// Writes every modified entry back to the device.
    pub fn sync_all<D: BlockDevice>(&mut self, block_device: &mut D)
        requires
            old(self).wf(old(block_device)),
        ensures
            final(self).wf(final(block_device)),
            final(self).disk(final(block_device)) == old(self).disk(old(block_device)),
            forall|id: usize| #[trigger]
                final(block_device).blocks()[id] == old(self).disk(old(block_device))[id],
            final(self)@.len() == old(self)@.len(),
            forall|i: int|
                0 <= i < final(self)@.len() ==> (#[trigger] final(self)@[i]) == (Slot {
                    modified: false,
                    ..old(self)@[i]
                }),
    {
        let ghost q0 = self@;
        let ghost d0 = self.disk(block_device);
        let mut i: usize = 0;
        while i < self.queue.len()
            invariant
                i <= self.queue@.len(),
                self@.len() == q0.len(),
                self.tagged(),
                queue_wf(self@),
                queue_clean(self@, block_device.blocks()),
                disk_of(self@, block_device.blocks()) == d0,
                forall|j: int| 0 <= j < i ==> (#[trigger] self@[j]) == (Slot { modified: false, ..q0[j] }),
                forall|j: int| i <= j < q0.len() ==> (#[trigger] self@[j]) == q0[j],
            decreases self.queue@.len() - i,
        {
            let ghost q1 = self@;
            let ghost b1 = block_device.blocks();
            let ghost old_queue = self.queue@;
            let e = &mut self.queue[i];
            e.cache.sync(block_device);
            proof {
                assert(self@ =~= q1.update(i as int, Slot { modified: false, ..q1[i as int] }));
                assert forall|j: int| 0 <= j < self.queue@.len() implies (#[trigger] self.queue@[j]).block_id
                    == old_queue[j].block_id && self.queue@[j].cache.id() == old_queue[j].cache.id() by {}
                lemma_sync_entry(q1, b1, i as int);
            }
            i += 1;
        }
        proof {
            assert forall|id: usize| #[trigger] block_device.blocks()[id] == d0[id] by {
                if cached(self@, id) {
                    let k = slot_of(self@, id);
                    assert(!self@[k].modified);
                }
            }
        }
    }
}

/// Writing a cached block back changes nothing for a reader of the disk.
pub proof fn lemma_sync_entry(q: Seq<Slot>, blocks: Map<usize, Seq<u8>>, i: int)
    requires
        queue_wf(q),
        queue_clean(q, blocks),
        0 <= i < q.len(),
    ensures
        queue_wf(q.update(i, Slot { modified: false, ..q[i] })),
        queue_clean(
            q.update(i, Slot { modified: false, ..q[i] }),
            if q[i].modified {
                blocks.insert(q[i].block_id, q[i].data)
            } else {
                blocks
            },
        ),
        disk_of(
            q.update(i, Slot { modified: false, ..q[i] }),
            if q[i].modified {
                blocks.insert(q[i].block_id, q[i].data)
            } else {
                blocks
            },
        ) == disk_of(q, blocks),
{
    let q2 = q.update(i, Slot { modified: false, ..q[i] });
    let b2 = if q[i].modified {
        blocks.insert(q[i].block_id, q[i].data)
    } else {
        blocks
    };
    assert forall|k: int| 0 <= k < q.len() implies (#[trigger] q2[k]).block_id == q[k].block_id
        && q2[k].data == q[k].data by {}
    assert(queue_wf(q2));
    assert forall|x: usize| #[trigger] disk_of(q2, b2)[x] == disk_of(q, blocks)[x] by {
        if cached(q, x) {
            let k = slot_of(q, x);
            lemma_slot_unique(q, k);
            assert(q2[k].block_id == x);
            lemma_slot_unique(q2, k);
        } else {
            if cached(q2, x) {
                let k = slot_of(q2, x);
                assert(q[k].block_id == x);
            }
        }
    }
    assert(disk_of(q2, b2) =~= disk_of(q, blocks));
}

/// Hands out the entry for block `block_id` of the cache `manager`.
pub fn get_block_cache<D: BlockDevice>(
    manager: &mut BlockCacheManager,
    block_id: usize,
    block_device: &mut D,
) -> (idx: usize)
    requires
        old(manager).wf(old(block_device)),
        cached(old(manager)@, block_id) || old(manager)@.len() < BLOCK_CACHE_SIZE || has_victim(
            old(manager)@,
        ),
    ensures
        final(manager)@ == queue_after_get(old(manager)@, old(block_device).blocks(), block_id),
        final(block_device).blocks() == blocks_after_get(
            old(manager)@,
            old(block_device).blocks(),
            block_id,
        ),
        final(manager).wf(final(block_device)),
        final(manager).disk(final(block_device)) == old(manager).disk(old(block_device)),
        idx < final(manager)@.len(),
        final(manager)@[idx as int].block_id == block_id,
{
    manager.get_block_cache(block_id, block_device)
}

/// A request for a cached block finds it where it is and changes nothing.
pub proof fn lemma_get_keeps_disk_hit(q: Seq<Slot>, blocks: Map<usize, Seq<u8>>, i: int)
    requires
        queue_wf(q),
        0 <= i < q.len(),
    ensures
        queue_after_get(q, blocks, q[i].block_id) == q,
        blocks_after_get(q, blocks, q[i].block_id) == blocks,
        disk_of(q, blocks)[q[i].block_id] == q[i].data,
{
    lemma_slot_unique(q, i);
}

} // verus!
