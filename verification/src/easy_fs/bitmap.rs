use vstd::prelude::*;
use vstd::std_specs::bits::{axiom_u64_trailing_ones, u64_trailing_ones};
use crate::codec::{le_u64, with_u64, lemma_with_u64_same, lemma_with_u64_other};
use crate::easy_fs::block_cache::BlockCacheManager;
use crate::easy_fs::block_dev::BlockDevice;
use crate::easy_fs::BLOCK_SZ;

verus! {

/// Number of bits in a block.
pub const BLOCK_BITS: usize = BLOCK_SZ * 8;

/// A bit allocator kept in a run of blocks. Each block is 64 words of 64
/// bits; bit `n` set means that unit `n` is taken.
pub struct Bitmap {
    start_block_id: usize,
    blocks: usize,
}

/// The block, the word in the block and the bit in the word that hold bit `bit`.
pub open spec fn decomposition_of(bit: int) -> (int, int, int) {
    (bit / 4096, (bit % 4096) / 64, (bit % 4096) % 64)
}

impl Bitmap {
    /// The first block of the bitmap.
    pub closed spec fn start(&self) -> usize {
        self.start_block_id
    }

    /// The number of blocks of the bitmap.
    pub closed spec fn len(&self) -> usize {
        self.blocks
    }

    /// Word `p` of the bitmap, counted over all its blocks.
    pub open spec fn word_at(&self, disk: Map<usize, Seq<u8>>, p: int) -> u64 {
        le_u64(disk[(self.start() + p / 64) as usize], 8 * (p % 64))
    }

    /// Whether bit `bit` is set.
    pub open spec fn is_set(&self, disk: Map<usize, Seq<u8>>, bit: int) -> bool {
        (self.word_at(disk, bit / 64) >> ((bit % 64) as u64)) & 1 == 1
    }

    /// Whether `p` is the first word with a bit that is not set.
    pub open spec fn is_first_free(&self, disk: Map<usize, Seq<u8>>, p: int) -> bool {
        &&& 0 <= p < self.len() * 64
        &&& self.word_at(disk, p) != u64::MAX
        &&& forall|k: int| 0 <= k < p ==> #[trigger] self.word_at(disk, k) == u64::MAX
    }

    /// Whether some bit is not set.
    pub open spec fn has_free(&self, disk: Map<usize, Seq<u8>>) -> bool {
        exists|p: int| self.is_first_free(disk, p)
    }

    /// The first word with a bit that is not set.
    pub open spec fn first_free(&self, disk: Map<usize, Seq<u8>>) -> int {
        choose|p: int| self.is_first_free(disk, p)
    }

    /// The bit that an allocation takes: the lowest bit not set in the first
    /// word that has one.
    pub open spec fn next_bit(&self, disk: Map<usize, Seq<u8>>) -> int {
        let p = self.first_free(disk);
        p * 64 + u64_trailing_ones(self.word_at(disk, p))
    }

    /// The disk with word `p` of the bitmap replaced by `w`.
    pub open spec fn with_word(&self, disk: Map<usize, Seq<u8>>, p: int, w: u64) -> Map<
        usize,
        Seq<u8>,
    > {
        let id = (self.start() + p / 64) as usize;
        disk.insert(id, with_u64(disk[id], 8 * (p % 64), w))
    }

    /// The disk after an allocation.
    pub open spec fn after_alloc(&self, disk: Map<usize, Seq<u8>>) -> Map<usize, Seq<u8>> {
        if self.has_free(disk) {
            let p = self.first_free(disk);
            let w = self.word_at(disk, p);
            self.with_word(disk, p, w | (1u64 << (u64_trailing_ones(w) as u64)))
        } else {
            disk
        }
    }

    /// The disk after bit `bit` was cleared.
    pub open spec fn after_dealloc(&self, disk: Map<usize, Seq<u8>>, bit: int) -> Map<usize, Seq<u8>> {
        let w = self.word_at(disk, bit / 64);
        self.with_word(disk, bit / 64, w & !(1u64 << ((bit % 64) as u64)))
    }

    /// The first word with a free bit is the only one that `is_first_free` accepts.
    pub proof fn lemma_first_free_unique(&self, disk: Map<usize, Seq<u8>>, p: int)
        requires
            self.is_first_free(disk, p),
        ensures
            self.has_free(disk),
            self.first_free(disk) == p,
    {
        let q = self.first_free(disk);
        assert(self.is_first_free(disk, q));
        if q < p {
            assert(self.word_at(disk, q) == u64::MAX);
        }
        if p < q {
            assert(self.word_at(disk, p) == u64::MAX);
        }
    }

    /// A bitmap over `blocks` blocks that start at `start_block_id`.
    pub fn new(start_block_id: usize, blocks: usize) -> (r: Self)
        ensures
            r.start() == start_block_id,
            r.len() == blocks,
    {
        Self { start_block_id, blocks }
    }

    /// Takes the first bit that is not set and returns its number; `None`
    /// when every bit is set.
    pub fn allocate<D: BlockDevice>(&self, cache: &mut BlockCacheManager, block_device: &mut D) -> (r:
        Option<usize>)
        requires
            old(cache).ready(old(block_device)),
            self.start() + self.len() <= usize::MAX,
            self.len() * 4096 <= usize::MAX,
        ensures
            final(cache).ready(final(block_device)),
            r.is_some() == self.has_free(old(cache).disk(old(block_device))),
            r.is_some() ==> r.unwrap() == self.next_bit(old(cache).disk(old(block_device))),
            final(cache).disk(final(block_device)) == self.after_alloc(
                old(cache).disk(old(block_device)),
            ),
    {
        let ghost disk = cache.disk(block_device);
        let mut block_id: usize = 0;
        while block_id < self.blocks
            invariant
                block_id <= self.blocks,
                cache.ready(block_device),
                cache.disk(block_device) == disk,
                disk == old(cache).disk(old(block_device)),
                self.start() + self.len() <= usize::MAX,
                self.len() * 4096 <= usize::MAX,
                forall|k: int| 0 <= k < block_id * 64 ==> #[trigger] self.word_at(disk, k) == u64::MAX,
            decreases self.blocks - block_id,
        {
            let mut bits64_pos: usize = 0;
            while bits64_pos < 64
                invariant
                    block_id < self.blocks,
                    bits64_pos <= 64,
                    cache.ready(block_device),
                    cache.disk(block_device) == disk,
                    disk == old(cache).disk(old(block_device)),
                    self.start() + self.len() <= usize::MAX,
                    self.len() * 4096 <= usize::MAX,
                    forall|k: int|
                        0 <= k < block_id * 64 + bits64_pos ==> #[trigger] self.word_at(disk, k)
                            == u64::MAX,
                decreases 64 - bits64_pos,
            {
                let id = block_id + self.start_block_id;
                let bits64 = cache.read_u64(block_device, id, bits64_pos * 8);
                let ghost p = block_id * 64 + bits64_pos;
                assert(p / 64 == block_id && p % 64 == bits64_pos);
                assert(bits64 == self.word_at(disk, p));
                if bits64 != u64::MAX {
                    let inner_pos = bits64.trailing_ones() as usize;
                    proof {
                        axiom_u64_trailing_ones(bits64);
                        self.lemma_first_free_unique(disk, p);
                    }
                    cache.write_u64(block_device, id, bits64_pos * 8, bits64 | (1u64 << inner_pos));
                    return Some(block_id * BLOCK_BITS + bits64_pos * 64 + inner_pos);
                }
                bits64_pos += 1;
            }
            block_id += 1;
        }
        proof {
            if self.has_free(disk) {
                let p = self.first_free(disk);
                assert(self.is_first_free(disk, p));
                assert(self.word_at(disk, p) == u64::MAX);
            }
        }
        None
    }

    /// The block, the word in the block and the bit in the word of bit `bit`.
    pub fn decomposition(bit: usize) -> (r: (usize, usize, usize))
        ensures
            r.0 == decomposition_of(bit as int).0,
            r.1 == decomposition_of(bit as int).1,
            r.2 == decomposition_of(bit as int).2,
            r.1 < 64,
            r.2 < 64,
            r.0 * 64 + r.1 == bit / 64,
            r.2 == bit % 64,
    {
        let block_pos = bit / BLOCK_BITS;
        let rest = bit % BLOCK_BITS;
        (block_pos, rest / 64, rest % 64)
    }

    /// Clears bit `bits`, which must be set.
    pub fn dealloc<D: BlockDevice>(
        &self,
        cache: &mut BlockCacheManager,
        block_device: &mut D,
        bits: usize,
    )
        requires
            old(cache).ready(old(block_device)),
            self.start() + bits / 4096 <= usize::MAX,
            self.is_set(old(cache).disk(old(block_device)), bits as int),
        ensures
            final(cache).ready(final(block_device)),
            final(cache).disk(final(block_device)) == self.after_dealloc(
                old(cache).disk(old(block_device)),
                bits as int,
            ),
    {
        let (block_pos, bits64_pos, inner_pos) = Self::decomposition(bits);
        let ghost disk = cache.disk(block_device);
        let id = block_pos + self.start_block_id;
        let ghost p = bits as int / 64;
        assert(p / 64 == block_pos && p % 64 == bits64_pos);
        let word = cache.read_u64(block_device, id, bits64_pos * 8);
        assert(word == self.word_at(disk, p));
        let mask = 1u64 << inner_pos;
        assert((word >> (inner_pos as u64)) & 1 == 1 && inner_pos < 64 ==> word - (1u64 << (
        inner_pos as u64)) == word & !(1u64 << (inner_pos as u64)) && word >= (1u64 << (
        inner_pos as u64))) by (bit_vector);
        cache.write_u64(block_device, id, bits64_pos * 8, word - mask);
    }

    /// The number of bits of the bitmap.
    pub fn maximum(&self) -> (r: usize)
        requires
            self.len() * 4096 <= usize::MAX,
        ensures
            r == self.len() * 4096,
    {
        self.blocks * BLOCK_BITS
    }
}

} // verus!
