use vstd::prelude::*;
use crate::codec::{le_u32, splice, u32_bytes, with_u32, lemma_le_u32_of_bytes};
use crate::easy_fs::block_cache::BlockCacheManager;
use crate::easy_fs::block_dev::BlockDevice;
use crate::easy_fs::Disk;

verus! {

/// The number that marks a block as the first block of a file system.
pub const EFS_MAGIC: u32 = 0x3b800001;

/// Number of blocks an inode addresses directly.
pub const INODE_DIRECT_COUNT: usize = 28;

/// Number of block numbers an index block holds.
pub const INODE_INDIRECT1_COUNT: usize = 128;

/// Number of blocks an inode addresses through its second index block.
pub const INODE_INDIRECT2_COUNT: usize = 16384;

/// First inner number that is not addressed directly.
pub const DIRECT_BOUND: usize = 28;

/// First inner number that the first index block does not address.
pub const INDIRECT1_BOUND: usize = 156;

/// First inner number that an inode cannot address.
pub const INDIRECT2_BOUND: usize = 16540;

/// Size of an inode on disk, in bytes.
pub const DISK_INODE_SZ: usize = 128;

/// The first block of a file system: the number that marks it, and the
/// length in blocks of the whole and of each of the four regions after it.
pub struct SuperBlock {
    pub magic: u32,
    pub total_blocks: u32,
    pub inode_bitmap_blocks: u32,
    pub inode_area_blocks: u32,
    pub data_bitmap_blocks: u32,
    pub data_area_blocks: u32,
}

impl SuperBlock {
    /// The six numbers of the block, in the order in which they are stored.
    pub open spec fn words(&self) -> Seq<u32> {
        seq![
            self.magic,
            self.total_blocks,
            self.inode_bitmap_blocks,
            self.inode_area_blocks,
            self.data_bitmap_blocks,
            self.data_area_blocks,
        ]
    }

    /// What a block with the bytes `b` says of the file system.
    pub open spec fn stored_in(&self, b: Seq<u8>) -> bool {
        forall|k: int| 0 <= k < 6 ==> #[trigger] self.words()[k] == le_u32(b, 4 * k)
    }

    /// The bytes `b` with this super block stored at their start.
    pub open spec fn write_to(&self, b: Seq<u8>) -> Seq<u8> {
        splice(b, 0, words_bytes(self.words()))
    }

    /// A super block that is not marked.
    pub fn empty() -> (r: Self)
        ensures
            r.words() == seq![0u32, 0u32, 0u32, 0u32, 0u32, 0u32],
    {
        let r = Self {
            magic: 0,
            total_blocks: 0,
            inode_bitmap_blocks: 0,
            inode_area_blocks: 0,
            data_bitmap_blocks: 0,
            data_area_blocks: 0,
        };
        assert(r.words() =~= seq![0u32, 0u32, 0u32, 0u32, 0u32, 0u32]);
        r
    }

    /// Marks the block and records the lengths given.
    pub fn initialize(
        &mut self,
        total_blocks: u32,
        inode_bitmap_blocks: u32,
        inode_area_blocks: u32,
        data_bitmap_blocks: u32,
        data_area_blocks: u32,
    )
        ensures
            final(self).words() == seq![
                EFS_MAGIC,
                total_blocks,
                inode_bitmap_blocks,
                inode_area_blocks,
                data_bitmap_blocks,
                data_area_blocks,
            ],
            final(self).is_valid(),
    {
        *self = Self {
            magic: EFS_MAGIC,
            total_blocks,
            inode_bitmap_blocks,
            inode_area_blocks,
            data_bitmap_blocks,
            data_area_blocks,
        };
        assert(self.words() =~= seq![
            EFS_MAGIC,
            total_blocks,
            inode_bitmap_blocks,
            inode_area_blocks,
            data_bitmap_blocks,
            data_area_blocks,
        ]);
    }

    /// Whether the block carries the mark of a file system.
    #[verifier::when_used_as_spec(spec_is_valid)]
    pub fn is_valid(&self) -> (r: bool)
        ensures
            r == self.is_valid(),
    {
        self.magic == EFS_MAGIC
    }

    /// Whether the block carries the mark of a file system.
    pub open spec fn spec_is_valid(&self) -> bool {
        self.magic == EFS_MAGIC
    }

    /// Reads the super block from block 0.
    pub fn load<D: BlockDevice>(cache: &mut BlockCacheManager, block_device: &mut D) -> (r: Self)
        requires
            old(cache).ready(old(block_device)),
        ensures
            final(cache).ready(final(block_device)),
            final(cache).disk(final(block_device)) == old(cache).disk(old(block_device)),
            r.stored_in(old(cache).disk(old(block_device))[0]),
    {
        let magic = cache.read_u32(block_device, 0, 0);
        let total_blocks = cache.read_u32(block_device, 0, 4);
        let inode_bitmap_blocks = cache.read_u32(block_device, 0, 8);
        let inode_area_blocks = cache.read_u32(block_device, 0, 12);
        let data_bitmap_blocks = cache.read_u32(block_device, 0, 16);
        let data_area_blocks = cache.read_u32(block_device, 0, 20);
        Self {
            magic,
            total_blocks,
            inode_bitmap_blocks,
            inode_area_blocks,
            data_bitmap_blocks,
            data_area_blocks,
        }
    }

    /// The 24 bytes of the super block as they stand on disk.
    pub fn to_bytes(&self) -> (r: [u8; 24])
        ensures
            r@ == words_bytes(self.words()),
    {
        let mut buf = [0u8; 24];
        crate::codec::write_u32(&mut buf, 0, self.magic);
        crate::codec::write_u32(&mut buf, 4, self.total_blocks);
        crate::codec::write_u32(&mut buf, 8, self.inode_bitmap_blocks);
        crate::codec::write_u32(&mut buf, 12, self.inode_area_blocks);
        crate::codec::write_u32(&mut buf, 16, self.data_bitmap_blocks);
        crate::codec::write_u32(&mut buf, 20, self.data_area_blocks);
        assert(buf@ =~= words_bytes(self.words()));
        buf
    }

    /// Writes the super block to block 0.
    pub fn store<D: BlockDevice>(&self, cache: &mut BlockCacheManager, block_device: &mut D)
        requires
            old(cache).ready(old(block_device)),
        ensures
            final(cache).ready(final(block_device)),
            final(cache).disk(final(block_device)) == old(cache).disk(old(block_device)).insert(
                0,
                self.write_to(old(cache).disk(old(block_device))[0]),
            ),
    {
        let buf = self.to_bytes();
        cache.write_bytes(block_device, 0, 0, buf.as_slice());
    }
}

/// The bytes of the numbers `ws`, each little-endian, one after the other.
pub open spec fn words_bytes(ws: Seq<u32>) -> Seq<u8> {
    Seq::new(4 * ws.len(), |i: int| u32_bytes(ws[i / 4])[i % 4])
}

/// Numbers stored one after the other are read back one by one.
pub proof fn lemma_words_stored(b: Seq<u8>, off: int, ws: Seq<u32>, k: int)
    requires
        0 <= off,
        off + 4 * ws.len() <= b.len(),
        0 <= k < ws.len(),
    ensures
        le_u32(splice(b, off, words_bytes(ws)), off + 4 * k) == ws[k],
        splice(b, off, words_bytes(ws)).len() == b.len(),
{
    let s = splice(b, off, words_bytes(ws));
    assert forall|i: int| 0 <= i < 4 implies s[off + 4 * k + i] == #[trigger] u32_bytes(ws[k])[i] by {
        assert((4 * k + i) / 4 == k);
        assert((4 * k + i) % 4 == i);
    }
    lemma_le_u32_of_bytes(s, off + 4 * k, ws[k]);
}

/// Numbers stored somewhere leave numbers that do not overlap them unchanged.
pub proof fn lemma_words_other(b: Seq<u8>, off: int, ws: Seq<u32>, at: int)
    requires
        0 <= off,
        off + 4 * ws.len() <= b.len(),
        0 <= at,
        at + 4 <= b.len(),
        at + 4 <= off || off + 4 * ws.len() <= at,
    ensures
        le_u32(splice(b, off, words_bytes(ws)), at) == le_u32(b, at),
{
}

/// What an inode is: a file or a directory.
#[derive(PartialEq, Eq, Structural, Clone, Copy, Debug)]
pub enum DiskInodeType {
    File,
    Directory,
}


/// An inode: the size of its content in bytes, the blocks that hold the
/// content (28 numbers directly, then one index block, then an index block
/// of index blocks), and what it is.
pub struct DiskInode {
    pub size: u32,
    pub direct: [u32; 28],
    pub indirect1: u32,
    pub indirect2: u32,
    pub type_: DiskInodeType,
}

/// An inode as a value: what `DiskInode` holds.
pub struct InodeView {
    pub size: u32,
    pub direct: Seq<u32>,
    pub indirect1: u32,
    pub indirect2: u32,
    pub is_dir: bool,
}

impl View for DiskInode {
    type V = InodeView;

    open spec fn view(&self) -> InodeView {
        InodeView {
            size: self.size,
            direct: self.direct@,
            indirect1: self.indirect1,
            indirect2: self.indirect2,
            is_dir: self.type_ == DiskInodeType::Directory,
        }
    }
}

/// Number of blocks that `size` bytes fill.
pub open spec fn data_blocks_of(size: int) -> int {
    (size + 511) / 512
}

/// Number of blocks that a file of `size` bytes takes: its data blocks, the
/// first index block if it needs one, and the second index block with the
/// index blocks below it if it needs them.
pub open spec fn total_blocks_of(size: int) -> int {
    blocks_for(data_blocks_of(size))
}

/// Number of blocks that a file of `n` data blocks takes.
pub open spec fn blocks_for(n: int) -> int {
    n + (if n > 28 {
        1int
    } else {
        0
    }) + (if n > 156 {
        1 + (n - 156 + 127) / 128
    } else {
        0
    })
}

impl InodeView {
    /// The inode has its 28 direct numbers, and is not larger than an inode
    /// can address.
    pub open spec fn wf(self) -> bool {
        &&& self.direct.len() == 28
        &&& data_blocks_of(self.size as int) <= INDIRECT2_BOUND
    }

    /// The 32 numbers of the inode, in the order in which they are stored.
    pub open spec fn words(self) -> Seq<u32> {
        Seq::new(
            32,
            |k: int|
                if k == 0 {
                    self.size
                } else if k < 29 {
                    self.direct[k - 1]
                } else if k == 29 {
                    self.indirect1
                } else if k == 30 {
                    self.indirect2
                } else if self.is_dir {
                    1u32
                } else {
                    0u32
                },
        )
    }

    /// The number of the block that holds block `inner` of the content.
    pub open spec fn block_id(self, disk: Disk, inner: int) -> u32 {
        if inner < 28 {
            self.direct[inner]
        } else if inner < 156 {
            le_u32(disk[self.indirect1 as usize], 4 * (inner - 28))
        } else {
            let last = inner - 156;
            let leaf = le_u32(disk[self.indirect2 as usize], 4 * (last / 128));
            le_u32(disk[leaf as usize], 4 * (last % 128))
        }
    }

    /// Byte `pos` of the content.
    pub open spec fn byte(self, disk: Disk, pos: int) -> u8 {
        disk[self.block_id(disk, pos / 512) as usize][pos % 512]
    }

    /// The `n` bytes of the content from `offset` on.
    pub open spec fn bytes(self, disk: Disk, offset: int, n: int) -> Seq<u8> {
        Seq::new(n as nat, |k: int| self.byte(disk, offset + k))
    }
}

/// The inode stored in the bytes `b` at `off`.
pub open spec fn inode_at(b: Seq<u8>, off: int) -> InodeView {
    InodeView {
        size: le_u32(b, off),
        direct: Seq::new(28, |k: int| le_u32(b, off + 4 + 4 * k)),
        indirect1: le_u32(b, off + 116),
        indirect2: le_u32(b, off + 120),
        is_dir: le_u32(b, off + 124) == 1,
    }
}

/// An inode that was stored is the inode that is read back.
#[verifier::spinoff_prover]
pub proof fn lemma_inode_stored(b: Seq<u8>, off: int, v: InodeView)
    requires
        0 <= off,
        off + 128 <= b.len(),
        v.direct.len() == 28,
    ensures
        inode_at(splice(b, off, words_bytes(v.words())), off) == v,
{
    let ws = v.words();
    let s = splice(b, off, words_bytes(ws));
    let r = inode_at(s, off);
    assert(ws.len() == 32);
    assert(r.size == v.size) by {
        lemma_words_stored(b, off, ws, 0);
        assert(ws[0] == v.size);
    }
    assert(r.indirect1 == v.indirect1) by {
        lemma_words_stored(b, off, ws, 29);
        assert(ws[29] == v.indirect1);
    }
    assert(r.indirect2 == v.indirect2) by {
        lemma_words_stored(b, off, ws, 30);
        assert(ws[30] == v.indirect2);
    }
    assert(r.is_dir == v.is_dir) by {
        lemma_words_stored(b, off, ws, 31);
        assert(ws[31] == if v.is_dir {
            1u32
        } else {
            0u32
        });
    }
    assert forall|k: int| 0 <= k < 28 implies r.direct[k] == v.direct[k] by {
        lemma_words_stored(b, off, ws, k + 1);
        assert(ws[k + 1] == v.direct[k]);
        assert(off + 4 + 4 * k == off + 4 * (k + 1));
    }
    assert(r.direct =~= v.direct);
}

impl DiskInode {
    /// An empty file.
    pub fn empty() -> (r: Self)
        ensures
            r@.size == 0,
            r@.direct == Seq::new(28, |k: int| 0u32),
            r@.indirect1 == 0,
            r@.indirect2 == 0,
            !r@.is_dir,
    {
        let r = Self { size: 0, direct: [0u32; 28], indirect1: 0, indirect2: 0, type_: DiskInodeType::File };
        assert(r@.direct =~= Seq::new(28, |k: int| 0u32));
        r
    }

    /// Makes the inode an empty file or an empty directory.
    pub fn initialize(&mut self, type_: DiskInodeType)
        ensures
            final(self)@.size == 0,
            final(self)@.direct == Seq::new(28, |k: int| 0u32),
            final(self)@.indirect1 == 0,
            final(self)@.indirect2 == 0,
            final(self)@.is_dir == (type_ == DiskInodeType::Directory),
    {
        self.size = 0;
        self.direct = [0u32; 28];
        self.indirect1 = 0;
        self.indirect2 = 0;
        self.type_ = type_;
        assert(self@.direct =~= Seq::new(28, |k: int| 0u32));
    }

    /// Whether the inode is a directory.
    pub fn is_dir(&self) -> (r: bool)
        ensures
            r == self@.is_dir,
    {
        self.type_ == DiskInodeType::Directory
    }

    /// Whether the inode is a file.
    pub fn is_file(&self) -> (r: bool)
        ensures
            r == !self@.is_dir,
    {
        self.type_ == DiskInodeType::File
    }

    /// Decodes the inode stored in `b` at `off`.
    pub fn from_bytes(b: &[u8], off: usize) -> (r: Self)
        requires
            off + 128 <= b@.len(),
        ensures
            r@ == inode_at(b@, off as int),
    {
        let n = b.len();
        let mut direct = [0u32; 28];
        let mut k: usize = 0;
        while k < 28
            invariant
                k <= 28,
                off + 128 <= n == b@.len(),
                forall|j: int| 0 <= j < k ==> #[trigger] direct@[j] == le_u32(b@, off + 4 + 4 * j),
            decreases 28 - k,
        {
            direct[k] = crate::codec::read_u32(b, off + 4 + 4 * k);
            k += 1;
        }
        let t = crate::codec::read_u32(b, off + 124);
        let r = Self {
            size: crate::codec::read_u32(b, off),
            direct,
            indirect1: crate::codec::read_u32(b, off + 116),
            indirect2: crate::codec::read_u32(b, off + 120),
            type_: if t == 1 {
                DiskInodeType::Directory
            } else {
                DiskInodeType::File
            },
        };
        assert(r@.direct =~= inode_at(b@, off as int).direct);
        r
    }

    /// The 128 bytes of the inode as they stand on disk.
    pub fn to_bytes(&self) -> (r: [u8; 128])
        ensures
            r@ == words_bytes(self@.words()),
    {
        let mut buf = [0u8; 128];
        let ghost ws = self@.words();
        crate::codec::write_u32(&mut buf, 0, self.size);
        let mut k: usize = 0;
        while k < 28
            invariant
                k <= 28,
                ws == self@.words(),
                forall|i: int| 0 <= i < 4 + 4 * k ==> #[trigger] buf@[i] == words_bytes(ws)[i],
            decreases 28 - k,
        {
            crate::codec::write_u32(&mut buf, 4 + 4 * k, self.direct[k]);
            proof {
                assert forall|i: int| 0 <= i < 8 + 4 * k implies #[trigger] buf@[i] == words_bytes(ws)[i] by {
                    if i >= 4 + 4 * k {
                        assert(i / 4 == k + 1);
                        assert(i % 4 == i - (4 + 4 * k));
                        assert(ws[k + 1] == self.direct@[k as int]);
                    }
                }
            }
            k += 1;
        }
        crate::codec::write_u32(&mut buf, 116, self.indirect1);
        crate::codec::write_u32(&mut buf, 120, self.indirect2);
        crate::codec::write_u32(
            &mut buf,
            124,
            match self.type_ {
                DiskInodeType::Directory => 1,
                DiskInodeType::File => 0,
            },
        );
        proof {
            assert forall|i: int| 0 <= i < 128 implies #[trigger] buf@[i] == words_bytes(ws)[i] by {
                if i >= 124 {
                    assert(i / 4 == 31);
                } else if i >= 120 {
                    assert(i / 4 == 30);
                } else if i >= 116 {
                    assert(i / 4 == 29);
                }
            }
            assert(buf@ =~= words_bytes(ws));
        }
        buf
    }

    /// Reads the inode stored at `offset` of block `block_id`.
    pub fn load<D: BlockDevice>(
        cache: &mut BlockCacheManager,
        block_device: &mut D,
        block_id: usize,
        offset: usize,
    ) -> (r: Self)
        requires
            old(cache).ready(old(block_device)),
            offset + 128 <= 512,
        ensures
            final(cache).ready(final(block_device)),
            final(cache).disk(final(block_device)) == old(cache).disk(old(block_device)),
            r@ == inode_at(old(cache).disk(old(block_device))[block_id], offset as int),
    {
        let mut buf = [0u8; 128];
        cache.read_bytes(block_device, block_id, offset, &mut buf, 0, 128);
        let r = Self::from_bytes(buf.as_slice(), 0);
        proof {
            let b = old(cache).disk(old(block_device))[block_id];
            assert(r@.direct =~= inode_at(b, offset as int).direct);
        }
        r
    }

    /// Writes the inode at `offset` of block `block_id`.
    pub fn store<D: BlockDevice>(
        &self,
        cache: &mut BlockCacheManager,
        block_device: &mut D,
        block_id: usize,
        offset: usize,
    )
        requires
            old(cache).ready(old(block_device)),
            offset + 128 <= 512,
        ensures
            final(cache).ready(final(block_device)),
            final(cache).disk(final(block_device)) == old(cache).disk(old(block_device)).insert(
                block_id,
                splice(
                    old(cache).disk(old(block_device))[block_id],
                    offset as int,
                    words_bytes(self@.words()),
                ),
            ),
    {
        let buf = self.to_bytes();
        cache.write_bytes(block_device, block_id, offset, buf.as_slice());
    }

    /// The number of the block that holds block `inner_id` of the content.
    pub fn get_block_id<D: BlockDevice>(
        &self,
        inner_id: u32,
        cache: &mut BlockCacheManager,
        block_device: &mut D,
    ) -> (r: u32)
        requires
            old(cache).ready(old(block_device)),
            inner_id < INDIRECT2_BOUND,
        ensures
            final(cache).ready(final(block_device)),
            final(cache).disk(final(block_device)) == old(cache).disk(old(block_device)),
            r == self@.block_id(old(cache).disk(old(block_device)), inner_id as int),
    {
        let inner_id = inner_id as usize;
        if inner_id < INODE_DIRECT_COUNT {
            self.direct[inner_id]
        } else if inner_id < INDIRECT1_BOUND {
            cache.read_u32(block_device, self.indirect1 as usize, 4 * (inner_id - INODE_DIRECT_COUNT))
        } else {
            let last = inner_id - INDIRECT1_BOUND;
            let indirect1 = cache.read_u32(
                block_device,
                self.indirect2 as usize,
                4 * (last / INODE_INDIRECT1_COUNT),
            );
            cache.read_u32(block_device, indirect1 as usize, 4 * (last % INODE_INDIRECT1_COUNT))
        }
    }

    /// Number of blocks that `size` bytes fill.
    pub fn _data_blocks(size: u32) -> (r: u32)
        ensures
            r == data_blocks_of(size as int),
    {
        size / 512 + if size % 512 != 0 {
            1
        } else {
            0
        }
    }

    /// Number of blocks that the content fills.
    pub fn data_blocks(&self) -> (r: u32)
        ensures
            r == data_blocks_of(self.size as int),
    {
        Self::_data_blocks(self.size)
    }

    /// Number of blocks that a file of `size` bytes takes, index blocks included.
    pub fn total_blocks(size: u32) -> (r: u32)
        ensures
            r == total_blocks_of(size as int),
    {
        let data_blocks = Self::_data_blocks(size) as usize;
        let mut total = data_blocks;
        if data_blocks > INODE_DIRECT_COUNT {
            total += 1;
        }
        if data_blocks > INDIRECT1_BOUND {
            total += 1;
            total += (data_blocks - INDIRECT1_BOUND + INODE_INDIRECT1_COUNT - 1) / INODE_INDIRECT1_COUNT;
        }
        total as u32
    }

    /// Number of blocks to add for the content to grow to `new_size` bytes.
    pub fn blocks_num_needed(&self, new_size: u32) -> (r: u32)
        requires
            new_size >= self.size,
        ensures
            r == total_blocks_of(new_size as int) - total_blocks_of(self.size as int),
    {
        Self::total_blocks(new_size) - Self::total_blocks(self.size)
    }
}


/// An inode that is growing: the inode, the disk, and how many of the new
/// blocks are used up.
pub struct GrowState {
    pub inode: InodeView,
    pub disk: Disk,
    pub used: int,
}

/// Block `i` of the content is added. The blocks to use are taken from `nb`
/// in order: the first index block before block 28, the second index block
/// before block 156, an index block below it before each 128th block after
/// that, then the data block itself.
pub open spec fn grow_step(st: GrowState, i: int, nb: Seq<u32>) -> GrowState {
    if i < 28 {
        GrowState {
            inode: InodeView { direct: st.inode.direct.update(i, nb[st.used]), ..st.inode },
            disk: st.disk,
            used: st.used + 1,
        }
    } else if i < 156 {
        let ind1 = if i == 28 {
            nb[st.used]
        } else {
            st.inode.indirect1
        };
        let k1 = if i == 28 {
            st.used + 1
        } else {
            st.used
        };
        GrowState {
            inode: InodeView { indirect1: ind1, ..st.inode },
            disk: st.disk.insert(
                ind1 as usize,
                with_u32(st.disk[ind1 as usize], 4 * (i - 28), nb[k1]),
            ),
            used: k1 + 1,
        }
    } else {
        let ind2 = if i == 156 {
            nb[st.used]
        } else {
            st.inode.indirect2
        };
        let k1 = if i == 156 {
            st.used + 1
        } else {
            st.used
        };
        let a = (i - 156) / 128;
        let b = (i - 156) % 128;
        let disk1 = if b == 0 {
            st.disk.insert(ind2 as usize, with_u32(st.disk[ind2 as usize], 4 * a, nb[k1]))
        } else {
            st.disk
        };
        let k2 = if b == 0 {
            k1 + 1
        } else {
            k1
        };
        let leaf = le_u32(disk1[ind2 as usize], 4 * a);
        GrowState {
            inode: InodeView { indirect2: ind2, ..st.inode },
            disk: disk1.insert(leaf as usize, with_u32(disk1[leaf as usize], 4 * b, nb[k2])),
            used: k2 + 1,
        }
    }
}

/// Blocks `from` up to `to` of the content are added, one after the other.
pub open spec fn grow(st: GrowState, from: int, to: int, nb: Seq<u32>) -> GrowState
    decreases to - from,
{
    if to <= from {
        st
    } else {
        grow_step(grow(st, from, to - 1, nb), to - 1, nb)
    }
}

/// Growing from `from` to `to` data blocks uses as many new blocks as the
/// larger file takes more than the smaller, and leaves the inode's size and
/// kind as they were.
pub proof fn lemma_grow_used(st: GrowState, from: int, to: int, nb: Seq<u32>)
    requires
        0 <= from <= to,
        st.inode.direct.len() == 28,
    ensures
        grow(st, from, to, nb).used == st.used + blocks_for(to) - blocks_for(from),
        grow(st, from, to, nb).inode.size == st.inode.size,
        grow(st, from, to, nb).inode.is_dir == st.inode.is_dir,
        grow(st, from, to, nb).inode.direct.len() == 28,
    decreases to - from,
{
    if to > from {
        lemma_grow_used(st, from, to - 1, nb);
    }
}

impl DiskInode {
    /// Grows the content to `new_size` bytes. `new_blocks` holds the numbers
    /// of the blocks to add, as many as `blocks_num_needed` says; they are
    /// wired in in order, as `grow` describes.
    pub fn increase_size<D: BlockDevice>(
        &mut self,
        new_size: u32,
        new_blocks: Vec<u32>,
        cache: &mut BlockCacheManager,
        block_device: &mut D,
    )
        requires
            old(cache).ready(old(block_device)),
            new_size >= old(self).size,
            data_blocks_of(new_size as int) <= INDIRECT2_BOUND,
            new_blocks@.len() == total_blocks_of(new_size as int) - total_blocks_of(
                old(self).size as int,
            ),
        ensures
            final(cache).ready(final(block_device)),
            final(self)@ == (InodeView {
                size: new_size,
                ..grow(
                    GrowState { inode: old(self)@, disk: old(cache).disk(old(block_device)), used: 0 },
                    data_blocks_of(old(self).size as int),
                    data_blocks_of(new_size as int),
                    new_blocks@,
                ).inode
            }),
            final(cache).disk(final(block_device)) == grow(
                GrowState { inode: old(self)@, disk: old(cache).disk(old(block_device)), used: 0 },
                data_blocks_of(old(self).size as int),
                data_blocks_of(new_size as int),
                new_blocks@,
            ).disk,
    {
        let from = self.data_blocks() as usize;
        let to = Self::_data_blocks(new_size) as usize;
        let ghost st0 = GrowState { inode: self@, disk: cache.disk(block_device), used: 0 };
        let ghost nb = new_blocks@;
        let mut i: usize = from;
        let mut used: usize = 0;
        while i < to
            invariant
                from <= i <= to <= INDIRECT2_BOUND,
                cache.ready(block_device),
                nb == new_blocks@,
                nb.len() == blocks_for(to as int) - blocks_for(from as int),
                used == blocks_for(i as int) - blocks_for(from as int),
                st0.inode.direct.len() == 28,
                grow(st0, from as int, i as int, nb) == (GrowState {
                    inode: self@,
                    disk: cache.disk(block_device),
                    used: used as int,
                }),
            decreases to - i,
        {
            proof {
                lemma_grow_used(st0, from as int, i as int, nb);
                assert(blocks_for(i + 1) <= blocks_for(to as int));
            }
            let ghost st = grow(st0, from as int, i as int, nb);
            if i < INODE_DIRECT_COUNT {
                self.direct[i] = new_blocks[used];
                used += 1;
            } else if i < INDIRECT1_BOUND {
                if i == INODE_DIRECT_COUNT {
                    self.indirect1 = new_blocks[used];
                    used += 1;
                }
                cache.write_u32(
                    block_device,
                    self.indirect1 as usize,
                    4 * (i - INODE_DIRECT_COUNT),
                    new_blocks[used],
                );
                used += 1;
            } else {
                if i == INDIRECT1_BOUND {
                    self.indirect2 = new_blocks[used];
                    used += 1;
                }
                let a0 = (i - INDIRECT1_BOUND) / INODE_INDIRECT1_COUNT;
                let b0 = (i - INDIRECT1_BOUND) % INODE_INDIRECT1_COUNT;
                if b0 == 0 {
                    cache.write_u32(block_device, self.indirect2 as usize, 4 * a0, new_blocks[used]);
                    used += 1;
                }
                let leaf = cache.read_u32(block_device, self.indirect2 as usize, 4 * a0);
                cache.write_u32(block_device, leaf as usize, 4 * b0, new_blocks[used]);
                used += 1;
            }
            proof {
                assert(grow(st0, from as int, i + 1, nb) == grow_step(st, i as int, nb));
                assert(self@.direct =~= grow_step(st, i as int, nb).inode.direct);
            }
            i += 1;
        }
        self.size = new_size;
    }
}


/// The smaller of two numbers.
pub open spec fn min_of(a: int, b: int) -> int {
    if a <= b {
        a
    } else {
        b
    }
}

/// The first `n` numbers that index block `id` holds.
pub open spec fn index_entries(disk: Disk, id: u32, n: int) -> Seq<u32> {
    Seq::new(n as nat, |k: int| le_u32(disk[id as usize], 4 * k))
}

/// The disk with the first `n` numbers of index block `id` set to zero.
pub open spec fn zero_entries(disk: Disk, id: u32, n: int) -> Disk
    decreases n,
{
    if n <= 0 {
        disk
    } else {
        let d = zero_entries(disk, id, n - 1);
        d.insert(id as usize, with_u32(d[id as usize], 4 * (n - 1), 0))
    }
}

/// The blocks below the second index block `ind2` that serve the first `a`
/// index blocks under it, where `n` data blocks lie beyond the first 156:
/// each index block, then the data blocks it names.
pub open spec fn leaf_blocks(disk: Disk, ind2: u32, n: int, a: int) -> Seq<u32>
    decreases a,
{
    if a <= 0 {
        Seq::<u32>::empty()
    } else {
        let leaf = le_u32(disk[ind2 as usize], 4 * (a - 1));
        leaf_blocks(disk, ind2, n, a - 1) + seq![leaf] + index_entries(
            disk,
            leaf,
            min_of(128, n - 128 * (a - 1)),
        )
    }
}

impl InodeView {
    /// The blocks that the inode gives up when it is cleared: the data
    /// blocks and the index blocks, in the order in which they are found.
    pub open spec fn freed_blocks(self, disk: Disk) -> Seq<u32> {
        let n = data_blocks_of(self.size as int);
        let first = self.direct.subrange(0, min_of(n, 28));
        if n <= 28 {
            first
        } else {
            let second = seq![self.indirect1] + index_entries(disk, self.indirect1, min_of(n, 156) - 28);
            if n <= 156 {
                first + second
            } else {
                first + second + seq![self.indirect2] + leaf_blocks(
                    zero_entries(disk, self.indirect1, 128),
                    self.indirect2,
                    n - 156,
                    (n - 156 + 127) / 128,
                )
            }
        }
    }

    /// The inode after it was cleared.
    pub open spec fn cleared(self) -> InodeView {
        let n = data_blocks_of(self.size as int);
        InodeView {
            size: 0,
            direct: Seq::new(
                28,
                |k: int|
                    if k < n {
                        0u32
                    } else {
                        self.direct[k]
                    },
            ),
            indirect1: if n > 28 {
                0
            } else {
                self.indirect1
            },
            indirect2: if n > 156 {
                0
            } else {
                self.indirect2
            },
            is_dir: self.is_dir,
        }
    }

    /// The disk after the inode was cleared: the numbers in its first index
    /// block are set to zero.
    pub open spec fn disk_cleared(self, disk: Disk) -> Disk {
        let n = data_blocks_of(self.size as int);
        if n > 28 {
            zero_entries(disk, self.indirect1, min_of(n, 156) - 28)
        } else {
            disk
        }
    }
}

/// Setting the first numbers of an index block to zero leaves the later
/// numbers of that block, and every other block, as they were.
pub proof fn lemma_zero_entries(disk: Disk, id: u32, n: int, k: int)
    requires
        0 <= n <= 128,
        n <= k < 128,
        disk[id as usize].len() == 512,
    ensures
        zero_entries(disk, id, n)[id as usize].len() == 512,
        le_u32(zero_entries(disk, id, n)[id as usize], 4 * k) == le_u32(disk[id as usize], 4 * k),
        forall|x: usize| x != id as usize ==> #[trigger] zero_entries(disk, id, n)[x] == disk[x],
    decreases n,
{
    if n > 0 {
        lemma_zero_entries(disk, id, n - 1, k);
        let d = zero_entries(disk, id, n - 1);
        crate::codec::lemma_with_u32_other(d[id as usize], 4 * (n - 1), 0, 4 * k);
    }
}

/// The number of leaf blocks listed for `a` index blocks.
pub proof fn lemma_leaf_blocks_len(disk: Disk, ind2: u32, n: int, a: int)
    requires
        0 <= a,
        0 <= n,
        128 * a <= n + 127,
    ensures
        leaf_blocks(disk, ind2, n, a).len() == a + min_of(n, 128 * a),
    decreases a,
{
    if a > 0 {
        lemma_leaf_blocks_len(disk, ind2, n, a - 1);
        let leaf = le_u32(disk[ind2 as usize], 4 * (a - 1));
        let count = min_of(128, n - 128 * (a - 1));
        assert(count >= 1);
        assert(index_entries(disk, leaf, count).len() == count);
        assert(leaf_blocks(disk, ind2, n, a) == leaf_blocks(disk, ind2, n, a - 1) + seq![leaf]
            + index_entries(disk, leaf, count));
    }
}

/// Clearing an inode frees as many blocks as a file of its size takes.
pub proof fn lemma_freed_len(v: InodeView, disk: Disk)
    requires
        v.wf(),
    ensures
        v.freed_blocks(disk).len() == total_blocks_of(v.size as int),
{
    let n = data_blocks_of(v.size as int);
    if n > 156 {
        lemma_leaf_blocks_len(
            zero_entries(disk, v.indirect1, 128),
            v.indirect2,
            n - 156,
            (n - 156 + 127) / 128,
        );
    }
}

impl DiskInode {
    /// Empties the inode and returns the numbers of the blocks it held, data
    /// blocks and index blocks, for the caller to free.
    pub fn clear_size<D: BlockDevice>(
        &mut self,
        cache: &mut BlockCacheManager,
        block_device: &mut D,
    ) -> (v: Vec<u32>)
        requires
            old(cache).ready(old(block_device)),
            old(self)@.wf(),
        ensures
            final(cache).ready(final(block_device)),
            v@ == old(self)@.freed_blocks(old(cache).disk(old(block_device))),
            final(self)@ == old(self)@.cleared(),
            final(cache).disk(final(block_device)) == old(self)@.disk_cleared(
                old(cache).disk(old(block_device)),
            ),
            v@.len() == total_blocks_of(old(self).size as int),
    {
        let ghost v0 = self@;
        let ghost disk0 = cache.disk(block_device);
        proof {
            lemma_freed_len(v0, disk0);
        }
        let mut v: Vec<u32> = Vec::new();
        let data_blocks = self.data_blocks() as usize;
        self.size = 0;
        let direct_end = if data_blocks < INODE_DIRECT_COUNT {
            data_blocks
        } else {
            INODE_DIRECT_COUNT
        };
        let mut current_blocks: usize = 0;
        while current_blocks < direct_end
            invariant
                current_blocks <= direct_end <= 28,
                direct_end == min_of(data_blocks as int, 28),
                v@ == v0.direct.subrange(0, current_blocks as int),
                v0.direct.len() == 28,
                self@.direct.len() == 28,
                forall|k: int|
                    0 <= k < 28 ==> #[trigger] self@.direct[k] == if k < current_blocks {
                        0u32
                    } else {
                        v0.direct[k]
                    },
                self.indirect1 == v0.indirect1,
                self.indirect2 == v0.indirect2,
                self@.is_dir == v0.is_dir,
                self.size == 0,
            decreases direct_end - current_blocks,
        {
            v.push(self.direct[current_blocks]);
            self.direct[current_blocks] = 0;
            current_blocks += 1;
            assert(v@ =~= v0.direct.subrange(0, current_blocks as int));
        }
        if data_blocks <= INODE_DIRECT_COUNT {
            assert(self@.direct =~= v0.cleared().direct);
            return v;
        }
        let ghost first = v@;
        v.push(self.indirect1);
        let ind1 = self.indirect1;
        let ind1_end = if data_blocks < INDIRECT1_BOUND {
            data_blocks - INODE_DIRECT_COUNT
        } else {
            INODE_INDIRECT1_COUNT
        };
        let mut j: usize = 0;
        while j < ind1_end
            invariant
                j <= ind1_end <= 128,
                cache.ready(block_device),
                cache.disk(block_device) == zero_entries(disk0, ind1, j as int),
                v@ == first + seq![ind1] + index_entries(disk0, ind1, j as int),
                j > 0 ==> disk0[ind1 as usize].len() == 512,
            decreases ind1_end - j,
        {
            let e = cache.read_u32(block_device, ind1 as usize, 4 * j);
            proof {
                if j == 0 {
                    assert(zero_entries(disk0, ind1, 0) == disk0);
                }
                lemma_zero_entries(disk0, ind1, j as int, j as int);
            }
            v.push(e);
            cache.write_u32(block_device, ind1 as usize, 4 * j, 0);
            j += 1;
            assert(v@ =~= first + seq![ind1] + index_entries(disk0, ind1, j as int));
        }
        self.indirect1 = 0;
        if data_blocks <= INDIRECT1_BOUND {
            assert(self@.direct =~= v0.cleared().direct);
            return v;
        }
        let ghost second = v@;
        let ghost disk1 = cache.disk(block_device);
        let ind2 = self.indirect2;
        v.push(ind2);
        let rest = data_blocks - INDIRECT1_BOUND;
        let leaves = (rest + INODE_INDIRECT1_COUNT - 1) / INODE_INDIRECT1_COUNT;
        let mut a: usize = 0;
        while a < leaves
            invariant
                a <= leaves <= 128,
                leaves == (rest + 127) / 128,
                rest <= 16384,
                cache.ready(block_device),
                cache.disk(block_device) == disk1,
                v@ == second + seq![ind2] + leaf_blocks(disk1, ind2, rest as int, a as int),
            decreases leaves - a,
        {
            let leaf = cache.read_u32(block_device, ind2 as usize, 4 * a);
            let ghost before = v@;
            v.push(leaf);
            let count = if rest - INODE_INDIRECT1_COUNT * a < INODE_INDIRECT1_COUNT {
                rest - INODE_INDIRECT1_COUNT * a
            } else {
                INODE_INDIRECT1_COUNT
            };
            let mut k: usize = 0;
            while k < count
                invariant
                    k <= count <= 128,
                    cache.ready(block_device),
                    cache.disk(block_device) == disk1,
                    v@ == before + seq![leaf] + index_entries(disk1, leaf, k as int),
                decreases count - k,
            {
                let e = cache.read_u32(block_device, leaf as usize, 4 * k);
                v.push(e);
                k += 1;
                assert(v@ =~= before + seq![leaf] + index_entries(disk1, leaf, k as int));
            }
            a += 1;
            assert(v@ =~= second + seq![ind2] + leaf_blocks(disk1, ind2, rest as int, a as int));
        }
        self.indirect2 = 0;
        assert(self@.direct =~= v0.cleared().direct);
        v
    }
}


/// Number of bytes that a read or write of `len` bytes at `offset` moves in
/// a file of `size` bytes: none at or after the end, else what lies before it.
pub open spec fn transfer_len(size: int, offset: int, len: int) -> int {
    if offset >= size {
        0
    } else {
        min_of(size - offset, len)
    }
}

/// The disk after the bytes of `data` from `done` on were written to the
/// content from `start` up to `end`, block by block. Each block is looked up
/// when its turn comes.
pub open spec fn write_chunks(v: InodeView, disk: Disk, start: int, end: int, data: Seq<u8>, done: int) -> Disk
    decreases end - start,
{
    if start >= end || start < 0 {
        disk
    } else {
        let stop = min_of((start / 512 + 1) * 512, end);
        let id = v.block_id(disk, start / 512) as usize;
        write_chunks(
            v,
            disk.insert(id, splice(disk[id], start % 512, data.subrange(done, done + stop - start))),
            stop,
            end,
            data,
            done + stop - start,
        )
    }
}

impl DiskInode {
    /// Reads the content from `offset` on into `buf`, up to the end of the
    /// content or of `buf`, and returns the number of bytes read.
    pub fn read_at<D: BlockDevice>(
        &self,
        offset: usize,
        buf: &mut [u8],
        cache: &mut BlockCacheManager,
        block_device: &mut D,
    ) -> (n: usize)
        requires
            old(cache).ready(old(block_device)),
            self@.wf(),
        ensures
            final(cache).ready(final(block_device)),
            final(cache).disk(final(block_device)) == old(cache).disk(old(block_device)),
            n == transfer_len(self.size as int, offset as int, old(buf)@.len() as int),
            final(buf)@ == splice(
                old(buf)@,
                0,
                self@.bytes(old(cache).disk(old(block_device)), offset as int, n as int),
            ),
    {
        let ghost disk = cache.disk(block_device);
        let ghost buf0 = buf@;
        let size = self.size as usize;
        let len = buf.len();
        if offset >= size {
            assert(buf@ =~= splice(buf0, 0, self@.bytes(disk, offset as int, 0)));
            return 0;
        }
        let avail = size - offset;
        let n = if len < avail {
            len
        } else {
            avail
        };
        let end = offset + n;
        let mut start = offset;
        let mut read_size: usize = 0;
        assert(buf@ =~= splice(buf0, 0, self@.bytes(disk, offset as int, 0)));
        while start < end
            invariant
                offset <= start <= end <= size,
                end == offset + n,
                n <= len == buf0.len(),
                size == self.size,
                self@.wf(),
                read_size == start - offset,
                cache.ready(block_device),
                cache.disk(block_device) == disk,
                buf@ == splice(buf0, 0, self@.bytes(disk, offset as int, read_size as int)),
            decreases end - start,
        {
            let mut end_current_block = (start / 512 + 1) * 512;
            if end_current_block > end {
                end_current_block = end;
            }
            let block_read_size = end_current_block - start;
            let block_id = self.get_block_id((start / 512) as u32, cache, block_device);
            let ghost before = buf@;
            cache.read_bytes(
                block_device,
                block_id as usize,
                start % 512,
                buf,
                read_size,
                block_read_size,
            );
            proof {
                let total = read_size + block_read_size;
                let want = splice(buf0, 0, self@.bytes(disk, offset as int, total));
                assert forall|i: int| 0 <= i < buf0.len() implies #[trigger] buf@[i] == want[i] by {
                    if read_size <= i < total {
                        let d = i - read_size;
                        assert((start + d) / 512 == start / 512);
                        assert((start + d) % 512 == start % 512 + d);
                        assert(offset + i == start + d);
                    }
                }
                assert(buf@ =~= want);
            }
            read_size += block_read_size;
            start = end_current_block;
        }
        read_size
    }

    /// Writes `buf` over the content from `offset` on, up to the end of the
    /// content or of `buf`, and returns the number of bytes written. The
    /// content does not grow.
    pub fn write_at<D: BlockDevice>(
        &self,
        offset: usize,
        buf: &[u8],
        cache: &mut BlockCacheManager,
        block_device: &mut D,
    ) -> (n: usize)
        requires
            old(cache).ready(old(block_device)),
            self@.wf(),
        ensures
            final(cache).ready(final(block_device)),
            n == transfer_len(self.size as int, offset as int, buf@.len() as int),
            final(cache).disk(final(block_device)) == write_chunks(
                self@,
                old(cache).disk(old(block_device)),
                offset as int,
                offset + n,
                buf@,
                0,
            ),
    {
        let ghost disk0 = cache.disk(block_device);
        let size = self.size as usize;
        let len = buf.len();
        if offset >= size {
            return 0;
        }
        let avail = size - offset;
        let n = if len < avail {
            len
        } else {
            avail
        };
        let end = offset + n;
        let mut start = offset;
        let mut write_size: usize = 0;
        while start < end
            invariant
                offset <= start <= end <= size,
                end == offset + n,
                n <= len == buf@.len(),
                size == self.size,
                self@.wf(),
                write_size == start - offset,
                cache.ready(block_device),
                write_chunks(
                    self@,
                    cache.disk(block_device),
                    start as int,
                    end as int,
                    buf@,
                    write_size as int,
                ) == write_chunks(self@, disk0, offset as int, end as int, buf@, 0),
            decreases end - start,
        {
            let mut end_current_block = (start / 512 + 1) * 512;
            if end_current_block > end {
                end_current_block = end;
            }
            let block_write_size = end_current_block - start;
            let block_id = self.get_block_id((start / 512) as u32, cache, block_device);
            let src = vstd::slice::slice_subrange(buf, write_size, write_size + block_write_size);
            cache.write_bytes(block_device, block_id as usize, start % 512, src);
            write_size += block_write_size;
            start = end_current_block;
        }
        write_size
    }
}

/// Longest name of a directory entry, in bytes.
pub const NAME_LENGTH_LIMIT: usize = 27;

/// Size of a directory entry on disk, in bytes.
pub const DIRENTRY_SZ: usize = 32;

/// An entry of a directory: a name of at most 27 bytes, closed by a zero
/// byte, and the number of the inode it names.
pub struct DirEntry {
    pub name: [u8; 28],
    pub inode_number: u32,
}

/// The length of the name held in `bytes`: the place of the first zero byte
/// among the first `limit` bytes, or `limit` if there is none.
pub open spec fn name_len(bytes: Seq<u8>, limit: int) -> int
    decreases limit,
{
    if limit <= 0 {
        0
    } else {
        let n = name_len(bytes, limit - 1);
        if n < limit - 1 || bytes[limit - 1] == 0 {
            n
        } else {
            limit
        }
    }
}

/// The name held in the 28 bytes `bytes`.
pub open spec fn name_of(bytes: Seq<u8>) -> Seq<u8> {
    bytes.subrange(0, name_len(bytes, 28))
}

/// The bytes of an entry on disk: the name field, then the inode number.
pub open spec fn dirent_bytes(name: Seq<u8>, inode_number: u32) -> Seq<u8> {
    name + u32_bytes(inode_number)
}

/// The name field that holds `name`: the name, then zero bytes.
pub open spec fn name_field(name: Seq<u8>) -> Seq<u8> {
    Seq::new(
        28,
        |i: int|
            if i < name.len() {
                name[i]
            } else {
                0u8
            },
    )
}

/// The length of a name is the place of the first zero byte.
pub proof fn lemma_name_len(bytes: Seq<u8>, limit: int)
    requires
        0 <= limit,
    ensures
        0 <= name_len(bytes, limit) <= limit,
        forall|i: int| 0 <= i < name_len(bytes, limit) ==> bytes[i] != 0,
        name_len(bytes, limit) < limit ==> bytes[name_len(bytes, limit)] == 0,
    decreases limit,
{
    if limit > 0 {
        lemma_name_len(bytes, limit - 1);
    }
}

/// A name without a zero byte is read back from the field that holds it.
pub proof fn lemma_name_field(name: Seq<u8>)
    requires
        name.len() <= 27,
        forall|i: int| 0 <= i < name.len() ==> name[i] != 0,
    ensures
        name_of(name_field(name)) == name,
{
    let f = name_field(name);
    lemma_name_len(f, 28);
    let n = name_len(f, 28);
    if n < name.len() {
        assert(f[n] == 0);
        assert(f[n] == name[n]);
    }
    if n > name.len() {
        assert(f[name.len() as int] != 0);
    }
    assert(name_of(f) =~= name);
}

impl DirEntry {
    /// An entry that names inode `inode_number` by `name`.
    pub fn new(name: &[u8], inode_number: u32) -> (r: Self)
        requires
            name@.len() <= 27,
        ensures
            r.name@ == name_field(name@),
            r.inode_number == inode_number,
    {
        let mut n = [0u8; 28];
        crate::codec::write_bytes(&mut n, 0, name);
        assert(n@ =~= name_field(name@));
        Self { name: n, inode_number }
    }

    /// An entry with an empty name for inode 0.
    pub fn empty() -> (r: Self)
        ensures
            r.name@ == name_field(Seq::<u8>::empty()),
            r.inode_number == 0,
    {
        let r = Self { name: [0u8; 28], inode_number: 0 };
        assert(r.name@ =~= name_field(Seq::<u8>::empty()));
        r
    }

    /// The 32 bytes of the entry as they stand on disk.
    pub fn as_bytes(&self) -> (r: [u8; 32])
        ensures
            r@ == dirent_bytes(self.name@, self.inode_number),
    {
        let mut buf = [0u8; 32];
        crate::codec::write_bytes(&mut buf, 0, self.name.as_slice());
        crate::codec::write_u32(&mut buf, 28, self.inode_number);
        assert(buf@ =~= dirent_bytes(self.name@, self.inode_number));
        buf
    }

    /// The entry that the 32 bytes `b` hold.
    pub fn from_bytes(b: &[u8; 32]) -> (r: Self)
        ensures
            r.name@ == b@.subrange(0, 28),
            r.inode_number == le_u32(b@, 28),
    {
        let mut name = [0u8; 28];
        crate::codec::write_bytes(&mut name, 0, vstd::slice::slice_subrange(b.as_slice(), 0, 28));
        assert(name@ =~= b@.subrange(0, 28));
        Self { name, inode_number: crate::codec::read_u32(b.as_slice(), 28) }
    }

    /// The name: the bytes before the first zero byte.
    pub fn name(&self) -> (r: Vec<u8>)
        ensures
            r@ == name_of(self.name@),
    {
        let mut len: usize = 0;
        while len < 28 && self.name[len] != 0
            invariant
                len <= 28,
                name_len(self.name@, len as int) == len,
            decreases 28 - len,
        {
            len += 1;
        }
        proof {
            lemma_name_rest(self.name@, len as int, 28);
        }
        vstd::slice::slice_to_vec(vstd::slice::slice_subrange(self.name.as_slice(), 0, len))
    }

    /// The number of the inode that the entry names.
    pub fn inode_number(&self) -> (r: u32)
        ensures
            r == self.inode_number,
    {
        self.inode_number
    }
}

/// Once a zero byte is found, or the bytes end, the length of the name is settled.
pub proof fn lemma_name_rest(bytes: Seq<u8>, len: int, limit: int)
    requires
        0 <= len <= limit,
        name_len(bytes, len) == len,
        len == limit || bytes[len] == 0,
    ensures
        name_len(bytes, limit) == len,
    decreases limit - len,
{
    if len < limit {
        lemma_name_rest(bytes, len, limit - 1);
    }
}

} // verus!
