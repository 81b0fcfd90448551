use vstd::prelude::*;
use vstd::std_specs::bits::{axiom_u64_trailing_ones, u64_trailing_ones};
use crate::codec::{le_u32, le_u64, splice, lemma_le_u64_of_bytes};
use crate::easy_fs::bitmap::Bitmap;
use crate::easy_fs::block_cache::BlockCacheManager;
use crate::easy_fs::block_dev::BlockDevice;
use crate::easy_fs::layout::{
    inode_at, lemma_words_stored, words_bytes, DiskInode, DiskInodeType, InodeView, SuperBlock, EFS_MAGIC,
};
use crate::easy_fs::vfs::Inode;
use crate::easy_fs::Disk;

verus! {

/// A file system on a block device. The device holds five regions, one after
/// the other: the super block, the bitmap of inodes, the inodes, the bitmap
/// of data blocks, and the data blocks.
pub struct EasyFileSystem<D: BlockDevice> {
    pub block_device: D,
    pub block_cache: BlockCacheManager,
    pub inode_bitmap: Bitmap,
    pub data_bitmap: Bitmap,
    pub inode_area_start_block: u32,
    pub data_area_start_block: u32,
}

/// A block of zero bytes.
pub open spec fn zero_block() -> Seq<u8> {
    Seq::new(512, |i: int| 0u8)
}

/// The disk with its first `n` blocks filled with zero bytes.
pub open spec fn zeroed(disk: Disk, n: int) -> Disk {
    Map::new(
        |id: usize| true,
        |id: usize|
            if id < n {
                zero_block()
            } else {
                disk[id]
            },
    )
}

/// Number of blocks of the inode region for an inode bitmap of `inode_bitmap_blocks` blocks.
pub open spec fn inode_area_blocks_of(inode_bitmap_blocks: int) -> int {
    (inode_bitmap_blocks * 4096 * 128 + 511) / 512
}

/// Number of blocks of the data bitmap where bitmap and data blocks together
/// take `data_total_blocks` blocks.
pub open spec fn data_bitmap_blocks_of(data_total_blocks: int) -> int {
    (data_total_blocks + 4096) / 4097
}

/// The block and the offset in it at which inode `id` is stored, for an
/// inode region that begins at block `start`.
pub open spec fn inode_pos_of(start: int, id: int) -> (int, int) {
    (start + (id + 3) / 4, (id % 4) * 128)
}

/// The super block written when a device of `total_blocks` blocks is
/// formatted with an inode bitmap of `inode_bitmap_blocks` blocks.
pub open spec fn format_words(total_blocks: int, inode_bitmap_blocks: int) -> Seq<u32> {
    let inode_area = inode_area_blocks_of(inode_bitmap_blocks);
    let data_total = total_blocks - inode_bitmap_blocks - inode_area - 1;
    let data_bitmap = data_bitmap_blocks_of(data_total);
    seq![
        EFS_MAGIC,
        total_blocks as u32,
        inode_bitmap_blocks as u32,
        inode_area as u32,
        data_bitmap as u32,
        (data_total - data_bitmap) as u32,
    ]
}

/// An empty directory, as an inode.
pub open spec fn empty_dir() -> InodeView {
    InodeView { size: 0, direct: Seq::new(28, |k: int| 0u32), indirect1: 0, indirect2: 0, is_dir: true }
}

/// An empty file, as an inode.
pub open spec fn empty_file() -> InodeView {
    InodeView { size: 0, direct: Seq::new(28, |k: int| 0u32), indirect1: 0, indirect2: 0, is_dir: false }
}

/// The disk after it was formatted: every block of the file system is zero
/// but for the super block, the first bit of the inode bitmap, and the root
/// directory, which is inode 0.
pub open spec fn formatted(disk: Disk, total_blocks: int, inode_bitmap_blocks: int) -> Disk {
    let z = zeroed(disk, total_blocks);
    let d1 = z.insert(0, splice(z[0], 0, words_bytes(format_words(total_blocks, inode_bitmap_blocks))));
    let d2 = d1.insert(1, crate::codec::with_u64(d1[1], 0, 1));
    let root = (1 + inode_bitmap_blocks) as usize;
    d2.insert(root, splice(d2[root], 0, words_bytes(empty_dir().words())))
}

impl<D: BlockDevice> EasyFileSystem<D> {
    /// The disk as the file system sees it.
    pub open spec fn disk(&self) -> Disk {
        self.block_cache.disk(&self.block_device)
    }

    /// The cache is in order, and the regions lie within what a block number can address.
    pub open spec fn wf(&self) -> bool {
        &&& self.block_cache.ready(&self.block_device)
        &&& self.inode_bitmap.start() + self.inode_bitmap.len() <= usize::MAX
        &&& self.data_bitmap.start() + self.data_bitmap.len() <= usize::MAX
        &&& self.inode_bitmap.len() * 4096 <= usize::MAX
        &&& self.data_bitmap.len() * 4096 <= usize::MAX
    }

    /// Formats the device: a file system of `total_blocks` blocks with an
    /// inode bitmap of `inode_bitmap_blocks` blocks, and an empty root
    /// directory as inode 0.
    pub fn create(block_device: D, total_blocks: u32, inode_bitmap_blocks: u32) -> (efs: Self)
        requires
            1 <= inode_bitmap_blocks,
            1 + inode_bitmap_blocks + inode_area_blocks_of(inode_bitmap_blocks as int) <= total_blocks,
            inode_bitmap_blocks * 4096 <= usize::MAX,
            format_words(total_blocks as int, inode_bitmap_blocks as int)[4] * 4096 <= usize::MAX,
        ensures
            efs.wf(),
            efs.disk() == formatted(block_device.blocks(), total_blocks as int, inode_bitmap_blocks as int),
            efs.inode_bitmap.start() == 1,
            efs.inode_bitmap.len() == inode_bitmap_blocks,
            efs.data_bitmap.start() == 1 + inode_bitmap_blocks + inode_area_blocks_of(
                inode_bitmap_blocks as int,
            ),
            efs.data_bitmap.len() == format_words(total_blocks as int, inode_bitmap_blocks as int)[4],
            efs.inode_area_start_block == 1 + inode_bitmap_blocks,
            efs.data_area_start_block == efs.data_bitmap.start() + efs.data_bitmap.len(),
    {
        let ghost blocks0 = block_device.blocks();
        let inode_bitmap = Bitmap::new(1, inode_bitmap_blocks as usize);
        let inode_num = inode_bitmap_blocks as u64 * 4096;
        let inode_area_blocks = ((inode_num * 128 + 511) / 512) as u32;
        let inode_total_blocks = inode_bitmap_blocks + inode_area_blocks;
        let data_total_blocks = total_blocks - inode_total_blocks - 1;
        let data_bitmap_blocks = ((data_total_blocks as u64 + 4096) / 4097) as u32;
        let data_bitmap = Bitmap::new(
            (1 + inode_bitmap_blocks + inode_area_blocks) as usize,
            data_bitmap_blocks as usize,
        );
        let data_area_blocks = data_total_blocks - data_bitmap_blocks;
        let mut efs = Self {
            block_device,
            block_cache: BlockCacheManager::new(),
            inode_bitmap,
            data_bitmap,
            inode_area_start_block: 1 + inode_bitmap_blocks,
            data_area_start_block: 1 + inode_total_blocks + data_bitmap_blocks,
        };
        assert(efs.disk() =~= zeroed(blocks0, 0));
        assert(efs.wf());
        let zeros = [0u8; 512];
        let mut i: u32 = 0;
        while i < total_blocks
            invariant
                i <= total_blocks,
                efs.wf(),
                efs.disk() == zeroed(blocks0, i as int),
                zeros@ == zero_block(),
                efs.inode_bitmap.start() == 1,
                efs.inode_bitmap.len() == inode_bitmap_blocks,
                efs.data_bitmap.start() == 1 + inode_bitmap_blocks + inode_area_blocks,
                efs.data_bitmap.len() == data_bitmap_blocks,
                efs.inode_area_start_block == 1 + inode_bitmap_blocks,
                efs.data_area_start_block == 1 + inode_total_blocks + data_bitmap_blocks,
            decreases total_blocks - i,
        {
            let ghost d = efs.disk();
            // the block is read before it is overwritten, so its length is known
            let _ = efs.block_cache.read_u8(&mut efs.block_device, i as usize, 0);
            efs.block_cache.write_bytes(&mut efs.block_device, i as usize, 0, zeros.as_slice());
            assert(splice(d[i as usize], 0, zeros@) =~= zero_block());
            i += 1;
            assert(efs.disk() =~= zeroed(blocks0, i as int));
        }
        let ghost z = efs.disk();
        let mut sb = SuperBlock::empty();
        sb.initialize(
            total_blocks,
            inode_bitmap_blocks,
            inode_area_blocks,
            data_bitmap_blocks,
            data_area_blocks,
        );
        assert(sb.words() =~= format_words(total_blocks as int, inode_bitmap_blocks as int));
        sb.store(&mut efs.block_cache, &mut efs.block_device);
        let ghost d1 = efs.disk();
        proof {
            assert(d1[1] == zero_block());
            assert(crate::codec::le_u64(zero_block(), 0) == 0) by {
                lemma_zero_word(0);
            }
            assert(efs.inode_bitmap.word_at(d1, 0) == 0);
            efs.inode_bitmap.lemma_first_free_unique(d1, 0);
            axiom_u64_trailing_ones(0u64);
            assert(u64_trailing_ones(0u64) == 0) by {
                if u64_trailing_ones(0u64) != 0 {
                    assert((0u64 >> 0u64) & 1u64 == 0u64) by (bit_vector);
                }
            }
            assert(0u64 | (1u64 << 0u64) == 1u64) by (bit_vector);
        }
        let root = efs.alloc_inode();
        assert(root == 0);
        let (root_inode_block_id, root_inode_offset) = efs.get_disk_inode_pos(0);
        let mut node = DiskInode::empty();
        node.initialize(DiskInodeType::Directory);
        assert(node@ == empty_dir());
        node.store(
            &mut efs.block_cache,
            &mut efs.block_device,
            root_inode_block_id as usize,
            root_inode_offset,
        );
        efs
    }

    /// Takes a free inode and returns its number.
    pub fn alloc_inode(&mut self) -> (r: u32)
        requires
            old(self).wf(),
            old(self).inode_bitmap.has_free(old(self).disk()),
            old(self).inode_bitmap.next_bit(old(self).disk()) <= u32::MAX,
        ensures
            final(self).wf(),
            r == old(self).inode_bitmap.next_bit(old(self).disk()),
            final(self).disk() == old(self).inode_bitmap.after_alloc(old(self).disk()),
            final(self).inode_bitmap == old(self).inode_bitmap,
            final(self).data_bitmap == old(self).data_bitmap,
            final(self).inode_area_start_block == old(self).inode_area_start_block,
            final(self).data_area_start_block == old(self).data_area_start_block,
    {
        proof {
            let disk = self.disk();
            let p = self.inode_bitmap.first_free(disk);
            assert(self.inode_bitmap.is_first_free(disk, p));
            axiom_u64_trailing_ones(self.inode_bitmap.word_at(disk, p));
        }
        let r = self.inode_bitmap.allocate(&mut self.block_cache, &mut self.block_device);
        r.unwrap() as u32
    }

    /// Takes a free data block and returns its block number.
    pub fn alloc_data(&mut self) -> (r: u32)
        requires
            old(self).wf(),
            old(self).data_bitmap.has_free(old(self).disk()),
            old(self).data_bitmap.next_bit(old(self).disk()) + old(self).data_area_start_block
                <= u32::MAX,
        ensures
            final(self).wf(),
            r == old(self).data_bitmap.next_bit(old(self).disk()) + old(self).data_area_start_block,
            final(self).disk() == old(self).data_bitmap.after_alloc(old(self).disk()),
            final(self).inode_bitmap == old(self).inode_bitmap,
            final(self).data_bitmap == old(self).data_bitmap,
            final(self).inode_area_start_block == old(self).inode_area_start_block,
            final(self).data_area_start_block == old(self).data_area_start_block,
    {
        proof {
            let disk = self.disk();
            let p = self.data_bitmap.first_free(disk);
            assert(self.data_bitmap.is_first_free(disk, p));
            axiom_u64_trailing_ones(self.data_bitmap.word_at(disk, p));
        }
        let r = self.data_bitmap.allocate(&mut self.block_cache, &mut self.block_device);
        r.unwrap() as u32 + self.data_area_start_block
    }

    /// Gives the data block `block_id` back.
    pub fn dealloc_data(&mut self, block_id: u32)
        requires
            old(self).wf(),
            block_id >= old(self).data_area_start_block,
            block_id - old(self).data_area_start_block < old(self).data_bitmap.len() * 4096,
            old(self).data_bitmap.is_set(
                old(self).disk(),
                block_id - old(self).data_area_start_block,
            ),
        ensures
            final(self).wf(),
            final(self).disk() == old(self).data_bitmap.after_dealloc(
                old(self).disk(),
                block_id - old(self).data_area_start_block,
            ),
            final(self).inode_bitmap == old(self).inode_bitmap,
            final(self).data_bitmap == old(self).data_bitmap,
            final(self).inode_area_start_block == old(self).inode_area_start_block,
            final(self).data_area_start_block == old(self).data_area_start_block,
    {
        let index = block_id - self.data_area_start_block;
        self.data_bitmap.dealloc(&mut self.block_cache, &mut self.block_device, index as usize);
    }

    /// The block and the offset in it at which inode `id` is stored.
    pub fn get_disk_inode_pos(&self, id: u32) -> (r: (u32, usize))
        requires
            self.inode_area_start_block + (id + 3) / 4 <= u32::MAX,
        ensures
            r.0 == inode_pos_of(self.inode_area_start_block as int, id as int).0,
            r.1 == inode_pos_of(self.inode_area_start_block as int, id as int).1,
            r.1 + 128 <= 512,
    {
        let inodes_per_block: u32 = 4;
        let block_id = self.inode_area_start_block + (id / 4 + if id % 4 == 0 {
            0
        } else {
            1
        });
        (block_id, (id % inodes_per_block) as usize * 128)
    }
}

/// The six numbers at the start of the bytes `b`.
pub open spec fn superblock_at(b: Seq<u8>) -> Seq<u32> {
    Seq::new(6, |k: int| le_u32(b, 4 * k))
}

/// Whether the block `b` is the first block of a file system whose regions
/// can be addressed.
pub open spec fn superblock_ok(b: Seq<u8>) -> bool {
    let w = superblock_at(b);
    &&& w[0] == EFS_MAGIC
    &&& 1 + w[2] + w[3] + w[4] <= u32::MAX
    &&& w[2] * 4096 <= usize::MAX
    &&& w[4] * 4096 <= usize::MAX
}

impl<D: BlockDevice> EasyFileSystem<D> {
    /// Opens the file system that the device holds. The first block must
    /// carry the mark of a file system.
    pub fn open(block_device: D) -> (efs: Self)
        requires
            superblock_ok(block_device.blocks()[0]),
        ensures
            efs.wf(),
            forall|id: usize| #[trigger] efs.disk()[id] == block_device.blocks()[id],
            efs.inode_bitmap.start() == 1,
            efs.inode_bitmap.len() == superblock_at(block_device.blocks()[0])[2],
            efs.data_bitmap.start() == 1 + superblock_at(block_device.blocks()[0])[2] + superblock_at(
                block_device.blocks()[0],
            )[3],
            efs.data_bitmap.len() == superblock_at(block_device.blocks()[0])[4],
            efs.inode_area_start_block == 1 + superblock_at(block_device.blocks()[0])[2],
            efs.data_area_start_block == efs.data_bitmap.start() + efs.data_bitmap.len(),
    {
        let ghost blocks0 = block_device.blocks();
        let mut block_device = block_device;
        let mut block_cache = BlockCacheManager::new();
        assert(block_cache.disk(&block_device) =~= zeroed(blocks0, 0));
        let sb = SuperBlock::load(&mut block_cache, &mut block_device);
        proof {
            let w = superblock_at(blocks0[0]);
            assert(sb.words()[0] == w[0]);
            assert(sb.words()[2] == w[2]);
            assert(sb.words()[3] == w[3]);
            assert(sb.words()[4] == w[4]);
        }
        let inode_total_blocks = sb.inode_bitmap_blocks + sb.inode_area_blocks;
        Self {
            block_device,
            block_cache,
            inode_bitmap: Bitmap::new(1, sb.inode_bitmap_blocks as usize),
            data_bitmap: Bitmap::new((1 + inode_total_blocks) as usize, sb.data_bitmap_blocks as usize),
            inode_area_start_block: 1 + sb.inode_bitmap_blocks,
            data_area_start_block: 1 + inode_total_blocks + sb.data_bitmap_blocks,
        }
    }

    /// The root directory: inode 0.
    pub fn root_inode(efs: &Self) -> (r: Inode)
        ensures
            r.block_id == inode_pos_of(efs.inode_area_start_block as int, 0).0,
            r.block_offset == 0,
    {
        let (block_id, block_offset) = efs.get_disk_inode_pos(0);
        Inode::new(block_id, block_offset)
    }
}

/// A block of zero bytes holds the number zero everywhere.
pub proof fn lemma_zero_word(off: int)
    requires
        0 <= off,
        off + 8 <= 512,
    ensures
        le_u64(zero_block(), off) == 0,
{
    assert(crate::codec::u64_bytes(0u64) =~= seq![0u8, 0u8, 0u8, 0u8, 0u8, 0u8, 0u8, 0u8]) by {
        assert((0u64 & 0xff) as u8 == 0u8 && ((0u64 >> 8) & 0xff) as u8 == 0u8 && ((0u64 >> 16) & 0xff) as u8
            == 0u8 && ((0u64 >> 24) & 0xff) as u8 == 0u8 && ((0u64 >> 32) & 0xff) as u8 == 0u8 && ((0u64
            >> 40) & 0xff) as u8 == 0u8 && ((0u64 >> 48) & 0xff) as u8 == 0u8 && ((0u64 >> 56) & 0xff) as u8
            == 0u8) by (bit_vector);
    }
    lemma_le_u64_of_bytes(zero_block(), off, 0u64);
}


/// On a device that was just formatted, before anything is allocated, the
/// first inode that is handed out is inode 0, and inode 0 is stored at the
/// beginning of the inode region.
pub proof fn lemma_first_inode(bitmap: Bitmap, disk: Disk, inode_area_start: int)
    requires
        bitmap.len() >= 1,
        disk[bitmap.start()] == zero_block(),
    ensures
        bitmap.has_free(disk),
        bitmap.next_bit(disk) == 0,
        inode_pos_of(inode_area_start, 0) == (inode_area_start, 0int),
{
    lemma_zero_word(0);
    assert(bitmap.word_at(disk, 0) == 0);
    bitmap.lemma_first_free_unique(disk, 0);
    axiom_u64_trailing_ones(0u64);
    assert(u64_trailing_ones(0u64) == 0) by {
        if u64_trailing_ones(0u64) != 0 {
            assert((0u64 >> 0u64) & 1u64 == 0u64) by (bit_vector);
        }
    }
}

} // verus!
