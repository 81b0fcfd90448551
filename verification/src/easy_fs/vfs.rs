use vstd::prelude::*;
use crate::codec::{le_u32, splice};
use crate::easy_fs::bitmap::Bitmap;
use crate::easy_fs::block_dev::BlockDevice;
use crate::easy_fs::efs::{empty_file, inode_pos_of, EasyFileSystem};
use crate::easy_fs::layout::{
    data_blocks_of, dirent_bytes, grow, inode_at, lemma_grow_used, name_field, name_of, total_blocks_of,
    transfer_len, words_bytes, write_chunks, DirEntry, DiskInode, DiskInodeType, GrowState, InodeView,
    INDIRECT2_BOUND,
};
use crate::easy_fs::Disk;

verus! {

/// A file or a directory, known by the place of its inode on disk.
#[derive(Copy, Clone, Debug, PartialEq, Eq, Structural)]
pub struct Inode {
    pub block_id: usize,
    pub block_offset: usize,
}

/// The name of entry `i` of the directory `v`.
pub open spec fn entry_name(v: InodeView, disk: Disk, i: int) -> Seq<u8> {
    name_of(v.bytes(disk, 32 * i, 32).subrange(0, 28))
}

/// The inode number of entry `i` of the directory `v`.
pub open spec fn entry_inode(v: InodeView, disk: Disk, i: int) -> u32 {
    le_u32(v.bytes(disk, 32 * i, 32), 28)
}

/// Number of entries of the directory `v`.
pub open spec fn entry_count(v: InodeView) -> int {
    v.size as int / 32
}

/// Whether entry `i` is the first entry of the directory named `name`.
pub open spec fn is_first_named(v: InodeView, disk: Disk, name: Seq<u8>, i: int) -> bool {
    &&& 0 <= i < entry_count(v)
    &&& entry_name(v, disk, i) == name
    &&& forall|j: int| 0 <= j < i ==> #[trigger] entry_name(v, disk, j) != name
}

/// Whether the directory has an entry named `name`.
pub open spec fn has_name(v: InodeView, disk: Disk, name: Seq<u8>) -> bool {
    exists|i: int| is_first_named(v, disk, name, i)
}

/// The inode number under which the directory lists `name`.
pub open spec fn lookup(v: InodeView, disk: Disk, name: Seq<u8>) -> u32 {
    entry_inode(v, disk, choose|i: int| is_first_named(v, disk, name, i))
}

/// The first entry with a name is the only one that `is_first_named` accepts.
pub proof fn lemma_first_named_unique(v: InodeView, disk: Disk, name: Seq<u8>, i: int)
    requires
        is_first_named(v, disk, name, i),
    ensures
        has_name(v, disk, name),
        lookup(v, disk, name) == entry_inode(v, disk, i),
{
    let k = choose|k: int| is_first_named(v, disk, name, k);
    assert(is_first_named(v, disk, name, k));
    if k < i {
        assert(entry_name(v, disk, k) != name);
    }
    if i < k {
        assert(entry_name(v, disk, i) != name);
    }
}

/// The data blocks taken by `n` allocations in a row, and the disk after them.
pub open spec fn alloc_n(bm: Bitmap, start: u32, disk: Disk, n: int) -> (Seq<u32>, Disk)
    decreases n,
{
    if n <= 0 {
        (Seq::<u32>::empty(), disk)
    } else {
        let (bs, d) = alloc_n(bm, start, disk, n - 1);
        (bs.push((bm.next_bit(d) + start) as u32), bm.after_alloc(d))
    }
}

/// Whether `n` allocations in a row each find a free data block whose number fits.
pub open spec fn can_alloc_n(bm: Bitmap, start: u32, disk: Disk, n: int) -> bool
    decreases n,
{
    n <= 0 || {
        &&& can_alloc_n(bm, start, disk, n - 1)
        &&& bm.has_free(alloc_n(bm, start, disk, n - 1).1)
        &&& bm.next_bit(alloc_n(bm, start, disk, n - 1).1) + start <= u32::MAX
    }
}

/// The disk after the data blocks `blocks` from number `i` on were given back.
pub open spec fn dealloc_from(bm: Bitmap, start: u32, disk: Disk, blocks: Seq<u32>, i: int) -> Disk
    decreases blocks.len() - i,
{
    if i < 0 || i >= blocks.len() {
        disk
    } else {
        dealloc_from(bm, start, bm.after_dealloc(disk, blocks[i] - start), blocks, i + 1)
    }
}

/// Whether each of the data blocks `blocks` from number `i` on lies in the
/// data region and is taken when its turn to be given back comes.
pub open spec fn can_dealloc_from(bm: Bitmap, start: u32, disk: Disk, blocks: Seq<u32>, i: int) -> bool
    decreases blocks.len() - i,
{
    i < 0 || i >= blocks.len() || {
        &&& blocks[i] >= start
        &&& blocks[i] - start < bm.len() * 4096
        &&& bm.is_set(disk, blocks[i] - start)
        &&& can_dealloc_from(bm, start, bm.after_dealloc(disk, blocks[i] - start), blocks, i + 1)
    }
}

/// The inode `v` and the disk after the content was grown to `new_size`
/// bytes with data blocks taken from the bitmap; nothing changes where the
/// content is already larger.
pub open spec fn grown(bm: Bitmap, start: u32, v: InodeView, disk: Disk, new_size: int) -> GrowState {
    if new_size < v.size {
        GrowState { inode: v, disk, used: 0 }
    } else {
        let k = total_blocks_of(new_size) - total_blocks_of(v.size as int);
        let (bs, d1) = alloc_n(bm, start, disk, k);
        let st = grow(
            GrowState { inode: v, disk: d1, used: 0 },
            data_blocks_of(v.size as int),
            data_blocks_of(new_size),
            bs,
        );
        GrowState { inode: InodeView { size: new_size as u32, ..st.inode }, disk: st.disk, used: st.used }
    }
}

/// Whether the content of `v` can grow to `new_size` bytes.
pub open spec fn can_grow(bm: Bitmap, start: u32, v: InodeView, disk: Disk, new_size: int) -> bool {
    new_size < v.size || {
        &&& new_size <= u32::MAX
        &&& data_blocks_of(new_size) <= INDIRECT2_BOUND
        &&& can_alloc_n(bm, start, disk, total_blocks_of(new_size) - total_blocks_of(v.size as int))
    }
}

/// The disk with the inode `v` stored at `offset` of block `block_id`.
pub open spec fn with_inode(disk: Disk, block_id: usize, offset: int, v: InodeView) -> Disk {
    disk.insert(block_id, splice(disk[block_id], offset, words_bytes(v.words())))
}

/// Whether two byte strings are equal.
pub fn bytes_eq(a: &[u8], b: &[u8]) -> (r: bool)
    ensures
        r == (a@ == b@),
{
    if a.len() != b.len() {
        return false;
    }
    let mut i: usize = 0;
    while i < a.len()
        invariant
            i <= a@.len(),
            a@.len() == b@.len(),
            forall|j: int| 0 <= j < i ==> a@[j] == b@[j],
        decreases a@.len() - i,
    {
        if a[i] != b[i] {
            return false;
        }
        i += 1;
    }
    assert(a@ =~= b@);
    true
}

impl Inode {
    /// The inode on disk.
    pub open spec fn node(&self, disk: Disk) -> InodeView {
        inode_at(disk[self.block_id], self.block_offset as int)
    }

    /// The handle for the inode stored at `block_offset` of block `block_id`.
    pub fn new(block_id: u32, block_offset: usize) -> (r: Self)
        ensures
            r.block_id == block_id,
            r.block_offset == block_offset,
    {
        Self { block_id: block_id as usize, block_offset }
    }

    /// The inode number under which the directory `disk_inode` lists `name`.
    fn find_inode_id<D: BlockDevice>(name: &[u8], disk_inode: &DiskInode, fs: &mut EasyFileSystem<D>) -> (r:
        Option<u32>)
        requires
            old(fs).wf(),
            disk_inode@.wf(),
            disk_inode@.is_dir,
        ensures
            final(fs).wf(),
            final(fs).disk() == old(fs).disk(),
            final(fs).inode_bitmap == old(fs).inode_bitmap,
            final(fs).data_bitmap == old(fs).data_bitmap,
            final(fs).inode_area_start_block == old(fs).inode_area_start_block,
            final(fs).data_area_start_block == old(fs).data_area_start_block,
            r.is_some() == has_name(disk_inode@, old(fs).disk(), name@),
            r.is_some() ==> r.unwrap() == lookup(disk_inode@, old(fs).disk(), name@),
    {
        let ghost disk = fs.disk();
        let file_count = (disk_inode.size as usize) / 32;
        let mut i: usize = 0;
        while i < file_count
            invariant
                i <= file_count == entry_count(disk_inode@),
                fs.wf(),
                fs.disk() == disk,
                disk == old(fs).disk(),
                fs.inode_bitmap == old(fs).inode_bitmap,
                fs.data_bitmap == old(fs).data_bitmap,
                fs.inode_area_start_block == old(fs).inode_area_start_block,
                fs.data_area_start_block == old(fs).data_area_start_block,
                disk_inode@.wf(),
                forall|j: int| 0 <= j < i ==> #[trigger] entry_name(disk_inode@, disk, j) != name@,
            decreases file_count - i,
        {
            let mut buf = [0u8; 32];
            let n = disk_inode.read_at(i * 32, &mut buf, &mut fs.block_cache, &mut fs.block_device);
            assert(n == 32);
            assert(buf@ =~= disk_inode@.bytes(disk, 32 * i, 32));
            let dirent = DirEntry::from_bytes(&buf);
            let entry = dirent.name();
            if bytes_eq(entry.as_slice(), name) {
                proof {
                    lemma_first_named_unique(disk_inode@, disk, name@, i as int);
                }
                return Some(dirent.inode_number());
            }
            i += 1;
        }
        proof {
            if has_name(disk_inode@, disk, name@) {
                let k = choose|k: int| is_first_named(disk_inode@, disk, name@, k);
                assert(is_first_named(disk_inode@, disk, name@, k));
            }
        }
        None
    }

    /// The file that this directory lists under `name`, if there is one.
    pub fn find<D: BlockDevice>(&self, name: &[u8], fs: &mut EasyFileSystem<D>) -> (r: Option<Inode>)
        requires
            old(fs).wf(),
            self.block_offset + 128 <= 512,
            self.node(old(fs).disk()).wf(),
            self.node(old(fs).disk()).is_dir,
            has_name(self.node(old(fs).disk()), old(fs).disk(), name@) ==> old(fs).inode_area_start_block + (
            lookup(self.node(old(fs).disk()), old(fs).disk(), name@) + 3) / 4 <= u32::MAX,
        ensures
            final(fs).wf(),
            final(fs).disk() == old(fs).disk(),
            final(fs).inode_bitmap == old(fs).inode_bitmap,
            final(fs).data_bitmap == old(fs).data_bitmap,
            final(fs).inode_area_start_block == old(fs).inode_area_start_block,
            final(fs).data_area_start_block == old(fs).data_area_start_block,
            r.is_some() == has_name(self.node(old(fs).disk()), old(fs).disk(), name@),
            r.is_some() ==> r.unwrap().block_id == inode_pos_of(
                old(fs).inode_area_start_block as int,
                lookup(self.node(old(fs).disk()), old(fs).disk(), name@) as int,
            ).0 && r.unwrap().block_offset == inode_pos_of(
                old(fs).inode_area_start_block as int,
                lookup(self.node(old(fs).disk()), old(fs).disk(), name@) as int,
            ).1,
    {
        let disk_node = DiskInode::load(
            &mut fs.block_cache,
            &mut fs.block_device,
            self.block_id,
            self.block_offset,
        );
        match Self::find_inode_id(name, &disk_node, fs) {
            Some(inode_id) => {
                let (block_id, block_offset) = fs.get_disk_inode_pos(inode_id);
                Some(Self::new(block_id, block_offset))
            },
            None => None,
        }
    }

    /// The names that this directory lists, in the order of its entries.
    pub fn ls<D: BlockDevice>(&self, fs: &mut EasyFileSystem<D>) -> (v: Vec<Vec<u8>>)
        requires
            old(fs).wf(),
            self.block_offset + 128 <= 512,
            self.node(old(fs).disk()).wf(),
        ensures
            final(fs).wf(),
            final(fs).disk() == old(fs).disk(),
            final(fs).inode_bitmap == old(fs).inode_bitmap,
            final(fs).data_bitmap == old(fs).data_bitmap,
            final(fs).inode_area_start_block == old(fs).inode_area_start_block,
            final(fs).data_area_start_block == old(fs).data_area_start_block,
            v@.len() == entry_count(self.node(old(fs).disk())),
            forall|i: int|
                0 <= i < v@.len() ==> (#[trigger] v@[i])@ == entry_name(
                    self.node(old(fs).disk()),
                    old(fs).disk(),
                    i,
                ),
    {
        let ghost disk = fs.disk();
        let disk_inode = DiskInode::load(
            &mut fs.block_cache,
            &mut fs.block_device,
            self.block_id,
            self.block_offset,
        );
        let file_count = (disk_inode.size as usize) / 32;
        let mut v: Vec<Vec<u8>> = Vec::new();
        let mut i: usize = 0;
        while i < file_count
            invariant
                i <= file_count == entry_count(disk_inode@),
                fs.wf(),
                fs.disk() == disk,
                fs.inode_bitmap == old(fs).inode_bitmap,
                fs.data_bitmap == old(fs).data_bitmap,
                fs.inode_area_start_block == old(fs).inode_area_start_block,
                fs.data_area_start_block == old(fs).data_area_start_block,
                disk_inode@.wf(),
                v@.len() == i,
                forall|j: int| 0 <= j < i ==> (#[trigger] v@[j])@ == entry_name(disk_inode@, disk, j),
            decreases file_count - i,
        {
            let mut buf = [0u8; 32];
            let n = disk_inode.read_at(i * 32, &mut buf, &mut fs.block_cache, &mut fs.block_device);
            assert(buf@ =~= disk_inode@.bytes(disk, 32 * i, 32));
            let dirent = DirEntry::from_bytes(&buf);
            v.push(dirent.name());
            i += 1;
        }
        v
    }

    /// Reads the content from `offset` on into `buf` and returns the number of bytes read.
    pub fn read_at<D: BlockDevice>(&self, offset: usize, buf: &mut [u8], fs: &mut EasyFileSystem<D>) -> (n:
        usize)
        requires
            old(fs).wf(),
            self.block_offset + 128 <= 512,
            self.node(old(fs).disk()).wf(),
        ensures
            final(fs).wf(),
            final(fs).disk() == old(fs).disk(),
            final(fs).inode_bitmap == old(fs).inode_bitmap,
            final(fs).data_bitmap == old(fs).data_bitmap,
            final(fs).inode_area_start_block == old(fs).inode_area_start_block,
            final(fs).data_area_start_block == old(fs).data_area_start_block,
            n == transfer_len(
                self.node(old(fs).disk()).size as int,
                offset as int,
                old(buf)@.len() as int,
            ),
            final(buf)@ == splice(
                old(buf)@,
                0,
                self.node(old(fs).disk()).bytes(old(fs).disk(), offset as int, n as int),
            ),
    {
        let disk_node = DiskInode::load(
            &mut fs.block_cache,
            &mut fs.block_device,
            self.block_id,
            self.block_offset,
        );
        disk_node.read_at(offset, buf, &mut fs.block_cache, &mut fs.block_device)
    }

    /// Grows the content of `disk_inode` to `new_size` bytes, with data
    /// blocks taken from the file system; does nothing where the content is
    /// already larger.
    fn increase_size<D: BlockDevice>(new_size: u32, disk_inode: &mut DiskInode, fs: &mut EasyFileSystem<D>)
        requires
            old(fs).wf(),
            old(disk_inode)@.wf(),
            can_grow(
                old(fs).data_bitmap,
                old(fs).data_area_start_block,
                old(disk_inode)@,
                old(fs).disk(),
                new_size as int,
            ),
        ensures
            final(fs).wf(),
            final(fs).inode_bitmap == old(fs).inode_bitmap,
            final(fs).data_bitmap == old(fs).data_bitmap,
            final(fs).inode_area_start_block == old(fs).inode_area_start_block,
            final(fs).data_area_start_block == old(fs).data_area_start_block,
            final(disk_inode)@ == grown(
                old(fs).data_bitmap,
                old(fs).data_area_start_block,
                old(disk_inode)@,
                old(fs).disk(),
                new_size as int,
            ).inode,
            final(fs).disk() == grown(
                old(fs).data_bitmap,
                old(fs).data_area_start_block,
                old(disk_inode)@,
                old(fs).disk(),
                new_size as int,
            ).disk,
            final(disk_inode)@.wf(),
    {
        if new_size < disk_inode.size {
            return;
        }
        let ghost bm = fs.data_bitmap;
        let ghost start = fs.data_area_start_block;
        let ghost disk0 = fs.disk();
        let blocks_needed = disk_inode.blocks_num_needed(new_size);
        let mut v: Vec<u32> = Vec::new();
        let mut k: u32 = 0;
        while k < blocks_needed
            invariant
                k <= blocks_needed,
                fs.wf(),
                fs.inode_bitmap == old(fs).inode_bitmap,
                fs.data_bitmap == bm,
                fs.inode_area_start_block == old(fs).inode_area_start_block,
                fs.data_area_start_block == start,
                can_alloc_n(bm, start, disk0, blocks_needed as int),
                (v@, fs.disk()) == alloc_n(bm, start, disk0, k as int),
                v@.len() == k,
            decreases blocks_needed - k,
        {
            proof {
                lemma_can_alloc_prefix(bm, start, disk0, blocks_needed as int, k + 1);
            }
            let b = fs.alloc_data();
            v.push(b);
            k += 1;
        }
        proof {
            lemma_grow_used(
                GrowState { inode: disk_inode@, disk: fs.disk(), used: 0 },
                data_blocks_of(disk_inode.size as int),
                data_blocks_of(new_size as int),
                v@,
            );
        }
        disk_inode.increase_size(new_size, v, &mut fs.block_cache, &mut fs.block_device);
    }
}

impl<D: BlockDevice> EasyFileSystem<D> {
    /// The disk after a new, empty file took the next free inode.
    pub open spec fn with_new_file(&self) -> Disk {
        let id = self.inode_bitmap.next_bit(self.disk());
        let pos = inode_pos_of(self.inode_area_start_block as int, id);
        with_inode(self.inode_bitmap.after_alloc(self.disk()), pos.0 as usize, pos.1, empty_file())
    }

    /// Whether a file named `name` can be added to the directory `dir`: a
    /// free inode is left, its place can be addressed, and the directory can
    /// grow by one entry.
    pub open spec fn can_create(&self, dir: Inode) -> bool {
        let id = self.inode_bitmap.next_bit(self.disk());
        let d2 = self.with_new_file();
        let v2 = dir.node(d2);
        &&& self.inode_bitmap.has_free(self.disk())
        &&& id <= u32::MAX
        &&& self.inode_area_start_block + (id + 3) / 4 <= u32::MAX
        &&& v2.wf()
        &&& (entry_count(v2) + 1) * 32 <= u32::MAX
        &&& can_grow(self.data_bitmap, self.data_area_start_block, v2, d2, (entry_count(v2) + 1) * 32)
    }

    /// The disk after a file named `name` was added to the directory `dir`:
    /// the new inode is taken and made an empty file, the directory is grown
    /// by one entry, the entry is written at its end, and the directory's
    /// inode is stored.
    pub open spec fn after_create(&self, dir: Inode, name: Seq<u8>) -> Disk {
        let id = self.inode_bitmap.next_bit(self.disk());
        let d2 = self.with_new_file();
        let v2 = dir.node(d2);
        let at = entry_count(v2) * 32;
        let g = grown(self.data_bitmap, self.data_area_start_block, v2, d2, at + 32);
        let d4 = write_chunks(g.inode, g.disk, at, at + 32, dirent_bytes(name_field(name), id as u32), 0);
        with_inode(d4, dir.block_id, dir.block_offset as int, g.inode)
    }

    /// The disk after the file `file` was cleared: its blocks are given back
    /// and its inode is stored as empty.
    pub open spec fn after_clear(&self, file: Inode) -> Disk {
        let v = file.node(self.disk());
        let d1 = dealloc_from(
            self.data_bitmap,
            self.data_area_start_block,
            v.disk_cleared(self.disk()),
            v.freed_blocks(self.disk()),
            0,
        );
        with_inode(d1, file.block_id, file.block_offset as int, v.cleared())
    }

    /// The disk after `data` was written to the file `file` at `offset`: the
    /// content is grown where it must, the bytes are written, and the inode
    /// is stored.
    pub open spec fn after_write(&self, file: Inode, offset: int, data: Seq<u8>) -> Disk {
        let v = file.node(self.disk());
        let g = grown(self.data_bitmap, self.data_area_start_block, v, self.disk(), offset + data.len());
        let n = transfer_len(g.inode.size as int, offset, data.len() as int);
        let d2 = write_chunks(g.inode, g.disk, offset, offset + n, data, 0);
        with_inode(d2, file.block_id, file.block_offset as int, g.inode)
    }
}

impl Inode {
    /// Adds an empty file named `name` to this directory and returns it;
    /// `None`, and nothing changes, where the directory lists the name already.
    pub fn create<D: BlockDevice>(&self, name: &[u8], fs: &mut EasyFileSystem<D>) -> (r: Option<Inode>)
        requires
            old(fs).wf(),
            self.block_offset + 128 <= 512,
            self.node(old(fs).disk()).wf(),
            self.node(old(fs).disk()).is_dir,
            name@.len() <= 27,
            !has_name(self.node(old(fs).disk()), old(fs).disk(), name@) ==> old(fs).can_create(*self),
        ensures
            final(fs).wf(),
            r.is_none() == has_name(self.node(old(fs).disk()), old(fs).disk(), name@),
            r.is_none() ==> final(fs).disk() == old(fs).disk(),
            r.is_some() ==> {
                &&& final(fs).disk() == old(fs).after_create(*self, name@)
                &&& r.unwrap().block_id == inode_pos_of(
                    old(fs).inode_area_start_block as int,
                    old(fs).inode_bitmap.next_bit(old(fs).disk()),
                ).0
                &&& r.unwrap().block_offset == inode_pos_of(
                    old(fs).inode_area_start_block as int,
                    old(fs).inode_bitmap.next_bit(old(fs).disk()),
                ).1
            },
            final(fs).inode_bitmap == old(fs).inode_bitmap,
            final(fs).data_bitmap == old(fs).data_bitmap,
            final(fs).inode_area_start_block == old(fs).inode_area_start_block,
            final(fs).data_area_start_block == old(fs).data_area_start_block,
    {
        let dir = DiskInode::load(
            &mut fs.block_cache,
            &mut fs.block_device,
            self.block_id,
            self.block_offset,
        );
        if Self::find_inode_id(name, &dir, fs).is_some() {
            return None;
        }
        let new_node_id = fs.alloc_inode();
        let (new_inode_block_id, block_offset) = fs.get_disk_inode_pos(new_node_id);
        let mut node = DiskInode::empty();
        node.initialize(DiskInodeType::File);
        assert(node@ == empty_file());
        node.store(
            &mut fs.block_cache,
            &mut fs.block_device,
            new_inode_block_id as usize,
            block_offset,
        );
        assert(fs.disk() == old(fs).with_new_file());
        let mut inode = DiskInode::load(
            &mut fs.block_cache,
            &mut fs.block_device,
            self.block_id,
            self.block_offset,
        );
        let file_count = (inode.size as usize) / 32;
        let new_size = (file_count + 1) * 32;
        Self::increase_size(new_size as u32, &mut inode, fs);
        let dirent = DirEntry::new(name, new_node_id);
        let bytes = dirent.as_bytes();
        let n = inode.write_at(
            file_count * 32,
            bytes.as_slice(),
            &mut fs.block_cache,
            &mut fs.block_device,
        );
        assert(n == 32);
        inode.store(&mut fs.block_cache, &mut fs.block_device, self.block_id, self.block_offset);
        Some(Self::new(new_inode_block_id, block_offset))
    }

    /// Empties the file: its blocks are given back and its size becomes zero.
    pub fn clear<D: BlockDevice>(&self, fs: &mut EasyFileSystem<D>)
        requires
            old(fs).wf(),
            self.block_offset + 128 <= 512,
            self.node(old(fs).disk()).wf(),
            can_dealloc_from(
                old(fs).data_bitmap,
                old(fs).data_area_start_block,
                self.node(old(fs).disk()).disk_cleared(old(fs).disk()),
                self.node(old(fs).disk()).freed_blocks(old(fs).disk()),
                0,
            ),
        ensures
            final(fs).wf(),
            final(fs).disk() == old(fs).after_clear(*self),
            final(fs).inode_bitmap == old(fs).inode_bitmap,
            final(fs).data_bitmap == old(fs).data_bitmap,
            final(fs).inode_area_start_block == old(fs).inode_area_start_block,
            final(fs).data_area_start_block == old(fs).data_area_start_block,
    {
        let ghost bm = fs.data_bitmap;
        let ghost start = fs.data_area_start_block;
        let mut disk_node = DiskInode::load(
            &mut fs.block_cache,
            &mut fs.block_device,
            self.block_id,
            self.block_offset,
        );
        let data_blocks_dealloc = disk_node.clear_size(&mut fs.block_cache, &mut fs.block_device);
        let ghost d1 = fs.disk();
        let ghost blocks = data_blocks_dealloc@;
        let mut i: usize = 0;
        while i < data_blocks_dealloc.len()
            invariant
                i <= blocks.len(),
                blocks == data_blocks_dealloc@,
                fs.wf(),
                fs.inode_bitmap == old(fs).inode_bitmap,
                fs.data_bitmap == bm,
                fs.inode_area_start_block == old(fs).inode_area_start_block,
                fs.data_area_start_block == start,
                can_dealloc_from(bm, start, fs.disk(), blocks, i as int),
                dealloc_from(bm, start, fs.disk(), blocks, i as int) == dealloc_from(bm, start, d1, blocks, 0),
            decreases blocks.len() - i,
        {
            fs.dealloc_data(data_blocks_dealloc[i]);
            i += 1;
        }
        disk_node.store(&mut fs.block_cache, &mut fs.block_device, self.block_id, self.block_offset);
    }

    /// Writes `buf` to the content at `offset`, growing the content where it
    /// must, and returns the number of bytes written.
    pub fn write_at<D: BlockDevice>(&self, offset: usize, buf: &[u8], fs: &mut EasyFileSystem<D>) -> (n:
        usize)
        requires
            old(fs).wf(),
            self.block_offset + 128 <= 512,
            self.node(old(fs).disk()).wf(),
            offset + buf@.len() <= u32::MAX,
            can_grow(
                old(fs).data_bitmap,
                old(fs).data_area_start_block,
                self.node(old(fs).disk()),
                old(fs).disk(),
                offset + buf@.len(),
            ),
        ensures
            final(fs).wf(),
            n == buf@.len(),
            final(fs).disk() == old(fs).after_write(*self, offset as int, buf@),
            final(fs).inode_bitmap == old(fs).inode_bitmap,
            final(fs).data_bitmap == old(fs).data_bitmap,
            final(fs).inode_area_start_block == old(fs).inode_area_start_block,
            final(fs).data_area_start_block == old(fs).data_area_start_block,
    {
        let mut disk_inode = DiskInode::load(
            &mut fs.block_cache,
            &mut fs.block_device,
            self.block_id,
            self.block_offset,
        );
        Self::increase_size((offset + buf.len()) as u32, &mut disk_inode, fs);
        let n = disk_inode.write_at(offset, buf, &mut fs.block_cache, &mut fs.block_device);
        disk_inode.store(&mut fs.block_cache, &mut fs.block_device, self.block_id, self.block_offset);
        n
    }
}

/// Where `n` allocations in a row succeed, so do the first `k` of them.
pub proof fn lemma_can_alloc_prefix(bm: Bitmap, start: u32, disk: Disk, n: int, k: int)
    requires
        can_alloc_n(bm, start, disk, n),
        0 <= k <= n,
    ensures
        can_alloc_n(bm, start, disk, k),
    decreases n - k,
{
    if k < n {
        lemma_can_alloc_prefix(bm, start, disk, n, k + 1);
    }
}

} // verus!
