use vstd::prelude::*;
use crate::codec::splice;
use crate::easy_fs::block_dev::BlockDevice;
use crate::easy_fs::efs::{inode_pos_of, EasyFileSystem};
use crate::easy_fs::layout::transfer_len;
use crate::easy_fs::vfs::{can_dealloc_from, can_grow, has_name, lookup, Inode};
use crate::mm::frame_allocator::FramePool;
use crate::mm::page_table::{lemma_slices_len_mono, lemma_slices_len_nonneg, slices_len, UserBuffer, UserSlice};
use crate::mm::Memory;

verus! {

/// Open for reading only.
pub const RDONLY: u32 = 0;

/// Open for writing only.
pub const WRONLY: u32 = 0x001;

/// Open for reading and writing.
pub const RDWR: u32 = 0x002;

/// Make the file if it is not there.
pub const CREATE: u32 = 0x200;

/// Empty the file when it is opened.
pub const TRUNC: u32 = 0x400;

/// The flags with which a file is opened.
#[derive(Copy, Clone, Debug, PartialEq, Eq, Structural)]
pub struct OpenFlags {
    pub bits: u32,
}

impl OpenFlags {
    /// The flags whose bits are set in `bits`; `None` where a bit is set that is no flag.
    pub fn from_bits(bits: u32) -> (r: Option<Self>)
        ensures
            r.is_some() == (bits & !0x603u32 == 0),
            r.is_some() ==> r.unwrap().bits == bits,
    {
        if bits & !0x603u32 == 0 {
            Some(Self { bits })
        } else {
            None
        }
    }

    /// Whether no flag is set.
    pub fn is_empty(&self) -> (r: bool)
        ensures
            r == (self.bits == 0),
    {
        self.bits == 0
    }

    /// Whether every flag of `other` is set.
    pub fn contains(&self, other: u32) -> (r: bool)
        ensures
            r == (self.bits & other == other),
    {
        self.bits & other == other
    }

    /// Whether the file can be read and whether it can be written: read
    /// only where no flag is set, written only where the flag for writing
    /// only is set, both else.
    pub fn read_write(&self) -> (r: (bool, bool))
        ensures
            r == if self.bits == 0 {
                (true, false)
            } else if self.bits & WRONLY == WRONLY {
                (false, true)
            } else {
                (true, true)
            },
    {
        if self.is_empty() {
            (true, false)
        } else if self.contains(WRONLY) {
            (false, true)
        } else {
            (true, true)
        }
    }
}

/// An open file: the file, the place in it at which the next read or
/// write begins, and whether it can be read and written.
#[derive(Copy, Clone, Debug, PartialEq, Eq, Structural)]
pub struct OSInode {
    pub readable: bool,
    pub writable: bool,
    pub offset: usize,
    pub inode: Inode,
}

/// The bytes that the pieces `slices` of a user buffer hold, one piece after the other.
pub open spec fn gather(mem: Memory, slices: Seq<UserSlice>) -> Seq<u8>
    decreases slices.len(),
{
    if slices.len() == 0 {
        Seq::<u8>::empty()
    } else {
        gather(mem, slices.drop_last()) + mem[slices.last().ppn.0].subrange(
            slices.last().start as int,
            slices.last().end as int,
        )
    }
}

/// The memory after the bytes `data` were stored in the pieces `slices`
/// of a user buffer, one piece after the other, as far as they go.
pub open spec fn scatter(mem: Memory, slices: Seq<UserSlice>, data: Seq<u8>) -> Memory
    decreases slices.len(),
{
    if slices.len() == 0 {
        mem
    } else {
        let before = slices_len(slices.drop_last());
        let m = scatter(mem, slices.drop_last(), data);
        let s = slices.last();
        if before >= data.len() {
            m
        } else {
            let n = if data.len() - before < s.end - s.start {
                data.len() - before
            } else {
                s.end - s.start
            };
            m.insert(s.ppn.0, splice(m[s.ppn.0], s.start as int, data.subrange(before, before + n)))
        }
    }
}

impl OSInode {
    /// An open file that stands at the beginning of the file `inode`.
    pub fn new(readable: bool, writable: bool, inode: Inode) -> (r: Self)
        ensures
            r.readable == readable,
            r.writable == writable,
            r.offset == 0,
            r.inode == inode,
    {
        Self { readable, writable, offset: 0, inode }
    }

    /// Reads the file from where the open file stands up to its end.
    pub fn read_all<D: BlockDevice>(&mut self, fs: &mut EasyFileSystem<D>) -> (v: Vec<u8>)
        requires
            old(fs).wf(),
            old(self).inode.block_offset + 128 <= 512,
            old(self).inode.node(old(fs).disk()).wf(),
        ensures
            final(fs).wf(),
            final(fs).disk() == old(fs).disk(),
            final(self).inode == old(self).inode,
            final(self).readable == old(self).readable,
            final(self).writable == old(self).writable,
            final(fs).inode_bitmap == old(fs).inode_bitmap,
            final(fs).data_bitmap == old(fs).data_bitmap,
            final(fs).inode_area_start_block == old(fs).inode_area_start_block,
            final(fs).data_area_start_block == old(fs).data_area_start_block,
            ({
                let node = old(self).inode.node(old(fs).disk());
                let n = transfer_len(node.size as int, old(self).offset as int, node.size as int);
                &&& v@ == node.bytes(old(fs).disk(), old(self).offset as int, n)
                &&& final(self).offset == old(self).offset + n
            }),
    {
        let ghost disk = fs.disk();
        let ghost node = self.inode.node(disk);
        let ghost start = self.offset as int;
        let mut v: Vec<u8> = Vec::new();
        loop
            invariant
                fs.wf(),
                fs.disk() == disk,
                fs.inode_bitmap == old(fs).inode_bitmap,
                fs.data_bitmap == old(fs).data_bitmap,
                fs.inode_area_start_block == old(fs).inode_area_start_block,
                fs.data_area_start_block == old(fs).data_area_start_block,
                self.inode == old(self).inode,
                self.readable == old(self).readable,
                self.writable == old(self).writable,
                node == self.inode.node(disk),
                node.wf(),
                self.inode.block_offset + 128 <= 512,
                start == old(self).offset,
                start <= self.offset,
                self.offset - start == v@.len(),
                v@.len() == transfer_len(node.size as int, start, v@.len() as int),
                v@ == node.bytes(disk, start, v@.len() as int),
            ensures
                v@.len() == transfer_len(node.size as int, start, node.size as int),
            decreases node.size - v@.len(),
        {
            let mut buffer = [0u8; 512];
            let read = self.inode.read_at(self.offset, &mut buffer, fs);
            if read == 0 {
                break;
            }
            let ghost before = v@;
            let mut i: usize = 0;
            while i < read
                invariant
                    i <= read <= 512,
                    v@ == before + buffer@.subrange(0, i as int),
                decreases read - i,
            {
                v.push(buffer[i]);
                assert(v@ =~= before + buffer@.subrange(0, i + 1));
                i += 1;
            }
            proof {
                let chunk = node.bytes(disk, self.offset as int, read as int);
                assert(buffer@.subrange(0, read as int) =~= chunk);
                assert(v@ =~= node.bytes(disk, start, before.len() + read));
            }
            self.offset += read;
        }
        v
    }
}

/// Pieces of a user buffer that lie after the end of the bytes to store stay as they are.
pub proof fn lemma_scatter_rest(mem: Memory, slices: Seq<UserSlice>, data: Seq<u8>, k: int)
    requires
        0 <= k <= slices.len(),
        forall|i: int| 0 <= i < slices.len() ==> (#[trigger] slices[i]).start < slices[i].end,
        slices_len(slices.subrange(0, k)) >= data.len(),
    ensures
        scatter(mem, slices, data) == scatter(mem, slices.subrange(0, k), data),
    decreases slices.len() - k,
{
    if k < slices.len() {
        let n = slices.len() as int;
        assert(slices.drop_last().subrange(0, k) =~= slices.subrange(0, k));
        lemma_scatter_rest(mem, slices.drop_last(), data, k);
        lemma_slices_len_mono(slices.drop_last(), k);
    } else {
        assert(slices.subrange(0, k) =~= slices);
    }
}

impl OSInode {
    /// Reads from where the open file stands into the user buffer
    /// `user_buf`, piece by piece, up to the end of the file or of the
    /// buffer, and returns the number of bytes read.
    pub fn read<D: BlockDevice>(&mut self, user_buf: &UserBuffer, fs: &mut EasyFileSystem<D>, pool: &mut FramePool) -> (total:
        usize)
        requires
            old(fs).wf(),
            old(pool).wf(),
            user_buf.wf(),
            forall|i: int|
                0 <= i < user_buf.buffers@.len() ==> old(pool).memory.has((#[trigger] user_buf.buffers@[i]).ppn.0),
            old(self).inode.block_offset + 128 <= 512,
            old(self).inode.node(old(fs).disk()).wf(),
        ensures
            final(fs).wf(),
            final(fs).disk() == old(fs).disk(),
            final(pool).wf(),
            final(pool).allocator == old(pool).allocator,
            final(pool).memory.base() == old(pool).memory.base(),
            final(pool).memory.count() == old(pool).memory.count(),
            final(self).inode == old(self).inode,
            final(self).readable == old(self).readable,
            final(self).writable == old(self).writable,
            ({
                let node = old(self).inode.node(old(fs).disk());
                let rest = transfer_len(node.size as int, old(self).offset as int, node.size as int);
                &&& total == transfer_len(
                    node.size as int,
                    old(self).offset as int,
                    slices_len(user_buf.buffers@),
                )
                &&& final(self).offset == old(self).offset + total
                &&& final(pool).mem() == scatter(
                    old(pool).mem(),
                    user_buf.buffers@,
                    node.bytes(old(fs).disk(), old(self).offset as int, rest),
                )
            }),
    {
        let ghost disk = fs.disk();
        let ghost node = self.inode.node(disk);
        let ghost start = self.offset as int;
        let ghost rest = transfer_len(node.size as int, start, node.size as int);
        let ghost data = node.bytes(disk, start, rest);
        let ghost mem0 = pool.mem();
        let ghost slices = user_buf.buffers@;
        let mut total_read_size: usize = 0;
        let n = user_buf.buffers.len();
        let mut k: usize = 0;
        proof {
            assert(slices.subrange(0, 0) =~= Seq::<UserSlice>::empty());
            assert(slices.subrange(0, n as int) =~= slices);
            lemma_slices_len_nonneg(slices);
        }
        while k < n
            invariant_except_break
                total_read_size == slices_len(slices.subrange(0, k as int)),
            invariant
                k <= n == slices.len(),
                slices.subrange(0, n as int) == slices,
                slices == user_buf.buffers@,
                user_buf.wf(),
                fs.wf(),
                fs.disk() == disk,
                pool.wf(),
                pool.allocator == old(pool).allocator,
                pool.memory.base() == old(pool).memory.base(),
                pool.memory.count() == old(pool).memory.count(),
                forall|i: int| 0 <= i < slices.len() ==> pool.memory.has((#[trigger] slices[i]).ppn.0),
                self.inode == old(self).inode,
                self.readable == old(self).readable,
                self.writable == old(self).writable,
                self.inode.block_offset + 128 <= 512,
                node == self.inode.node(disk),
                node.wf(),
                start == old(self).offset,
                rest == transfer_len(node.size as int, start, node.size as int),
                data == node.bytes(disk, start, rest),
                self.offset == start + total_read_size,
                total_read_size <= rest,
                pool.mem() == scatter(mem0, slices.subrange(0, k as int), data),
            ensures
                total_read_size == transfer_len(node.size as int, start, slices_len(slices)),
                pool.mem() == scatter(mem0, slices, data),
            decreases n - k,
        {
            let slice = user_buf.buffers[k];
            let len = slice.end - slice.start;
            let mut temp: Vec<u8> = Vec::new();
            let mut j: usize = 0;
            while j < len
                invariant
                    j <= len,
                    temp@.len() == j,
                decreases len - j,
            {
                temp.push(0u8);
                j += 1;
            }
            let read_size = self.inode.read_at(self.offset, temp.as_mut_slice(), fs);
            proof {
                lemma_slices_len_mono(slices, k as int);
                lemma_slices_len_mono(slices, k + 1);
                assert(slices.subrange(0, k + 1).drop_last() =~= slices.subrange(0, k as int));
            }
            if read_size == 0 {
                proof {
                    lemma_scatter_rest(mem0, slices, data, k as int);
                }
                break;
            }
            let chunk = vstd::slice::slice_subrange(temp.as_slice(), 0, read_size);
            pool.memory.write_bytes(slice.ppn.0, slice.start, chunk);
            proof {
                pool.memory.lemma_view();
                let want = node.bytes(disk, self.offset as int, read_size as int);
                assert(chunk@ =~= want);
                assert(want =~= data.subrange(total_read_size as int, total_read_size + read_size));
            }
            total_read_size += read_size;
            self.offset += read_size;
            k += 1;
            if read_size < len {
                proof {
                    lemma_scatter_rest(mem0, slices, data, k as int);
                    lemma_slices_len_mono(slices, k as int);
                }
                break;
            }
        }
        proof {
            if k == n {
                assert(slices.subrange(0, n as int) =~= slices);
            }
        }
        total_read_size
    }

    /// Collects the bytes of the user buffer `user_buf`, piece by piece.
    pub fn collect(user_buf: &UserBuffer, pool: &FramePool) -> (v: Vec<u8>)
        requires
            pool.memory.wf(),
            user_buf.wf(),
            forall|i: int|
                0 <= i < user_buf.buffers@.len() ==> pool.memory.has((#[trigger] user_buf.buffers@[i]).ppn.0),
        ensures
            v@ == gather(pool.mem(), user_buf.buffers@),
    {
        let ghost slices = user_buf.buffers@;
        let mut v: Vec<u8> = Vec::new();
        let mut k: usize = 0;
        proof {
            assert(slices.subrange(0, 0) =~= Seq::<UserSlice>::empty());
        }
        while k < user_buf.buffers.len()
            invariant
                k <= slices.len(),
                slices == user_buf.buffers@,
                user_buf.wf(),
                pool.memory.wf(),
                forall|i: int| 0 <= i < slices.len() ==> pool.memory.has((#[trigger] slices[i]).ppn.0),
                v@ == gather(pool.mem(), slices.subrange(0, k as int)),
            decreases slices.len() - k,
        {
            let slice = user_buf.buffers[k];
            let page = pool.memory.page(slice.ppn.0);
            let ghost before = v@;
            let mut j: usize = slice.start;
            while j < slice.end
                invariant
                    slice.start <= j <= slice.end <= 4096,
                    page@.len() == 4096,
                    v@ == before + page@.subrange(slice.start as int, j as int),
                decreases slice.end - j,
            {
                v.push(page[j]);
                assert(v@ =~= before + page@.subrange(slice.start as int, j + 1));
                j += 1;
            }
            proof {
                assert(slices.subrange(0, k + 1).drop_last() =~= slices.subrange(0, k as int));
                assert(slices.subrange(0, k + 1).last() == slice);
            }
            k += 1;
        }
        assert(slices.subrange(0, slices.len() as int) =~= slices);
        v
    }

    /// Writes the bytes of the user buffer `user_buf` to the file where the
    /// open file stands, and returns their number. The file grows where it must.
    pub fn write<D: BlockDevice>(&mut self, user_buf: &UserBuffer, fs: &mut EasyFileSystem<D>, pool: &FramePool) -> (total:
        usize)
        requires
            old(fs).wf(),
            pool.memory.wf(),
            user_buf.wf(),
            forall|i: int|
                0 <= i < user_buf.buffers@.len() ==> pool.memory.has((#[trigger] user_buf.buffers@[i]).ppn.0),
            old(self).inode.block_offset + 128 <= 512,
            old(self).inode.node(old(fs).disk()).wf(),
            old(self).offset + gather(pool.mem(), user_buf.buffers@).len() <= u32::MAX,
            can_grow(
                old(fs).data_bitmap,
                old(fs).data_area_start_block,
                old(self).inode.node(old(fs).disk()),
                old(fs).disk(),
                old(self).offset + gather(pool.mem(), user_buf.buffers@).len(),
            ),
        ensures
            final(fs).wf(),
            total == gather(pool.mem(), user_buf.buffers@).len(),
            final(self).offset == old(self).offset + total,
            final(self).inode == old(self).inode,
            final(self).readable == old(self).readable,
            final(self).writable == old(self).writable,
            final(fs).disk() == old(fs).after_write(
                old(self).inode,
                old(self).offset as int,
                gather(pool.mem(), user_buf.buffers@),
            ),
    {
        let data = Self::collect(user_buf, pool);
        let write_size = self.inode.write_at(self.offset, data.as_slice(), fs);
        self.offset += write_size;
        write_size
    }
}

/// Whether the file named `name` can be opened in the directory `root`
/// with the flags `flags`: a file that is to be emptied is in order and
/// its blocks can be given back, and a file that is to be made can be made.
pub open spec fn can_open<D: BlockDevice>(root: &Inode, name: Seq<u8>, flags: OpenFlags, fs: &EasyFileSystem<D>) -> bool {
    let dir = root.node(fs.disk());
    let disk = fs.disk();
    if has_name(dir, disk, name) {
        let id = lookup(dir, disk, name);
        let file = Inode {
            block_id: inode_pos_of(fs.inode_area_start_block as int, id as int).0 as usize,
            block_offset: inode_pos_of(fs.inode_area_start_block as int, id as int).1 as usize,
        };
        &&& fs.inode_area_start_block + (id + 3) / 4 <= u32::MAX
        &&& (flags.bits & CREATE == CREATE || flags.bits & TRUNC == TRUNC) ==> file.node(disk).wf()
            && can_dealloc_from(
            fs.data_bitmap,
            fs.data_area_start_block,
            file.node(disk).disk_cleared(disk),
            file.node(disk).freed_blocks(disk),
            0,
        )
    } else {
        flags.bits & CREATE == CREATE ==> fs.can_create(*root)
    }
}

/// Whether `r` and the file system `after` are what opening the file
/// named `name` in the directory `root` of the file system `fs` with the
/// flags `flags` gives.
pub open spec fn opens<D: BlockDevice>(
    root: &Inode,
    name: Seq<u8>,
    flags: OpenFlags,
    fs: &EasyFileSystem<D>,
    after: &EasyFileSystem<D>,
    r: Option<OSInode>,
) -> bool {
    let dir = root.node(fs.disk());
    let disk = fs.disk();
    let found = has_name(dir, disk, name);
    let create = flags.bits & CREATE == CREATE;
    let trunc = flags.bits & TRUNC == TRUNC;
    &&& r.is_some() == (found || create)
    &&& r.is_some() ==> {
        &&& r.unwrap().offset == 0
        &&& r.unwrap().readable == (flags.bits == 0 || flags.bits & WRONLY != WRONLY)
        &&& r.unwrap().writable == (flags.bits != 0)
    }
    &&& found ==> {
        let id = lookup(dir, disk, name);
        &&& r.unwrap().inode.block_id == inode_pos_of(fs.inode_area_start_block as int, id as int).0
        &&& r.unwrap().inode.block_offset == inode_pos_of(
            fs.inode_area_start_block as int,
            id as int,
        ).1
        &&& after.disk() == if create || trunc {
            fs.after_clear(r.unwrap().inode)
        } else {
            disk
        }
    }
    &&& !found && create ==> {
        &&& after.disk() == fs.after_create(*root, name)
        &&& r.unwrap().inode.block_id == inode_pos_of(
            fs.inode_area_start_block as int,
            fs.inode_bitmap.next_bit(disk),
        ).0
        &&& r.unwrap().inode.block_offset == inode_pos_of(
            fs.inode_area_start_block as int,
            fs.inode_bitmap.next_bit(disk),
        ).1
    }
    &&& !found && !create ==> after.disk() == disk
}

/// Opens the file named `name` in the directory `root`. With the flag
/// `CREATE`, a file that is there is emptied, and one that is not is made;
/// without it, a file that is not there is not opened, and one that is
/// there is emptied where the flag `TRUNC` is set.
#[verifier::spinoff_prover]
#[verifier::rlimit(50)]
pub fn open_file<D: BlockDevice>(root: &Inode, name: &[u8], flags: OpenFlags, fs: &mut EasyFileSystem<D>) -> (r:
    Option<OSInode>)
    requires
        old(fs).wf(),
        root.block_offset + 128 <= 512,
        root.node(old(fs).disk()).wf(),
        root.node(old(fs).disk()).is_dir,
        name@.len() <= 27,
        can_open(root, name@, flags, old(fs)),
    ensures
        final(fs).wf(),
        opens(root, name@, flags, old(fs), final(fs), r),
{
    let (readable, writable) = flags.read_write();
    if flags.contains(CREATE) {
        match root.find(name, fs) {
            Some(inode) => {
                inode.clear(fs);
                Some(OSInode::new(readable, writable, inode))
            },
            None => {
                match root.create(name, fs) {
                    Some(inode) => Some(OSInode::new(readable, writable, inode)),
                    None => None,
                }
            },
        }
    } else {
        match root.find(name, fs) {
            Some(inode) => {
                if flags.contains(TRUNC) {
                    inode.clear(fs);
                }
                Some(OSInode::new(readable, writable, inode))
            },
            None => None,
        }
    }
}

} // verus!
