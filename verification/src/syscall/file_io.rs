use vstd::prelude::*;
use crate::codec::splice;
use crate::easy_fs::block_dev::BlockDevice;
use crate::easy_fs::layout::transfer_len;
use crate::easy_fs::vfs::can_grow;
use crate::fs::inode::{gather, scatter, OSInode};
use crate::fs::pipe::{moved, Pipe, PipeStep};
use crate::fs::FileDescriptor;
use crate::kernel::Kernel;
use crate::mm::frame_allocator::FramePool;
use crate::mm::page_table::{
    lemma_slices_len_mono,
    lemma_slices_len_nonneg,
    slices_len,
    translated_byte_buffer,
    user_slices,
    UserBuffer,
    UserSlice,
};

verus! {

/// What a system call on a file came to, and what is left to do outside.
#[derive(Debug, PartialEq, Eq)]
pub enum FileStep {
    /// The call is over and returns this value.
    Done(isize),
    /// The task has to give up the processor and go on later with the same
    /// call; so many bytes were moved so far.
    Wait(usize),
    /// These bytes are to be written to the console; the call then returns their number.
    Print(Vec<u8>),
    /// A character is to be read from the console and handed to `finish_console_read`.
    ReadChar,
}

/// Stores the bytes `data` in the pieces of the user buffer `user_buf`,
/// one piece after the other, as far as they go.
pub fn store(user_buf: &UserBuffer, data: &[u8], pool: &mut FramePool)
    requires
        old(pool).wf(),
        user_buf.wf(),
        forall|i: int| 0 <= i < user_buf.buffers@.len() ==> old(pool).memory.has((#[trigger] user_buf.buffers@[i]).ppn.0),
    ensures
        final(pool).wf(),
        final(pool).allocator == old(pool).allocator,
        final(pool).memory.base() == old(pool).memory.base(),
        final(pool).memory.count() == old(pool).memory.count(),
        final(pool).mem() == scatter(old(pool).mem(), user_buf.buffers@, data@),
{
    let ghost mem0 = pool.mem();
    let ghost slices = user_buf.buffers@;
    let n = user_buf.buffers.len();
    let total = data.len();
    let mut done: usize = 0;
    let mut k: usize = 0;
    proof {
        assert(slices.subrange(0, 0) =~= Seq::<UserSlice>::empty());
    }
    while k < n
        invariant
            k <= n == slices.len(),
            slices == user_buf.buffers@,
            user_buf.wf(),
            total == data@.len(),
            pool.wf(),
            pool.allocator == old(pool).allocator,
            pool.memory.base() == old(pool).memory.base(),
            pool.memory.count() == old(pool).memory.count(),
            forall|i: int| 0 <= i < slices.len() ==> pool.memory.has((#[trigger] slices[i]).ppn.0),
            done <= total,
            done == if slices_len(slices.subrange(0, k as int)) < total {
                slices_len(slices.subrange(0, k as int))
            } else {
                total as int
            },
            pool.mem() == scatter(mem0, slices.subrange(0, k as int), data@),
        decreases n - k,
    {
        let slice = user_buf.buffers[k];
        let len = slice.end - slice.start;
        proof {
            assert(slices.subrange(0, k + 1).drop_last() =~= slices.subrange(0, k as int));
            assert(slices.subrange(0, k + 1).last() == slice);
            lemma_slices_len_nonneg(slices.subrange(0, k as int));
            pool.memory.lemma_view();
        }
        if done < total {
            let count = if total - done < len {
                total - done
            } else {
                len
            };
            let chunk = vstd::slice::slice_subrange(data, done, done + count);
            pool.memory.write_bytes(slice.ppn.0, slice.start, chunk);
            proof {
                pool.memory.lemma_view();
                assert(chunk@ =~= data@.subrange(done as int, done + count));
            }
            done += count;
        }
        k += 1;
    }
    proof {
        assert(slices.subrange(0, n as int) =~= slices);
    }
}

/// Storing bytes in the pieces of a user buffer leaves every page that
/// holds none of the pieces as it is.
pub proof fn lemma_scatter_frame(mem: crate::mm::Memory, slices: Seq<UserSlice>, data: Seq<u8>, p: u64)
    requires
        forall|k: int| 0 <= k < slices.len() ==> (#[trigger] slices[k]).ppn.0 != p,
    ensures
        scatter(mem, slices, data)[p] == mem[p],
    decreases slices.len(),
{
    if slices.len() > 0 {
        assert forall|k: int| 0 <= k < slices.drop_last().len() implies (#[trigger] slices.drop_last()[k]).ppn.0 != p by {
            assert(slices.drop_last()[k] == slices[k]);
        }
        lemma_scatter_frame(mem, slices.drop_last(), data, p);
        assert(slices.last() == slices[slices.len() - 1]);
    }
}

impl<D: BlockDevice> Kernel<D> {
    /// Whether the byte at the address `ptr` of the running task, if it
    /// is mapped, lies in a page of an area of the task.
    pub open spec fn place_in_area(&self, ptr: u64) -> bool {
        match crate::mm::page_table::user_place(self.pool.mem(), self.user_root(), ptr) {
            Some((p, o)) => self.tasks.tasks@[self.cur()].inner.memory_set.owns_data(p),
            None => true,
        }
    }

    /// Whether the buffer of `len` bytes at the address `buf` of the
    /// running task, if it is mapped, lies in pages of areas of the task.
    pub open spec fn buffer_in_area(&self, buf: u64, len: u64) -> bool {
        match self.user_buffer(buf, len) {
            Some(slices) => forall|k: int|
                0 <= k < slices.len() ==> self.tasks.tasks@[self.cur()].inner.memory_set.owns_data(
                    (#[trigger] slices[k]).ppn.0,
                ),
            None => true,
        }
    }

    /// The file behind the descriptor `fd` of the running task, if it is open.
    pub open spec fn descriptor(&self, fd: usize) -> Option<FileDescriptor> {
        let table = self.tasks.tasks@[self.cur()].inner.fd_table@;
        if fd < table.len() {
            table[fd as int]
        } else {
            None
        }
    }

    /// The page number of the root of the page table of the running task.
    pub open spec fn user_root(&self) -> u64 {
        ((8u64 << 60) | self.tasks.tasks@[self.cur()].inner.memory_set.page_table.root_ppn.0) & 0xfff_ffff_ffff
    }

    /// The pieces of the buffer of `len` bytes at the address `buf` of the
    /// running task, if all of it is mapped.
    pub open spec fn user_buffer(&self, buf: u64, len: u64) -> Option<Seq<UserSlice>> {
        if buf + len > u64::MAX {
            None
        } else {
            user_slices(self.pool.mem(), self.user_root(), buf as int, buf + len)
        }
    }

    /// Whether this kernel is `other` but for the memory, the pipes, the
    /// open files and the file system.
    pub open spec fn same_tasks(&self, other: &Self) -> bool {
        &&& self.env == other.env
        &&& self.kernel_space == other.kernel_space
        &&& self.pid_allocator == other.pid_allocator
        &&& self.tasks == other.tasks
        &&& self.manager == other.manager
        &&& self.processor == other.processor
        &&& self.initproc == other.initproc
        &&& self.root == other.root
        &&& self.pool.allocator == other.pool.allocator
        &&& self.pool.memory.base() == other.pool.memory.base()
        &&& self.pool.memory.count() == other.pool.memory.count()
    }

    /// Each pipe is in order.
    pub open spec fn pipes_wf(&self) -> bool {
        forall|id: int| 0 <= id < self.pipes@.len() ==> (#[trigger] self.pipes@[id]).wf() && self.pipes@[id].write_end.is_some()
    }

    /// The file system is in order, and the inode of the open file `idx` is in order.
    pub open spec fn file_ok(&self, idx: int) -> bool {
        &&& self.fs.wf()
        &&& self.files@[idx].inode.block_offset + 128 <= 512
        &&& self.files@[idx].inode.node(self.fs.disk()).wf()
    }

    /// The open file `idx` can take `n` more bytes where it stands.
    pub open spec fn can_write_file(&self, idx: int, n: int) -> bool {
        &&& self.files@[idx].offset + n <= u32::MAX
        &&& can_grow(
            self.fs.data_bitmap,
            self.fs.data_area_start_block,
            self.files@[idx].inode.node(self.fs.disk()),
            self.fs.disk(),
            self.files@[idx].offset + n,
        )
    }
}

/// Moves bytes of `data`, of which `done` are written already, into pipe `id`.
pub fn write_pipe<D: BlockDevice>(kernel: &mut Kernel<D>, id: usize, data: &[u8], done: usize) -> (r: FileStep)
    requires
        old(kernel).pipes_wf(),
        id < old(kernel).pipes@.len(),
        done <= data@.len() <= isize::MAX,
    ensures
        final(kernel).same_tasks(old(kernel)),
        old(kernel).mem_ok() ==> final(kernel).mem_ok(),
        old(kernel).family_ok() ==> final(kernel).family_ok(),
        old(kernel).stacks_ok() ==> final(kernel).stacks_ok(),
        final(kernel).pool == old(kernel).pool,
        final(kernel).files == old(kernel).files,
        final(kernel).fs == old(kernel).fs,
        final(kernel).pipes_wf(),
        final(kernel).pipes@.len() == old(kernel).pipes@.len(),
        forall|j: int| 0 <= j < old(kernel).pipes@.len() && j != id ==> final(kernel).pipes@[j] == old(kernel).pipes@[j],
        ({
            let ring = old(kernel).pipes@[id as int];
            let room = 32 - ring.content().len();
            let n = moved(room, data@.len() - done);
            &&& final(kernel).pipes@[id as int].content() == ring.content() + data@.subrange(done as int, done + n)
            &&& final(kernel).pipes@[id as int].write_end == ring.write_end
            &&& r == if room > data@.len() - done {
                FileStep::Done((done + n) as isize)
            } else {
                FileStep::Wait((done + n) as usize)
            }
        }),
{
    let end = Pipe::write_end_with_buffer(id);
    let ring = &mut kernel.pipes[id];
    let step = end.write(ring, data, done);
    proof {
        if old(kernel).mem_ok() {
            crate::kernel::lemma_mem_kept(old(kernel), kernel);
        }
        crate::kernel::lemma_family_same(old(kernel), kernel);
        if old(kernel).stacks_ok() {
            crate::kernel_stacks::lemma_stacks_kept(old(kernel), kernel);
        }
    }
    match step {
        PipeStep::Done(n) => FileStep::Done(n as isize),
        PipeStep::Wait(n) => FileStep::Wait(n),
    }
}

/// Moves bytes from pipe `id` into the user buffer `user_buf` of `want`
/// bytes, of which `done` are read already.
pub fn read_pipe<D: BlockDevice>(kernel: &mut Kernel<D>, id: usize, user_buf: &UserBuffer, want: usize, done: usize) -> (r:
    FileStep)
    requires
        old(kernel).pipes_wf(),
        old(kernel).pool.wf(),
        id < old(kernel).pipes@.len(),
        done <= want <= isize::MAX,
        user_buf.wf(),
        forall|i: int|
            0 <= i < user_buf.buffers@.len() ==> old(kernel).pool.memory.has((#[trigger] user_buf.buffers@[i]).ppn.0),
    ensures
        final(kernel).same_tasks(old(kernel)),
        forall|p: u64|
            (forall|k: int| 0 <= k < user_buf.buffers@.len() ==> (#[trigger] user_buf.buffers@[k]).ppn.0 != p)
                ==> #[trigger] final(kernel).pool.mem()[p] == old(kernel).pool.mem()[p],
        final(kernel).pool.wf(),
        final(kernel).files == old(kernel).files,
        final(kernel).fs == old(kernel).fs,
        final(kernel).pipes_wf(),
        final(kernel).pipes@.len() == old(kernel).pipes@.len(),
        forall|j: int| 0 <= j < old(kernel).pipes@.len() && j != id ==> final(kernel).pipes@[j] == old(kernel).pipes@[j],
        ({
            let ring = old(kernel).pipes@[id as int];
            let avail = ring.content().len() as int;
            let n = moved(avail, want - done);
            &&& final(kernel).pipes@[id as int].content() == ring.content().subrange(n, avail)
            &&& final(kernel).pipes@[id as int].write_end == ring.write_end
            &&& final(kernel).pool.mem() == scatter(old(kernel).pool.mem(), user_buf.buffers@, ring.content().subrange(0, n))
            &&& r == if avail == 0 {
                if ring.write_end == Some(0usize) {
                    FileStep::Done(done as isize)
                } else {
                    FileStep::Wait(done)
                }
            } else if avail > want - done || ring.write_end == Some(0usize) {
                FileStep::Done((done + n) as isize)
            } else {
                FileStep::Wait((done + n) as usize)
            }
        }),
{
    let end = Pipe::read_end_with_buffer(id);
    let ring = &mut kernel.pipes[id];
    let (step, bytes) = end.read(ring, want, done);
    store(user_buf, bytes.as_slice(), &mut kernel.pool);
    proof {
        assert forall|p: u64|
            (forall|k: int| 0 <= k < user_buf.buffers@.len() ==> (#[trigger] user_buf.buffers@[k]).ppn.0 != p) implies #[trigger] kernel.pool.mem()[p]
            == old(kernel).pool.mem()[p] by {
            lemma_scatter_frame(old(kernel).pool.mem(), user_buf.buffers@, bytes@, p);
        }
    }
    match step {
        PipeStep::Done(n) => FileStep::Done(n as isize),
        PipeStep::Wait(n) => FileStep::Wait(n),
    }
}


/// The bytes that pieces of a user buffer hold are as many as the pieces are long.
pub proof fn lemma_gather_len(mem: crate::mm::Memory, slices: Seq<UserSlice>)
    requires
        forall|i: int|
            0 <= i < slices.len() ==> (#[trigger] slices[i]).start < slices[i].end <= 4096 && mem.dom().contains(
                slices[i].ppn.0,
            ) && mem[slices[i].ppn.0].len() == 4096,
    ensures
        gather(mem, slices).len() == slices_len(slices),
    decreases slices.len(),
{
    if slices.len() > 0 {
        assert(slices.drop_last().len() == slices.len() - 1);
        assert forall|i: int| 0 <= i < slices.drop_last().len() implies (#[trigger] slices.drop_last()[i]) == slices[i] by {}
        lemma_gather_len(mem, slices.drop_last());
    }
}

/// Writes the bytes of the user buffer `user_buf` to the open file `idx` where it stands.
pub fn write_file<D: BlockDevice>(kernel: &mut Kernel<D>, idx: usize, user_buf: &UserBuffer) -> (r: FileStep)
    requires
        idx < old(kernel).files@.len(),
        old(kernel).pool.wf(),
        user_buf.wf(),
        forall|i: int|
            0 <= i < user_buf.buffers@.len() ==> old(kernel).pool.memory.has((#[trigger] user_buf.buffers@[i]).ppn.0),
        old(kernel).file_ok(idx as int),
        old(kernel).can_write_file(idx as int, gather(old(kernel).pool.mem(), user_buf.buffers@).len() as int),
        gather(old(kernel).pool.mem(), user_buf.buffers@).len() <= isize::MAX,
    ensures
        final(kernel).same_tasks(old(kernel)),
        old(kernel).mem_ok() ==> final(kernel).mem_ok(),
        old(kernel).family_ok() ==> final(kernel).family_ok(),
        old(kernel).stacks_ok() ==> final(kernel).stacks_ok(),
        final(kernel).pool == old(kernel).pool,
        final(kernel).pipes == old(kernel).pipes,
        final(kernel).files@.len() == old(kernel).files@.len(),
        forall|j: int| 0 <= j < old(kernel).files@.len() && j != idx ==> final(kernel).files@[j] == old(kernel).files@[j],
        final(kernel).fs.wf(),
        ({
            let data = gather(old(kernel).pool.mem(), user_buf.buffers@);
            let file = old(kernel).files@[idx as int];
            &&& r == FileStep::Done(data.len() as isize)
            &&& final(kernel).files@[idx as int] == (OSInode { offset: (file.offset + data.len()) as usize, ..file })
            &&& final(kernel).fs.disk() == old(kernel).fs.after_write(file.inode, file.offset as int, data)
        }),
{
    let file = &mut kernel.files[idx];
    let total = file.write(user_buf, &mut kernel.fs, &kernel.pool);
    proof {
        if old(kernel).mem_ok() {
            crate::kernel::lemma_mem_kept(old(kernel), kernel);
        }
        crate::kernel::lemma_family_same(old(kernel), kernel);
        if old(kernel).stacks_ok() {
            crate::kernel_stacks::lemma_stacks_kept(old(kernel), kernel);
        }
    }
    FileStep::Done(total as isize)
}

/// Reads from the open file `idx` where it stands into the user buffer `user_buf`.
pub fn read_file<D: BlockDevice>(kernel: &mut Kernel<D>, idx: usize, user_buf: &UserBuffer) -> (r: FileStep)
    requires
        idx < old(kernel).files@.len(),
        old(kernel).pool.wf(),
        user_buf.wf(),
        forall|i: int|
            0 <= i < user_buf.buffers@.len() ==> old(kernel).pool.memory.has((#[trigger] user_buf.buffers@[i]).ppn.0),
        old(kernel).file_ok(idx as int),
        slices_len(user_buf.buffers@) <= isize::MAX,
    ensures
        final(kernel).same_tasks(old(kernel)),
        forall|p: u64|
            (forall|k: int| 0 <= k < user_buf.buffers@.len() ==> (#[trigger] user_buf.buffers@[k]).ppn.0 != p)
                ==> #[trigger] final(kernel).pool.mem()[p] == old(kernel).pool.mem()[p],
        final(kernel).pool.wf(),
        final(kernel).pipes == old(kernel).pipes,
        final(kernel).files@.len() == old(kernel).files@.len(),
        forall|j: int| 0 <= j < old(kernel).files@.len() && j != idx ==> final(kernel).files@[j] == old(kernel).files@[j],
        final(kernel).fs.wf(),
        final(kernel).fs.disk() == old(kernel).fs.disk(),
        ({
            let file = old(kernel).files@[idx as int];
            let node = file.inode.node(old(kernel).fs.disk());
            let rest = transfer_len(node.size as int, file.offset as int, node.size as int);
            let total = transfer_len(node.size as int, file.offset as int, slices_len(user_buf.buffers@));
            &&& r == FileStep::Done(total as isize)
            &&& final(kernel).files@[idx as int] == (OSInode { offset: (file.offset + total) as usize, ..file })
            &&& final(kernel).pool.mem() == scatter(
                old(kernel).pool.mem(),
                user_buf.buffers@,
                node.bytes(old(kernel).fs.disk(), file.offset as int, rest),
            )
        }),
{
    proof {
        lemma_slices_len_nonneg(user_buf.buffers@);
    }
    let ghost data = {
        let file = kernel.files@[idx as int];
        let node = file.inode.node(kernel.fs.disk());
        node.bytes(
            kernel.fs.disk(),
            file.offset as int,
            transfer_len(node.size as int, file.offset as int, node.size as int),
        )
    };
    let file = &mut kernel.files[idx];
    let total = file.read(user_buf, &mut kernel.fs, &mut kernel.pool);
    proof {
        assert forall|p: u64|
            (forall|k: int| 0 <= k < user_buf.buffers@.len() ==> (#[trigger] user_buf.buffers@[k]).ppn.0 != p) implies #[trigger] kernel.pool.mem()[p]
            == old(kernel).pool.mem()[p] by {
            lemma_scatter_frame(old(kernel).pool.mem(), user_buf.buffers@, data, p);
        }
    }
    FileStep::Done(total as isize)
}


impl<D: BlockDevice> Kernel<D> {
    /// Whether memory, pipes, open files and file system are those of `other`.
    pub open spec fn same_io(&self, other: &Self) -> bool {
        &&& self.pool == other.pool
        &&& self.pipes == other.pipes
        &&& self.files == other.files
        &&& self.fs == other.fs
    }

    /// What the running task can write to through the descriptor `fd`,
    /// from a buffer of `len` bytes at the address `buf`, if anything.
    pub open spec fn writes_to(&self, fd: usize, buf: u64, len: usize) -> Option<FileDescriptor> {
        if len > isize::MAX || self.user_buffer(buf, len as u64).is_none() {
            None
        } else {
            match self.descriptor(fd) {
                Some(FileDescriptor::Stdout) => Some(FileDescriptor::Stdout),
                Some(FileDescriptor::PipeWrite(id)) => if id < self.pipes@.len() {
                    Some(FileDescriptor::PipeWrite(id))
                } else {
                    None
                },
                Some(FileDescriptor::Inode(idx)) => if idx < self.files@.len() && self.files@[idx as int].writable {
                    Some(FileDescriptor::Inode(idx))
                } else {
                    None
                },
                _ => None,
            }
        }
    }

    /// What the running task can read from through the descriptor `fd`,
    /// into a buffer of `len` bytes at the address `buf`, if anything.
    pub open spec fn reads_from(&self, fd: usize, buf: u64, len: usize) -> Option<FileDescriptor> {
        if len > isize::MAX || self.user_buffer(buf, len as u64).is_none() {
            None
        } else {
            match self.descriptor(fd) {
                Some(FileDescriptor::Stdin) => if len == 1 {
                    Some(FileDescriptor::Stdin)
                } else {
                    None
                },
                Some(FileDescriptor::PipeRead(id)) => if id < self.pipes@.len() {
                    Some(FileDescriptor::PipeRead(id))
                } else {
                    None
                },
                Some(FileDescriptor::Inode(idx)) => if idx < self.files@.len() && self.files@[idx as int].readable {
                    Some(FileDescriptor::Inode(idx))
                } else {
                    None
                },
                _ => None,
            }
        }
    }
}

/// The running task goes on with a write of the `len` bytes at the user
/// address `buf` through the descriptor `fd`, of which `done` are written
/// already. Returns -1 where the descriptor is not open for writing or the
/// buffer is not mapped. The console gets the bytes handed out as a
/// whole; a pipe takes what it has room for; a file takes all of them.
pub fn write_from<D: BlockDevice>(kernel: &mut Kernel<D>, fd: usize, buf: u64, len: usize, done: usize) -> (r:
    FileStep)
    requires
        old(kernel).wf(),
        old(kernel).running(),
        old(kernel).pool.wf(),
        old(kernel).pipes_wf(),
        done <= len,
        forall|idx: usize|
            old(kernel).writes_to(fd, buf, len) == Some(FileDescriptor::Inode(idx)) ==> old(kernel).file_ok(idx as int)
                && old(kernel).can_write_file(idx as int, len as int),
    ensures
        final(kernel).wf(),
        old(kernel).mem_ok() ==> final(kernel).mem_ok(),
        old(kernel).family_ok() ==> final(kernel).family_ok(),
        old(kernel).stacks_ok() ==> final(kernel).stacks_ok(),
        final(kernel).same_tasks(old(kernel)),
        final(kernel).pipes_wf(),
        match old(kernel).writes_to(fd, buf, len) {
            None => r == FileStep::Done(-1isize) && final(kernel).same_io(old(kernel)),
            Some(file) => {
                let data = gather(old(kernel).pool.mem(), old(kernel).user_buffer(buf, len as u64).unwrap());
                &&& data.len() == len
                &&& match file {
                    FileDescriptor::PipeWrite(id) => {
                        let ring = old(kernel).pipes@[id as int];
                        let room = 32 - ring.content().len();
                        let n = moved(room, len - done);
                        &&& final(kernel).pool == old(kernel).pool
                        &&& final(kernel).files == old(kernel).files
                        &&& final(kernel).fs == old(kernel).fs
                        &&& final(kernel).pipes@.len() == old(kernel).pipes@.len()
                        &&& forall|j: int|
                            0 <= j < old(kernel).pipes@.len() && j != id ==> final(kernel).pipes@[j] == old(kernel).pipes@[j]
                        &&& final(kernel).pipes@[id as int].content() == ring.content() + data.subrange(
                            done as int,
                            done + n,
                        )
                        &&& final(kernel).pipes@[id as int].write_end == ring.write_end
                        &&& r == if room > len - done {
                            FileStep::Done((done + n) as isize)
                        } else {
                            FileStep::Wait((done + n) as usize)
                        }
                    },
                    FileDescriptor::Inode(idx) => {
                        let open = old(kernel).files@[idx as int];
                        &&& r == FileStep::Done(len as isize)
                        &&& final(kernel).pool == old(kernel).pool
                        &&& final(kernel).pipes == old(kernel).pipes
                        &&& final(kernel).files@.len() == old(kernel).files@.len()
                        &&& forall|j: int|
                            0 <= j < old(kernel).files@.len() && j != idx ==> final(kernel).files@[j] == old(kernel).files@[j]
                        &&& final(kernel).files@[idx as int] == (OSInode { offset: (open.offset + len) as usize, ..open })
                        &&& final(kernel).fs.wf()
                        &&& final(kernel).fs.disk() == old(kernel).fs.after_write(open.inode, open.offset as int, data)
                    },
                    _ => (r matches FileStep::Print(v) && v@ == data && final(kernel).same_io(old(kernel))),
                }
            },
        },
{
    let i = kernel.current_index();
    if len > isize::MAX as usize {
        return FileStep::Done(-1);
    }
    if fd >= kernel.tasks.tasks[i].inner.fd_table.len() {
        return FileStep::Done(-1);
    }
    let file = match kernel.tasks.tasks[i].inner.fd_table[fd] {
        Some(file) => file,
        None => {
            return FileStep::Done(-1);
        },
    };
    let token = kernel.tasks.tasks[i].inner.get_user_token();
    let slices = match translated_byte_buffer(token, buf, len as u64, &kernel.pool) {
        Some(slices) => slices,
        None => {
            return FileStep::Done(-1);
        },
    };
    let user_buf = UserBuffer::new(slices);
    proof {
        kernel.pool.memory.lemma_view();
        lemma_gather_len(kernel.pool.mem(), user_buf.buffers@);
    }
    match file {
        FileDescriptor::Stdout => FileStep::Print(OSInode::collect(&user_buf, &kernel.pool)),
        FileDescriptor::PipeWrite(id) => {
            if id >= kernel.pipes.len() {
                return FileStep::Done(-1);
            }
            let data = OSInode::collect(&user_buf, &kernel.pool);
            write_pipe(kernel, id, data.as_slice(), done)
        },
        FileDescriptor::Inode(idx) => {
            if idx >= kernel.files.len() {
                return FileStep::Done(-1);
            }
            if !kernel.files[idx].writable {
                return FileStep::Done(-1);
            }
            proof {
                assert(*kernel == *old(kernel));
                assert(old(kernel).user_buffer(buf, len as u64).is_some());
                assert(old(kernel).descriptor(fd) == Some(FileDescriptor::Inode(idx)));
                assert(old(kernel).writes_to(fd, buf, len) == Some(FileDescriptor::Inode(idx)));
                assert(old(kernel).file_ok(idx as int) && old(kernel).can_write_file(idx as int, len as int));
            }
            write_file(kernel, idx, &user_buf)
        },
        _ => FileStep::Done(-1),
    }
}

/// The running task writes the `len` bytes at the user address `buf`
/// through the descriptor `fd`.
pub fn sys_write<D: BlockDevice>(kernel: &mut Kernel<D>, fd: usize, buf: u64, len: usize) -> (r: FileStep)
    requires
        old(kernel).wf(),
        old(kernel).running(),
        old(kernel).pool.wf(),
        old(kernel).pipes_wf(),
        forall|idx: usize|
            old(kernel).writes_to(fd, buf, len) == Some(FileDescriptor::Inode(idx)) ==> old(kernel).file_ok(idx as int)
                && old(kernel).can_write_file(idx as int, len as int),
    ensures
        final(kernel).wf(),
        old(kernel).mem_ok() ==> final(kernel).mem_ok(),
        old(kernel).family_ok() ==> final(kernel).family_ok(),
        old(kernel).stacks_ok() ==> final(kernel).stacks_ok(),
        final(kernel).same_tasks(old(kernel)),
        final(kernel).pipes_wf(),
        match old(kernel).writes_to(fd, buf, len) {
            None => r == FileStep::Done(-1isize) && final(kernel).same_io(old(kernel)),
            Some(file) => {
                let data = gather(old(kernel).pool.mem(), old(kernel).user_buffer(buf, len as u64).unwrap());
                &&& data.len() == len
                &&& match file {
                    FileDescriptor::PipeWrite(id) => {
                        let ring = old(kernel).pipes@[id as int];
                        let room = 32 - ring.content().len();
                        let n = moved(room, len as int);
                        &&& final(kernel).pool == old(kernel).pool
                        &&& final(kernel).files == old(kernel).files
                        &&& final(kernel).fs == old(kernel).fs
                        &&& final(kernel).pipes@.len() == old(kernel).pipes@.len()
                        &&& forall|j: int|
                            0 <= j < old(kernel).pipes@.len() && j != id ==> final(kernel).pipes@[j] == old(kernel).pipes@[j]
                        &&& final(kernel).pipes@[id as int].content() == ring.content() + data.subrange(
                            0,
                            n,
                        )
                        &&& final(kernel).pipes@[id as int].write_end == ring.write_end
                        &&& r == if room > len {
                            FileStep::Done(n as isize)
                        } else {
                            FileStep::Wait(n as usize)
                        }
                    },
                    FileDescriptor::Inode(idx) => {
                        let open = old(kernel).files@[idx as int];
                        &&& r == FileStep::Done(len as isize)
                        &&& final(kernel).pool == old(kernel).pool
                        &&& final(kernel).pipes == old(kernel).pipes
                        &&& final(kernel).files@.len() == old(kernel).files@.len()
                        &&& forall|j: int|
                            0 <= j < old(kernel).files@.len() && j != idx ==> final(kernel).files@[j] == old(kernel).files@[j]
                        &&& final(kernel).files@[idx as int] == (OSInode { offset: (open.offset + len) as usize, ..open })
                        &&& final(kernel).fs.wf()
                        &&& final(kernel).fs.disk() == old(kernel).fs.after_write(open.inode, open.offset as int, data)
                    },
                    _ => (r matches FileStep::Print(v) && v@ == data && final(kernel).same_io(old(kernel))),
                }
            },
        },
{
    write_from(kernel, fd, buf, len, 0)
}


/// The running task goes on with a read through the descriptor `fd`:
/// `done` bytes are read already, and the `len` bytes at the user address
/// `buf` are left to fill. Returns -1 where the descriptor is not open
/// for reading or the buffer is not mapped. The console hands out one
/// character, which is read outside; a pipe gives what it holds; a file
/// gives what is left of it.
pub fn read_from<D: BlockDevice>(kernel: &mut Kernel<D>, fd: usize, buf: u64, len: usize, done: usize) -> (r:
    FileStep)
    requires
        old(kernel).wf(),
        old(kernel).running(),
        old(kernel).pool.wf(),
        old(kernel).pipes_wf(),
        done + len <= isize::MAX,
        forall|idx: usize|
            old(kernel).reads_from(fd, buf, len) == Some(FileDescriptor::Inode(idx)) ==> old(kernel).file_ok(idx as int),
    ensures
        final(kernel).wf(),
        old(kernel).mem_ok() ==> final(kernel).mem_ok(),
        old(kernel).family_ok() ==> final(kernel).family_ok(),
        old(kernel).mem_ok() && old(kernel).stacks_ok() ==> final(kernel).stacks_ok(),
        final(kernel).same_tasks(old(kernel)),
        final(kernel).pipes_wf(),
        final(kernel).pool.wf(),
        match old(kernel).reads_from(fd, buf, len) {
            None => r == FileStep::Done(-1isize) && final(kernel).same_io(old(kernel)),
            Some(file) => {
                let slices = old(kernel).user_buffer(buf, len as u64).unwrap();
                match file {
                    FileDescriptor::PipeRead(id) => {
                        let ring = old(kernel).pipes@[id as int];
                        let avail = ring.content().len() as int;
                        let n = moved(avail, len as int);
                        &&& final(kernel).files == old(kernel).files
                        &&& final(kernel).fs == old(kernel).fs
                        &&& final(kernel).pipes@.len() == old(kernel).pipes@.len()
                        &&& forall|j: int|
                            0 <= j < old(kernel).pipes@.len() && j != id ==> final(kernel).pipes@[j] == old(kernel).pipes@[j]
                        &&& final(kernel).pipes@[id as int].content() == ring.content().subrange(n, avail)
                        &&& final(kernel).pipes@[id as int].write_end == ring.write_end
                        &&& final(kernel).pool.mem() == scatter(
                            old(kernel).pool.mem(),
                            slices,
                            ring.content().subrange(0, n),
                        )
                        &&& r == if avail == 0 {
                            if ring.write_end == Some(0usize) {
                                FileStep::Done(done as isize)
                            } else {
                                FileStep::Wait(done)
                            }
                        } else if avail > len || ring.write_end == Some(0usize) {
                            FileStep::Done((done + n) as isize)
                        } else {
                            FileStep::Wait((done + n) as usize)
                        }
                    },
                    FileDescriptor::Inode(idx) => {
                        let open = old(kernel).files@[idx as int];
                        let node = open.inode.node(old(kernel).fs.disk());
                        let rest = transfer_len(node.size as int, open.offset as int, node.size as int);
                        let total = transfer_len(node.size as int, open.offset as int, len as int);
                        &&& r == FileStep::Done(total as isize)
                        &&& final(kernel).pipes == old(kernel).pipes
                        &&& final(kernel).files@.len() == old(kernel).files@.len()
                        &&& forall|j: int|
                            0 <= j < old(kernel).files@.len() && j != idx ==> final(kernel).files@[j] == old(kernel).files@[j]
                        &&& final(kernel).files@[idx as int] == (OSInode { offset: (open.offset + total) as usize, ..open })
                        &&& final(kernel).fs.wf()
                        &&& final(kernel).fs.disk() == old(kernel).fs.disk()
                        &&& final(kernel).pool.mem() == scatter(
                            old(kernel).pool.mem(),
                            slices,
                            node.bytes(old(kernel).fs.disk(), open.offset as int, rest),
                        )
                    },
                    _ => r == FileStep::ReadChar && final(kernel).same_io(old(kernel)),
                }
            },
        },
{
    proof {
        if kernel.mem_ok() {
            lemma_buffer_in_area(kernel, buf, len as u64);
        }
    }
    let i = kernel.current_index();
    if len > isize::MAX as usize {
        return FileStep::Done(-1);
    }
    if fd >= kernel.tasks.tasks[i].inner.fd_table.len() {
        return FileStep::Done(-1);
    }
    let file = match kernel.tasks.tasks[i].inner.fd_table[fd] {
        Some(file) => file,
        None => {
            return FileStep::Done(-1);
        },
    };
    let token = kernel.tasks.tasks[i].inner.get_user_token();
    let slices = match translated_byte_buffer(token, buf, len as u64, &kernel.pool) {
        Some(slices) => slices,
        None => {
            return FileStep::Done(-1);
        },
    };
    let user_buf = UserBuffer::new(slices);
    match file {
        FileDescriptor::Stdin => {
            if len == 1 {
                FileStep::ReadChar
            } else {
                FileStep::Done(-1)
            }
        },
        FileDescriptor::PipeRead(id) => {
            if id >= kernel.pipes.len() {
                return FileStep::Done(-1);
            }
            let step = read_pipe(kernel, id, &user_buf, done + len, done);
            proof {
                lemma_buffer_stored(old(kernel), kernel, buf, len as u64);
                crate::kernel::lemma_family_same(old(kernel), kernel);
                if old(kernel).mem_ok() && old(kernel).buffer_in_area(buf, len as u64) && old(kernel).stacks_ok() {
                    crate::kernel_stacks::lemma_stacks_kept(old(kernel), kernel);
                }
            }
            step
        },
        FileDescriptor::Inode(idx) => {
            if idx >= kernel.files.len() {
                return FileStep::Done(-1);
            }
            if !kernel.files[idx].readable {
                return FileStep::Done(-1);
            }
            proof {
                assert(*kernel == *old(kernel));
                assert(old(kernel).user_buffer(buf, len as u64).is_some());
                assert(old(kernel).descriptor(fd) == Some(FileDescriptor::Inode(idx)));
                assert(old(kernel).reads_from(fd, buf, len) == Some(FileDescriptor::Inode(idx)));
                assert(old(kernel).file_ok(idx as int));
            }
            let step = read_file(kernel, idx, &user_buf);
            proof {
                lemma_buffer_stored(old(kernel), kernel, buf, len as u64);
                crate::kernel::lemma_family_same(old(kernel), kernel);
                if old(kernel).mem_ok() && old(kernel).buffer_in_area(buf, len as u64) && old(kernel).stacks_ok() {
                    crate::kernel_stacks::lemma_stacks_kept(old(kernel), kernel);
                }
            }
            step
        },
        _ => FileStep::Done(-1),
    }
}

/// The memory stays in order where bytes are stored in the pieces of a
/// buffer of the running task that lies in pages of areas of the task.
pub proof fn lemma_buffer_stored<D: BlockDevice>(before: &Kernel<D>, after: &Kernel<D>, buf: u64, len: u64)
    requires
        before.wf(),
        before.running(),
        before.user_buffer(buf, len).is_some(),
        after.same_tasks(before),
        after.pool.wf(),
        forall|p: u64|
            (forall|k: int|
                0 <= k < before.user_buffer(buf, len).unwrap().len() ==> (#[trigger] before.user_buffer(
                    buf,
                    len,
                ).unwrap()[k]).ppn.0 != p) ==> #[trigger] after.pool.mem()[p] == before.pool.mem()[p],
    ensures
        before.mem_ok() && before.buffer_in_area(buf, len) ==> after.mem_ok(),
        before.mem_ok() && before.buffer_in_area(buf, len) ==> forall|v: u64|
            #[trigger] after.kernel_space.page_table.lookup(&after.pool, v) == before.kernel_space.page_table.lookup(
                &before.pool,
                v,
            ),
{
    reveal(Kernel::mem_ok);
    if before.mem_ok() && before.buffer_in_area(buf, len) {
        let i = before.cur();
        let slices = before.user_buffer(buf, len).unwrap();
        assert forall|p: u64| !before.tasks.tasks@[i].inner.memory_set.owns_data(p) implies #[trigger] after.pool.mem()[p]
            == before.pool.mem()[p] by {
            assert forall|k: int| 0 <= k < slices.len() implies (#[trigger] slices[k]).ppn.0 != p by {
                assert(before.tasks.tasks@[i].inner.memory_set.owns_data(slices[k].ppn.0));
            }
        }
        crate::kernel::lemma_mem_after_store(before, after, i);
    }
}

/// The running task reads through the descriptor `fd` into the `len`
/// bytes at the user address `buf`.
pub fn sys_read<D: BlockDevice>(kernel: &mut Kernel<D>, fd: usize, buf: u64, len: usize) -> (r: FileStep)
    requires
        old(kernel).wf(),
        old(kernel).running(),
        old(kernel).pool.wf(),
        old(kernel).pipes_wf(),
        forall|idx: usize|
            old(kernel).reads_from(fd, buf, len) == Some(FileDescriptor::Inode(idx)) ==> old(kernel).file_ok(idx as int),
    ensures
        final(kernel).wf(),
        old(kernel).mem_ok() ==> final(kernel).mem_ok(),
        old(kernel).family_ok() ==> final(kernel).family_ok(),
        old(kernel).mem_ok() && old(kernel).stacks_ok() ==> final(kernel).stacks_ok(),
        final(kernel).same_tasks(old(kernel)),
        final(kernel).pipes_wf(),
        final(kernel).pool.wf(),
        match old(kernel).reads_from(fd, buf, len) {
            None => r == FileStep::Done(-1isize) && final(kernel).same_io(old(kernel)),
            Some(file) => {
                let slices = old(kernel).user_buffer(buf, len as u64).unwrap();
                match file {
                    FileDescriptor::PipeRead(id) => {
                        let ring = old(kernel).pipes@[id as int];
                        let avail = ring.content().len() as int;
                        let n = moved(avail, len as int);
                        &&& final(kernel).files == old(kernel).files
                        &&& final(kernel).fs == old(kernel).fs
                        &&& final(kernel).pipes@.len() == old(kernel).pipes@.len()
                        &&& forall|j: int|
                            0 <= j < old(kernel).pipes@.len() && j != id ==> final(kernel).pipes@[j] == old(kernel).pipes@[j]
                        &&& final(kernel).pipes@[id as int].content() == ring.content().subrange(n, avail)
                        &&& final(kernel).pipes@[id as int].write_end == ring.write_end
                        &&& final(kernel).pool.mem() == scatter(
                            old(kernel).pool.mem(),
                            slices,
                            ring.content().subrange(0, n),
                        )
                        &&& r == if avail == 0 {
                            if ring.write_end == Some(0usize) {
                                FileStep::Done(0isize)
                            } else {
                                FileStep::Wait(0usize)
                            }
                        } else if avail > len || ring.write_end == Some(0usize) {
                            FileStep::Done(n as isize)
                        } else {
                            FileStep::Wait(n as usize)
                        }
                    },
                    FileDescriptor::Inode(idx) => {
                        let open = old(kernel).files@[idx as int];
                        let node = open.inode.node(old(kernel).fs.disk());
                        let rest = transfer_len(node.size as int, open.offset as int, node.size as int);
                        let total = transfer_len(node.size as int, open.offset as int, len as int);
                        &&& r == FileStep::Done(total as isize)
                        &&& final(kernel).pipes == old(kernel).pipes
                        &&& final(kernel).files@.len() == old(kernel).files@.len()
                        &&& forall|j: int|
                            0 <= j < old(kernel).files@.len() && j != idx ==> final(kernel).files@[j] == old(kernel).files@[j]
                        &&& final(kernel).files@[idx as int] == (OSInode { offset: (open.offset + total) as usize, ..open })
                        &&& final(kernel).fs.wf()
                        &&& final(kernel).fs.disk() == old(kernel).fs.disk()
                        &&& final(kernel).pool.mem() == scatter(
                            old(kernel).pool.mem(),
                            slices,
                            node.bytes(old(kernel).fs.disk(), open.offset as int, rest),
                        )
                    },
                    _ => r == FileStep::ReadChar && final(kernel).same_io(old(kernel)),
                }
            },
        },
{
    if len > isize::MAX as usize {
        return FileStep::Done(-1);
    }
    read_from(kernel, fd, buf, len, 0)
}

/// Hands the character `ch`, read from the console, to the running task
/// at the user address `buf`. Returns 1, or -1 where the address is not mapped.
pub fn finish_console_read<D: BlockDevice>(kernel: &mut Kernel<D>, buf: u64, ch: u8) -> (r: isize)
    requires
        old(kernel).wf(),
        old(kernel).running(),
        old(kernel).pool.wf(),
    ensures
        final(kernel).wf(),
        old(kernel).mem_ok() ==> final(kernel).mem_ok(),
        old(kernel).family_ok() ==> final(kernel).family_ok(),
        old(kernel).mem_ok() && old(kernel).stacks_ok() ==> final(kernel).stacks_ok(),
        final(kernel).same_tasks(old(kernel)),
        final(kernel).pipes == old(kernel).pipes,
        final(kernel).files == old(kernel).files,
        final(kernel).fs == old(kernel).fs,
        final(kernel).pool.wf(),
        match crate::mm::page_table::user_place(old(kernel).pool.mem(), old(kernel).user_root(), buf) {
            None => r == -1 && final(kernel).pool == old(kernel).pool,
            Some((p, o)) => r == 1 && final(kernel).pool.mem() == old(kernel).pool.mem().insert(
                p,
                old(kernel).pool.mem()[p].update(o, ch),
            ),
        },
{
    proof {
        if kernel.mem_ok() {
            lemma_place_in_area(kernel, buf);
        }
    }
    let i = kernel.current_index();
    let token = kernel.tasks.tasks[i].inner.get_user_token();
    match crate::mm::page_table::translated_refmut(token, buf, &kernel.pool) {
        Some((ppn, offset)) => {
            kernel.pool.memory.write_u8(ppn.0, offset, ch);
            proof {
                kernel.pool.memory.lemma_view();
                old(kernel).pool.memory.lemma_view();
                if old(kernel).mem_ok() && old(kernel).place_in_area(buf) {
                    crate::kernel::lemma_mem_after_store(old(kernel), kernel, i as int);
                    if old(kernel).stacks_ok() {
                        crate::kernel_stacks::lemma_stacks_kept(old(kernel), kernel);
                    }
                }
                crate::kernel::lemma_family_same(old(kernel), kernel);
            }
            1
        },
        None => -1,
    }
}


/// The root of the page table of the running task is the page that its
/// token names.
pub proof fn lemma_user_root<D: BlockDevice>(kernel: &Kernel<D>)
    requires
        kernel.wf(),
        kernel.running(),
        kernel.mem_ok(),
    ensures
        kernel.user_root() == kernel.tasks.tasks@[kernel.cur()].inner.memory_set.page_table.root_ppn.0,
{
    reveal(Kernel::mem_ok);
    let i = kernel.cur();
    assert(kernel.space_ok(i));
    let pt = kernel.tasks.tasks@[i].inner.memory_set.page_table;
    assert(pt.tables().frames[0] == pt.root_ppn.0);
    let r = pt.root_ppn.0;
    assert(r < 0x1000_0000_0000 ==> ((8u64 << 60) | r) & 0xfff_ffff_ffff == r) by (bit_vector);
}

/// A mapped address of the running task lies in a page of an area of the task.
pub proof fn lemma_place_in_area<D: BlockDevice>(kernel: &Kernel<D>, ptr: u64)
    requires
        kernel.wf(),
        kernel.running(),
        kernel.mem_ok(),
    ensures
        kernel.place_in_area(ptr),
{
    reveal(Kernel::mem_ok);
    let i = kernel.cur();
    let t = kernel.tasks.tasks@[i];
    assert(kernel.space_ok(i));
    lemma_user_root(kernel);
    kernel.pool.memory.lemma_view();
    let v = ptr / 4096;
    if crate::mm::page_table::user_place(kernel.pool.mem(), kernel.user_root(), ptr).is_some() {
        assert(t.inner.memory_set.page_table.lookup(&kernel.pool, v).is_some());
        t.inner.memory_set.lemma_reached_page(&kernel.pool, kernel.env.strampoline.0, t.inner.trap_cx_ppn.0, v);
    }
}

/// The pieces of a buffer in the address space of a user task lie in
/// pages of areas of the task.
pub proof fn lemma_slices_owned(
    ms: &crate::mm::memory_set::MemorySet,
    pool: &FramePool,
    strampoline: u64,
    trap_ppn: u64,
    start: int,
    end: int,
)
    requires
        ms.is_task_space(pool, strampoline, trap_ppn),
        ms.only_areas(pool),
        user_slices(pool.mem(), ms.page_table.root_ppn.0, start, end).is_some(),
    ensures
        forall|k: int|
            0 <= k < user_slices(pool.mem(), ms.page_table.root_ppn.0, start, end).unwrap().len() ==> ms.owns_data(
                (#[trigger] user_slices(pool.mem(), ms.page_table.root_ppn.0, start, end).unwrap()[k]).ppn.0,
            ),
    decreases end - start,
{
    let mem = pool.mem();
    let root = ms.page_table.root_ppn.0;
    if !(start >= end || start < 0) {
        let stop = if (start / 4096 + 1) * 4096 < end {
            (start / 4096 + 1) * 4096
        } else {
            end
        };
        let v = (start / 4096) as u64;
        ms.lemma_task_space_facts(pool, strampoline, trap_ppn);
        pool.memory.lemma_view();
        assert(ms.page_table.lookup(pool, v).is_some());
        ms.lemma_reached_page(pool, strampoline, trap_ppn, v);
        lemma_slices_owned(ms, pool, strampoline, trap_ppn, stop, end);
        let rest = user_slices(mem, root, stop, end).unwrap();
        let all = user_slices(mem, root, start, end).unwrap();
        assert forall|k: int| 0 <= k < all.len() implies ms.owns_data((#[trigger] all[k]).ppn.0) by {
            if k > 0 {
                assert(all[k] == rest[k - 1]);
            }
        }
    }
}

/// A mapped buffer of the running task lies in pages of areas of the task.
pub proof fn lemma_buffer_in_area<D: BlockDevice>(kernel: &Kernel<D>, buf: u64, len: u64)
    requires
        kernel.wf(),
        kernel.running(),
        kernel.mem_ok(),
    ensures
        kernel.buffer_in_area(buf, len),
{
    reveal(Kernel::mem_ok);
    let i = kernel.cur();
    let t = kernel.tasks.tasks@[i];
    assert(kernel.space_ok(i));
    lemma_user_root(kernel);
    if kernel.user_buffer(buf, len).is_some() {
        lemma_slices_owned(
            &t.inner.memory_set,
            &kernel.pool,
            kernel.env.strampoline.0,
            t.inner.trap_cx_ppn.0,
            buf as int,
            buf + len,
        );
    }
}

} // verus!
