use vstd::prelude::*;
use crate::easy_fs::block_dev::BlockDevice;
use crate::fs::pipe::PipeRingBuffer;
use crate::fs::FileDescriptor;
use crate::kernel::Kernel;
use crate::codec::with_u64;
use crate::fs::inode::{can_open, open_file, opens, OSInode, OpenFlags};
use crate::fs::pipe::make_pipe;
use crate::mm::page_table::{translated_refmut, translated_str, user_place, user_str};
use crate::task::task::{lowest_free, TaskView};

verus! {

/// The pipes after one more end of pipe `id` was opened for writing.
pub open spec fn with_writer(pipes: Seq<PipeRingBuffer>, id: usize) -> Seq<PipeRingBuffer> {
    if id < pipes.len() && pipes[id as int].write_end.is_some() && pipes[id as int].write_end.unwrap()
        < usize::MAX {
        pipes.update(
            id as int,
            PipeRingBuffer { write_end: Some((pipes[id as int].write_end.unwrap() + 1) as usize), ..pipes[id as int] },
        )
    } else {
        pipes
    }
}

/// The pipes after one end of pipe `id` that was open for writing was closed.
pub open spec fn without_writer(pipes: Seq<PipeRingBuffer>, id: usize) -> Seq<PipeRingBuffer> {
    if id < pipes.len() && pipes[id as int].write_end.is_some() && pipes[id as int].write_end.unwrap() > 0 {
        pipes.update(
            id as int,
            PipeRingBuffer { write_end: Some((pipes[id as int].write_end.unwrap() - 1) as usize), ..pipes[id as int] },
        )
    } else {
        pipes
    }
}

/// The pipes after a descriptor for `file` was made.
pub open spec fn opened(pipes: Seq<PipeRingBuffer>, file: FileDescriptor) -> Seq<PipeRingBuffer> {
    match file {
        FileDescriptor::PipeWrite(id) => with_writer(pipes, id),
        _ => pipes,
    }
}

/// The pipes after a descriptor for `file` was closed.
pub open spec fn closed(pipes: Seq<PipeRingBuffer>, file: FileDescriptor) -> Seq<PipeRingBuffer> {
    match file {
        FileDescriptor::PipeWrite(id) => without_writer(pipes, id),
        _ => pipes,
    }
}

/// Notes that a descriptor for `file` was made.
pub fn note_open(pipes: &mut Vec<PipeRingBuffer>, file: FileDescriptor)
    ensures
        final(pipes)@ == opened(old(pipes)@, file),
        final(pipes)@.len() == old(pipes)@.len(),
        forall|id: int|
            0 <= id < old(pipes)@.len() && (#[trigger] old(pipes)@[id]).wf() && old(pipes)@[id].write_end.is_some()
                ==> final(pipes)@[id].wf() && final(pipes)@[id].write_end.is_some(),
{
    if let FileDescriptor::PipeWrite(id) = file {
        if id < pipes.len() {
            if let Some(n) = pipes[id].write_end {
                if n < usize::MAX {
                    let ring = &mut pipes[id];
                    ring.write_end = Some(n + 1);
                }
            }
        }
    }
}

/// Notes that a descriptor for `file` was closed.
pub fn note_close(pipes: &mut Vec<PipeRingBuffer>, file: FileDescriptor)
    ensures
        final(pipes)@ == closed(old(pipes)@, file),
        final(pipes)@.len() == old(pipes)@.len(),
        forall|id: int|
            0 <= id < old(pipes)@.len() && (#[trigger] old(pipes)@[id]).wf() && old(pipes)@[id].write_end.is_some()
                ==> final(pipes)@[id].wf() && final(pipes)@[id].write_end.is_some(),
{
    if let FileDescriptor::PipeWrite(id) = file {
        if id < pipes.len() {
            if let Some(n) = pipes[id].write_end {
                if n > 0 {
                    let ring = &mut pipes[id];
                    ring.write_end = Some(n - 1);
                }
            }
        }
    }
}

/// Closes the file descriptor `fd` of the running task. Returns 0, or -1
/// where the descriptor is not open.
pub fn sys_close<D: BlockDevice>(kernel: &mut Kernel<D>, fd: usize) -> (r: isize)
    requires
        old(kernel).wf(),
        old(kernel).running(),
    ensures
        final(kernel).wf(),
        old(kernel).pipes_wf() ==> final(kernel).pipes_wf(),
        old(kernel).mem_ok() ==> final(kernel).mem_ok(),
        old(kernel).family_ok() ==> final(kernel).family_ok(),
        old(kernel).stacks_ok() ==> final(kernel).stacks_ok(),
        final(kernel).processor == old(kernel).processor,
        final(kernel).manager == old(kernel).manager,
        final(kernel).tasks.tasks@.len() == old(kernel).tasks.tasks@.len(),
        ({
            let i = old(kernel).cur();
            let table = old(kernel).tasks.tasks@[i]@.fd_table;
            let open = fd < table.len() && table[fd as int].is_some();
            &&& r == if open {
                0isize
            } else {
                -1isize
            }
            &&& final(kernel).tasks.tasks@[i]@ == (TaskView {
                fd_table: if open {
                    table.update(fd as int, None)
                } else {
                    table
                },
                ..old(kernel).tasks.tasks@[i]@
            })
            &&& final(kernel).tasks.tasks@[i].inner.memory_set == old(kernel).tasks.tasks@[i].inner.memory_set
            &&& final(kernel).pipes@ == if open {
                closed(old(kernel).pipes@, table[fd as int].unwrap())
            } else {
                old(kernel).pipes@
            }
            &&& forall|j: int|
                0 <= j < old(kernel).tasks.tasks@.len() && j != i ==> #[trigger] final(kernel).tasks.tasks@[j]
                    == old(kernel).tasks.tasks@[j]
        }),
{
    let i = kernel.current_index();
    let ghost before = kernel.tasks.tasks@;
    if fd >= kernel.tasks.tasks[i].inner.fd_table.len() {
        return -1;
    }
    if kernel.tasks.tasks[i].inner.fd_table[fd].is_none() {
        return -1;
    }
    let file = kernel.tasks.tasks[i].inner.fd_table[fd].unwrap();
    let task = &mut kernel.tasks.tasks[i];
    task.inner.fd_table.set(fd, None);
    note_close(&mut kernel.pipes, file);
    proof {
        let after = kernel.tasks.tasks@;
        assert forall|a: int| 0 <= a < after.len() implies (#[trigger] after[a]).pid == before[a].pid
            && after[a].kernel_stack == before[a].kernel_stack && after[a].inner.task_status
            == before[a].inner.task_status by {}
        assert forall|p: usize| old(kernel).tasks.has(p) implies kernel.tasks.has(p) && kernel.tasks.index_of(p)
            == old(kernel).tasks.index_of(p) by {
            let w = old(kernel).tasks.index_of(p);
            assert(after[w].pid.0 == p);
            let v = kernel.tasks.index_of(p);
            assert(after[v].pid.0 == after[w].pid.0);
        }
        if old(kernel).mem_ok() {
            assert forall|a: int| 0 <= a < after.len() implies (#[trigger] after[a]).inner.memory_set
                == before[a].inner.memory_set && after[a].inner.trap_cx_ppn == before[a].inner.trap_cx_ppn by {}
            crate::kernel::lemma_mem_kept(old(kernel), kernel);
        }
        if old(kernel).family_ok() {
            assert forall|a: int| 0 <= a < after.len() implies (#[trigger] after[a]).inner.parent == before[a].inner.parent
                && after[a].inner.children@ == before[a].inner.children@ by {
                assert(after[a]@.parent == before[a]@.parent);
                assert(after[a]@.children == before[a]@.children);
            }
            crate::kernel::lemma_family_kept(old(kernel), kernel);
        }
        if old(kernel).stacks_ok() {
            assert forall|a: int| 0 <= a < after.len() implies (#[trigger] after[a]).pid == before[a].pid by {}
            crate::kernel_stacks::lemma_stacks_kept(old(kernel), kernel);
        }
    }
    0
}

/// Makes a second file descriptor of the running task for the file of the
/// descriptor `fd`: the lowest that is free. Returns it, or -1 where `fd`
/// is not open.
pub fn sys_dup<D: BlockDevice>(kernel: &mut Kernel<D>, fd: usize) -> (r: isize)
    requires
        old(kernel).wf(),
        old(kernel).running(),
    ensures
        final(kernel).wf(),
        old(kernel).pipes_wf() ==> final(kernel).pipes_wf(),
        old(kernel).mem_ok() ==> final(kernel).mem_ok(),
        old(kernel).family_ok() ==> final(kernel).family_ok(),
        old(kernel).stacks_ok() ==> final(kernel).stacks_ok(),
        final(kernel).processor == old(kernel).processor,
        final(kernel).manager == old(kernel).manager,
        final(kernel).tasks.tasks@.len() == old(kernel).tasks.tasks@.len(),
        ({
            let i = old(kernel).cur();
            let table = old(kernel).tasks.tasks@[i]@.fd_table;
            let open = fd < table.len() && table[fd as int].is_some();
            &&& !open ==> r == -1 && final(kernel).tasks.tasks@ == old(kernel).tasks.tasks@ && final(kernel).pipes@ == old(kernel).pipes@
            &&& open ==> {
                &&& r == lowest_free(table) as isize
                &&& final(kernel).tasks.tasks@[i]@ == (TaskView {
                    fd_table: if lowest_free(table) < table.len() {
                        table.update(lowest_free(table), table[fd as int])
                    } else {
                        table.push(table[fd as int])
                    },
                    ..old(kernel).tasks.tasks@[i]@
                })
                &&& final(kernel).tasks.tasks@[i].inner.memory_set == old(kernel).tasks.tasks@[i].inner.memory_set
                &&& final(kernel).pipes@ == opened(old(kernel).pipes@, table[fd as int].unwrap())
                &&& forall|j: int|
                    0 <= j < old(kernel).tasks.tasks@.len() && j != i ==> #[trigger] final(kernel).tasks.tasks@[j]
                        == old(kernel).tasks.tasks@[j]
            }
        }),
{
    let i = kernel.current_index();
    let ghost before = kernel.tasks.tasks@;
    if fd >= kernel.tasks.tasks[i].inner.fd_table.len() {
        return -1;
    }
    if kernel.tasks.tasks[i].inner.fd_table[fd].is_none() {
        return -1;
    }
    let file = kernel.tasks.tasks[i].inner.fd_table[fd].unwrap();
    let task = &mut kernel.tasks.tasks[i];
    let new_fd = task.inner.alloc_fd();
    task.inner.fd_table.set(new_fd, Some(file));
    note_open(&mut kernel.pipes, file);
    proof {
        let after = kernel.tasks.tasks@;
        let table = before[i as int]@.fd_table;
        if new_fd < table.len() {
            assert(after[i as int]@.fd_table =~= table.update(new_fd as int, table[fd as int]));
        } else {
            assert(after[i as int]@.fd_table =~= table.push(table[fd as int]));
        }
        assert forall|a: int| 0 <= a < after.len() implies (#[trigger] after[a]).pid == before[a].pid
            && after[a].kernel_stack == before[a].kernel_stack && after[a].inner.task_status
            == before[a].inner.task_status by {}
        assert forall|p: usize| old(kernel).tasks.has(p) implies kernel.tasks.has(p) && kernel.tasks.index_of(p)
            == old(kernel).tasks.index_of(p) by {
            let w = old(kernel).tasks.index_of(p);
            assert(after[w].pid.0 == p);
            let v = kernel.tasks.index_of(p);
            assert(after[v].pid.0 == after[w].pid.0);
        }
        if old(kernel).mem_ok() {
            assert forall|a: int| 0 <= a < after.len() implies (#[trigger] after[a]).inner.memory_set
                == before[a].inner.memory_set && after[a].inner.trap_cx_ppn == before[a].inner.trap_cx_ppn by {}
            crate::kernel::lemma_mem_kept(old(kernel), kernel);
        }
        if old(kernel).family_ok() {
            assert forall|a: int| 0 <= a < after.len() implies (#[trigger] after[a]).inner.parent == before[a].inner.parent
                && after[a].inner.children@ == before[a].inner.children@ by {
                assert(after[a]@.parent == before[a]@.parent);
                assert(after[a]@.children == before[a]@.children);
            }
            crate::kernel::lemma_family_kept(old(kernel), kernel);
        }
        if old(kernel).stacks_ok() {
            assert forall|a: int| 0 <= a < after.len() implies (#[trigger] after[a]).pid == before[a].pid by {}
            crate::kernel_stacks::lemma_stacks_kept(old(kernel), kernel);
        }
    }
    new_fd as isize
}


/// The table of file descriptors `table` after `file` was put at the
/// lowest place that is free, or at the end where none is.
pub open spec fn with_file(table: Seq<Option<FileDescriptor>>, file: FileDescriptor) -> Seq<Option<FileDescriptor>> {
    if lowest_free(table) < table.len() {
        table.update(lowest_free(table), Some(file))
    } else {
        table.push(Some(file))
    }
}

/// Gives the running task a file descriptor for `file`: the lowest that is free.
pub fn install_fd<D: BlockDevice>(kernel: &mut Kernel<D>, file: FileDescriptor) -> (fd: usize)
    requires
        old(kernel).wf(),
        old(kernel).running(),
    ensures
        final(kernel).wf(),
        old(kernel).mem_ok() ==> final(kernel).mem_ok(),
        old(kernel).family_ok() ==> final(kernel).family_ok(),
        old(kernel).stacks_ok() ==> final(kernel).stacks_ok(),
        final(kernel).running(),
        final(kernel).cur() == old(kernel).cur(),
        fd == lowest_free(old(kernel).tasks.tasks@[old(kernel).cur()]@.fd_table),
        fd <= old(kernel).tasks.tasks@[old(kernel).cur()]@.fd_table.len(),
        final(kernel).tasks.tasks@.len() == old(kernel).tasks.tasks@.len(),
        final(kernel).tasks.tasks@[old(kernel).cur()]@ == (TaskView {
            fd_table: with_file(old(kernel).tasks.tasks@[old(kernel).cur()]@.fd_table, file),
            ..old(kernel).tasks.tasks@[old(kernel).cur()]@
        }),
        final(kernel).tasks.tasks@[old(kernel).cur()].inner.memory_set == old(kernel).tasks.tasks@[old(kernel).cur()].inner.memory_set,
        forall|j: int|
            0 <= j < old(kernel).tasks.tasks@.len() && j != old(kernel).cur() ==> #[trigger] final(kernel).tasks.tasks@[j]
                == old(kernel).tasks.tasks@[j],
        final(kernel).env == old(kernel).env,
        final(kernel).pool == old(kernel).pool,
        final(kernel).kernel_space == old(kernel).kernel_space,
        final(kernel).pid_allocator == old(kernel).pid_allocator,
        final(kernel).manager == old(kernel).manager,
        final(kernel).processor == old(kernel).processor,
        final(kernel).initproc == old(kernel).initproc,
        final(kernel).pipes == old(kernel).pipes,
        final(kernel).files == old(kernel).files,
        final(kernel).fs == old(kernel).fs,
        final(kernel).root == old(kernel).root,
{
    let i = kernel.current_index();
    let ghost before = kernel.tasks.tasks@;
    let task = &mut kernel.tasks.tasks[i];
    let fd = task.inner.alloc_fd();
    task.inner.fd_table.set(fd, Some(file));
    proof {
        let after = kernel.tasks.tasks@;
        let table = before[i as int]@.fd_table;
        if fd < table.len() {
            assert(after[i as int]@.fd_table =~= table.update(fd as int, Some(file)));
        } else {
            assert(after[i as int]@.fd_table =~= table.push(Some(file)));
        }
        assert forall|a: int| 0 <= a < after.len() implies (#[trigger] after[a]).pid == before[a].pid
            && after[a].kernel_stack == before[a].kernel_stack && after[a].inner.task_status
            == before[a].inner.task_status by {}
        assert forall|p: usize| old(kernel).tasks.has(p) implies kernel.tasks.has(p) && kernel.tasks.index_of(p)
            == old(kernel).tasks.index_of(p) by {
            let w = old(kernel).tasks.index_of(p);
            assert(after[w].pid.0 == p);
            let v = kernel.tasks.index_of(p);
            assert(after[v].pid.0 == after[w].pid.0);
        }
        if old(kernel).mem_ok() {
            assert forall|a: int| 0 <= a < after.len() implies (#[trigger] after[a]).inner.memory_set
                == before[a].inner.memory_set && after[a].inner.trap_cx_ppn == before[a].inner.trap_cx_ppn by {}
            crate::kernel::lemma_mem_kept(old(kernel), kernel);
        }
        if old(kernel).family_ok() {
            assert forall|a: int| 0 <= a < after.len() implies (#[trigger] after[a]).inner.parent == before[a].inner.parent
                && after[a].inner.children@ == before[a].inner.children@ by {
                assert(after[a]@.parent == before[a]@.parent);
                assert(after[a]@.children == before[a]@.children);
            }
            crate::kernel::lemma_family_kept(old(kernel), kernel);
        }
        if old(kernel).stacks_ok() {
            assert forall|a: int| 0 <= a < after.len() implies (#[trigger] after[a]).pid == before[a].pid by {}
            crate::kernel_stacks::lemma_stacks_kept(old(kernel), kernel);
        }
    }
    fd
}

impl<D: BlockDevice> Kernel<D> {
    /// Where the running task is to find the two file descriptors of a
    /// new pipe that it asked for at the address `ptr`: page and offset of
    /// each, if each lies in one page that the task has mapped.
    pub open spec fn pipe_places(&self, ptr: u64) -> Option<((u64, int), (u64, int))> {
        if ptr + 8 > u64::MAX {
            None
        } else {
            match (
                user_place(self.pool.mem(), self.user_root(), ptr),
                user_place(self.pool.mem(), self.user_root(), (ptr + 8) as u64),
            ) {
                (Some(a), Some(b)) => if a.1 + 8 <= 4096 && b.1 + 8 <= 4096 {
                    Some((a, b))
                } else {
                    None
                },
                _ => None,
            }
        }
    }
}

/// Makes a pipe for the running task and writes the file descriptors of
/// its two ends, the end to read from first, to the array of two numbers
/// at the user address `pipe`. Returns 0, or -1, with nothing changed,
/// where the array is not mapped.
pub fn sys_pipe<D: BlockDevice>(kernel: &mut Kernel<D>, pipe: u64) -> (r: isize)
    requires
        old(kernel).wf(),
        old(kernel).running(),
        old(kernel).pool.wf(),
    ensures
        final(kernel).wf(),
        old(kernel).pipes_wf() ==> final(kernel).pipes_wf(),
        old(kernel).mem_ok() ==> final(kernel).mem_ok(),
        old(kernel).family_ok() ==> final(kernel).family_ok(),
        old(kernel).mem_ok() && old(kernel).stacks_ok() ==> final(kernel).stacks_ok(),
        final(kernel).processor == old(kernel).processor,
        final(kernel).manager == old(kernel).manager,
        final(kernel).files == old(kernel).files,
        final(kernel).fs == old(kernel).fs,
        final(kernel).pool.wf(),
        match old(kernel).pipe_places(pipe) {
            None => r == -1 && final(kernel).tasks == old(kernel).tasks && final(kernel).pipes == old(kernel).pipes
                && final(kernel).pool == old(kernel).pool,
            Some((a, b)) => {
                let i = old(kernel).cur();
                let table = old(kernel).tasks.tasks@[i]@.fd_table;
                let n = old(kernel).pipes@.len();
                let first = with_file(table, FileDescriptor::PipeRead(n as usize));
                &&& r == 0
                &&& final(kernel).pipes@.len() == n + 1
                &&& final(kernel).pipes@.drop_last() == old(kernel).pipes@
                &&& final(kernel).pipes@.last().wf()
                &&& final(kernel).pipes@.last().content() == Seq::<u8>::empty()
                &&& final(kernel).pipes@.last().write_end == Some(1usize)
                &&& final(kernel).tasks.tasks@[i]@ == (TaskView {
                    fd_table: with_file(first, FileDescriptor::PipeWrite(n as usize)),
                    ..old(kernel).tasks.tasks@[i]@
                })
                &&& forall|j: int|
                    0 <= j < old(kernel).tasks.tasks@.len() && j != i ==> #[trigger] final(kernel).tasks.tasks@[j]
                        == old(kernel).tasks.tasks@[j]
                &&& final(kernel).pool.mem() == ({
                    let m = old(kernel).pool.mem().insert(
                        a.0,
                        with_u64(old(kernel).pool.mem()[a.0], a.1, lowest_free(table) as u64),
                    );
                    m.insert(b.0, with_u64(m[b.0], b.1, lowest_free(first) as u64))
                })
            },
        },
{
    let i = kernel.current_index();
    let token = kernel.tasks.tasks[i].inner.get_user_token();
    if pipe > u64::MAX - 8 {
        return -1;
    }
    let first = translated_refmut(token, pipe, &kernel.pool);
    let second = translated_refmut(token, pipe + 8, &kernel.pool);
    let (a, b) = match (first, second) {
        (Some(a), Some(b)) => (a, b),
        _ => {
            return -1;
        },
    };
    if a.1 > 4088 || b.1 > 4088 {
        return -1;
    }
    proof {
        kernel.pool.memory.lemma_view();
    }
    let ghost ok = old(kernel).mem_ok();
    proof {
        if ok {
            crate::syscall::file_io::lemma_place_in_area(kernel, pipe);
            crate::syscall::file_io::lemma_place_in_area(kernel, (pipe + 8) as u64);
        }
    }
    let (pipe_read, pipe_write) = make_pipe(&mut kernel.pipes);
    proof {
        if ok {
            crate::kernel::lemma_mem_kept(old(kernel), kernel);
        }
        crate::kernel::lemma_family_same(old(kernel), kernel);
        if old(kernel).stacks_ok() {
            crate::kernel_stacks::lemma_stacks_kept(old(kernel), kernel);
        }
        if old(kernel).pipes_wf() {
            assert forall|id: int| 0 <= id < kernel.pipes@.len() implies (#[trigger] kernel.pipes@[id]).wf()
                && kernel.pipes@[id].write_end.is_some() by {
                if id < old(kernel).pipes@.len() {
                    assert(kernel.pipes@[id] == kernel.pipes@.drop_last()[id]);
                } else {
                    assert(kernel.pipes@[id] == kernel.pipes@.last());
                }
            }
        }
    }
    let read_fd = install_fd(kernel, FileDescriptor::PipeRead(pipe_read.buffer));
    let write_fd = install_fd(kernel, FileDescriptor::PipeWrite(pipe_write.buffer));
    let ghost k3 = *kernel;
    kernel.pool.memory.write_u64(a.0.0, a.1, read_fd as u64);
    proof {
        kernel.pool.memory.lemma_view();
    }
    kernel.pool.memory.write_u64(b.0.0, b.1, write_fd as u64);
    proof {
        kernel.pool.memory.lemma_view();
        k3.pool.memory.lemma_view();
        if ok {
            assert(k3.tasks.tasks@[i as int].inner.memory_set == old(kernel).tasks.tasks@[i as int].inner.memory_set);
            assert(k3.tasks.tasks@[i as int].inner.memory_set.owns_data(a.0.0));
            assert(k3.tasks.tasks@[i as int].inner.memory_set.owns_data(b.0.0));
            crate::kernel::lemma_mem_after_store(&k3, kernel, i as int);
            if k3.stacks_ok() {
                crate::kernel_stacks::lemma_stacks_kept(&k3, kernel);
            }
        }
        crate::kernel::lemma_family_same(&k3, kernel);
    }
    0
}

impl<D: BlockDevice> Kernel<D> {
    /// The name of the file that the running task asks for with the
    /// string at the user address `path` and the flags `flags`: the string
    /// is mapped up to its end and is a name, and the flags are flags.
    pub open spec fn asked_file(&self, path: u64, flags: u32) -> Option<Seq<u8>> {
        match user_str(self.pool.mem(), self.user_root(), path as int) {
            Some(name) => if name.len() <= 27 && flags & !0x603u32 == 0 {
                Some(name)
            } else {
                None
            },
            None => None,
        }
    }
}

/// Opens the file named by the string at the user address `path` in the
/// root directory, with the flags `flags`, for the running task. Returns
/// the new file descriptor, the lowest that is free, or -1 where the
/// string is not mapped or no name, the flags are no flags, or the file
/// is not there and is not to be made.
pub fn sys_open<D: BlockDevice>(kernel: &mut Kernel<D>, path: u64, flags: u32) -> (r: isize)
    requires
        old(kernel).wf(),
        old(kernel).running(),
        old(kernel).pool.wf(),
        old(kernel).fs.wf(),
        old(kernel).root.block_offset + 128 <= 512,
        old(kernel).root.node(old(kernel).fs.disk()).wf(),
        old(kernel).root.node(old(kernel).fs.disk()).is_dir,
        old(kernel).tasks.tasks@[old(kernel).cur()]@.fd_table.len() < isize::MAX,
        old(kernel).asked_file(path, flags).is_some() ==> can_open(
            &old(kernel).root,
            old(kernel).asked_file(path, flags).unwrap(),
            OpenFlags { bits: flags },
            &old(kernel).fs,
        ),
    ensures
        final(kernel).wf(),
        old(kernel).mem_ok() ==> final(kernel).mem_ok(),
        old(kernel).family_ok() ==> final(kernel).family_ok(),
        old(kernel).stacks_ok() ==> final(kernel).stacks_ok(),
        final(kernel).processor == old(kernel).processor,
        final(kernel).manager == old(kernel).manager,
        final(kernel).pipes == old(kernel).pipes,
        final(kernel).pool == old(kernel).pool,
        final(kernel).fs.wf(),
        match old(kernel).asked_file(path, flags) {
            None => r == -1 && final(kernel).tasks == old(kernel).tasks && final(kernel).files == old(kernel).files
                && final(kernel).fs == old(kernel).fs,
            Some(name) => {
                let i = old(kernel).cur();
                let table = old(kernel).tasks.tasks@[i]@.fd_table;
                let n = old(kernel).files@.len();
                let found = if r == -1 {
                    None::<OSInode>
                } else {
                    Some(final(kernel).files@.last())
                };
                &&& opens(&old(kernel).root, name, OpenFlags { bits: flags }, &old(kernel).fs, &final(kernel).fs, found)
                &&& r == -1 ==> final(kernel).tasks == old(kernel).tasks && final(kernel).files == old(kernel).files
                &&& r != -1 ==> {
                    &&& r == lowest_free(table)
                    &&& final(kernel).files@.len() == n + 1
                    &&& final(kernel).files@.drop_last() == old(kernel).files@
                    &&& final(kernel).tasks.tasks@[i]@ == (TaskView {
                        fd_table: with_file(table, FileDescriptor::Inode(n as usize)),
                        ..old(kernel).tasks.tasks@[i]@
                    })
                    &&& forall|j: int|
                        0 <= j < old(kernel).tasks.tasks@.len() && j != i ==> #[trigger] final(kernel).tasks.tasks@[j]
                            == old(kernel).tasks.tasks@[j]
                }
            },
        },
{
    let i = kernel.current_index();
    let token = kernel.tasks.tasks[i].inner.get_user_token();
    let name = match translated_str(token, path, &kernel.pool) {
        Some(name) => name,
        None => {
            return -1;
        },
    };
    if name.len() > 27 {
        return -1;
    }
    let flags = match OpenFlags::from_bits(flags) {
        Some(flags) => flags,
        None => {
            return -1;
        },
    };
    match open_file(&kernel.root, name.as_slice(), flags, &mut kernel.fs) {
        Some(inode) => {
            let idx = kernel.files.len();
            kernel.files.push(inode);
            proof {
                if old(kernel).mem_ok() {
                    crate::kernel::lemma_mem_kept(old(kernel), kernel);
                }
                crate::kernel::lemma_family_same(old(kernel), kernel);
                if old(kernel).stacks_ok() {
                    crate::kernel_stacks::lemma_stacks_kept(old(kernel), kernel);
                }
            }
            let fd = install_fd(kernel, FileDescriptor::Inode(idx));
            proof {
                assert(kernel.files@.drop_last() =~= old(kernel).files@);
            }
            fd as isize
        },
        None => {
            proof {
                if old(kernel).mem_ok() {
                    crate::kernel::lemma_mem_kept(old(kernel), kernel);
                }
                crate::kernel::lemma_family_same(old(kernel), kernel);
                if old(kernel).stacks_ok() {
                    crate::kernel_stacks::lemma_stacks_kept(old(kernel), kernel);
                }
            }
            -1
        },
    }
}

} // verus!
