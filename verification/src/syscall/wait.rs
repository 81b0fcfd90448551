use vstd::prelude::*;
use crate::codec::{splice, u32_bytes};
use crate::easy_fs::block_dev::BlockDevice;
use crate::fs::pipe::PipeRingBuffer;
use crate::fs::FileDescriptor;
use crate::kernel::Kernel;
use crate::mm::address::{VirtAddr, VirtPageNum};
use crate::mm::frame_allocator::FramePool;
use crate::mm::memory_set::MemorySet;
use crate::mm::page_table::{translated_refmut, user_place};
use crate::mm::user_space::lemma_space_survives;
use crate::syscall::filesystem::{closed, note_close};
use crate::task::pid::{kernel_stack_position, lemma_pid_reuse, stack_start, KernelStack, PidAllocator};
use crate::task::processor::TaskTable;
use crate::task::task::{TaskStatus, TaskView, TCB};

verus! {

/// What a task that waits for a child finds among its children.
#[derive(Copy, Clone, Debug, PartialEq, Eq, Structural)]
pub enum ChildSearch {
    /// No child is one that it waits for.
    NoChild,
    /// There is such a child, but none that has exited.
    Pending,
    /// The child at this place in the list is the first such child that has exited.
    Zombie(usize),
}

/// Whether a task that waits for `pid` waits for the child `child`: it
/// waits for any child where `pid` is -1.
pub open spec fn wanted(pid: isize, child: usize) -> bool {
    pid == -1 || pid == child as int
}

/// Whether the task with number `child` is in the table and has exited.
pub open spec fn has_exited(tasks: &TaskTable, child: usize) -> bool {
    tasks.has(child) && tasks.tasks@[tasks.index_of(child)].inner.task_status == TaskStatus::Zombie
}

/// Whether a child in `children` is one that is waited for.
pub open spec fn any_wanted(children: Seq<usize>, pid: isize) -> bool {
    exists|k: int| 0 <= k < children.len() && wanted(pid, #[trigger] children[k])
}

/// Whether the child at place `k` is the first one that is waited for and has exited.
pub open spec fn is_first_exited(tasks: &TaskTable, children: Seq<usize>, pid: isize, k: int) -> bool {
    &&& 0 <= k < children.len()
    &&& wanted(pid, children[k])
    &&& has_exited(tasks, children[k])
    &&& forall|j: int| 0 <= j < k ==> !(wanted(pid, #[trigger] children[j]) && has_exited(tasks, children[j]))
}

/// Looks among `children` for the first child that is waited for and has exited.
pub fn find_child(tasks: &TaskTable, children: &Vec<usize>, pid: isize) -> (r: ChildSearch)
    requires
        tasks.wf(),
    ensures
        match r {
            ChildSearch::NoChild => !any_wanted(children@, pid),
            ChildSearch::Pending => any_wanted(children@, pid) && forall|k: int|
                0 <= k < children@.len() ==> !(wanted(pid, #[trigger] children@[k]) && has_exited(tasks, children@[k])),
            ChildSearch::Zombie(k) => is_first_exited(tasks, children@, pid, k as int),
        },
{
    let mut any = false;
    let mut k: usize = 0;
    while k < children.len()
        invariant
            k <= children@.len(),
            tasks.wf(),
            any == any_wanted(children@.subrange(0, k as int), pid),
            forall|j: int| 0 <= j < k ==> !(wanted(pid, #[trigger] children@[j]) && has_exited(tasks, children@[j])),
        decreases children@.len() - k,
    {
        let c = children[k];
        let ghost prefix = children@.subrange(0, k as int);
        let ghost longer = children@.subrange(0, k as int + 1);
        if pid == -1 || (pid >= 0 && pid as usize == c) {
            if let Some(i) = tasks.find(c) {
                if tasks.tasks[i].inner.is_zombie() {
                    return ChildSearch::Zombie(k);
                }
            }
            proof {
                assert(longer[k as int] == c);
            }
            any = true;
        } else {
            proof {
                if any_wanted(longer, pid) {
                    let j = choose|j: int| 0 <= j < longer.len() && wanted(pid, #[trigger] longer[j]);
                    assert(prefix[j] == longer[j]);
                }
                if any_wanted(prefix, pid) {
                    let j = choose|j: int| 0 <= j < prefix.len() && wanted(pid, #[trigger] prefix[j]);
                    assert(prefix[j] == longer[j]);
                }
            }
        }
        proof {
            if any_wanted(prefix, pid) {
                let j = choose|j: int| 0 <= j < prefix.len() && wanted(pid, #[trigger] prefix[j]);
                assert(prefix[j] == longer[j]);
            }
        }
        k += 1;
    }
    proof {
        assert(children@.subrange(0, k as int) =~= children@);
    }
    if any {
        ChildSearch::Pending
    } else {
        ChildSearch::NoChild
    }
}

/// The pipes after each file of `table` up to place `n` was closed.
pub open spec fn closed_all(pipes: Seq<PipeRingBuffer>, table: Seq<Option<FileDescriptor>>, n: int) -> Seq<
    PipeRingBuffer,
>
    decreases n,
{
    if n <= 0 {
        pipes
    } else {
        let before = closed_all(pipes, table, n - 1);
        match table[n - 1] {
            Some(file) => closed(before, file),
            None => before,
        }
    }
}

/// Notes that each file of `table` was closed.
pub fn note_close_all(pipes: &mut Vec<PipeRingBuffer>, table: &Vec<Option<FileDescriptor>>)
    ensures
        final(pipes)@ == closed_all(old(pipes)@, table@, table@.len() as int),
        final(pipes)@.len() == old(pipes)@.len(),
        forall|id: int|
            0 <= id < old(pipes)@.len() && (#[trigger] old(pipes)@[id]).wf() && old(pipes)@[id].write_end.is_some()
                ==> final(pipes)@[id].wf() && final(pipes)@[id].write_end.is_some(),
{
    let mut k: usize = 0;
    while k < table.len()
        invariant
            k <= table@.len(),
            pipes@ == closed_all(old(pipes)@, table@, k as int),
            pipes@.len() == old(pipes)@.len(),
            forall|id: int|
                0 <= id < old(pipes)@.len() && (#[trigger] old(pipes)@[id]).wf() && old(pipes)@[id].write_end.is_some()
                    ==> pipes@[id].wf() && pipes@[id].write_end.is_some(),
        decreases table@.len() - k,
    {
        if let Some(file) = table[k] {
            note_close(pipes, file);
        }
        k += 1;
    }
}

impl KernelStack {
    /// The first page of the kernel stack.
    #[verifier::opaque]
    pub open spec fn first_page(&self) -> u64 {
        stack_start(self.pid)
    }

    /// The first page of the kernel stack.
    pub fn start_page(&self) -> (r: VirtPageNum)
        requires
            self.pid < 0x100_0000,
        ensures
            r.0 == self.first_page(),
    {
        reveal(KernelStack::first_page);
        let (bottom, _) = kernel_stack_position(self.pid);
        VirtAddr(bottom).floor()
    }

    /// Takes the kernel stack out of the address space of the kernel; its
    /// pages go back to the pool.
    pub fn release(self, kernel_space: &mut MemorySet, pool: &mut FramePool)
        requires
            self.pid < 0x100_0000,
            old(kernel_space).wf(old(pool)),
            old(kernel_space).has_area_at(self.first_page()) ==> old(kernel_space).stands_apart(
                old(kernel_space).area_at(self.first_page()),
            ),
        ensures
            final(kernel_space).wf(final(pool)),
            final(kernel_space).page_table == old(kernel_space).page_table,
            !old(kernel_space).has_area_at(self.first_page()) ==> *final(kernel_space) == *old(kernel_space)
                && *final(pool) == *old(pool),
            old(kernel_space).has_area_at(self.first_page()) ==> {
                let a = old(kernel_space).area_at(self.first_page());
                let area = old(kernel_space).areas@[a];
                &&& final(kernel_space).areas@ == old(kernel_space).areas@.remove(a)
                &&& forall|v: u64|
                    area.start() <= v < area.end() ==> (#[trigger] final(kernel_space).lookup(final(pool), v)).is_none()
            },
            final(pool).wf(),
            final(pool).memory.base() == old(pool).memory.base(),
            final(pool).memory.count() == old(pool).memory.count(),
            forall|p: u64|
                !old(kernel_space).page_table.tables().owns(p) ==> #[trigger] final(pool).mem()[p] == old(pool).mem()[p],
            forall|p: u64|
                old(pool).is_allocated(p) && !old(kernel_space).owns_data(p) ==> #[trigger] final(pool).is_allocated(p),
            forall|p: u64| #[trigger] final(kernel_space).owns(p) ==> old(kernel_space).owns(p),
            old(kernel_space).has_area_at(self.first_page()) ==> crate::mm::area_removal::mapped_alike(
                old(kernel_space),
                old(pool),
                final(kernel_space),
                final(pool),
                old(kernel_space).areas@[old(kernel_space).area_at(self.first_page())].start(),
                old(kernel_space).areas@[old(kernel_space).area_at(self.first_page())].end(),
            ) && crate::mm::area_removal::range_unmapped(
                final(kernel_space),
                final(pool),
                old(kernel_space).areas@[old(kernel_space).area_at(self.first_page())].start(),
                old(kernel_space).areas@[old(kernel_space).area_at(self.first_page())].end(),
            ),
    {
        let start = self.start_page();
        kernel_space.remove_area_with_start_vpn(start, pool);
    }
}

/// Gives back what the task `child`, which has exited, still holds: its
/// kernel stack, its number, its files, and the tables and pages of its
/// address space.
#[verifier::spinoff_prover]
pub fn reap(
    child: TCB,
    pid_allocator: &mut PidAllocator,
    pipes: &mut Vec<PipeRingBuffer>,
    kernel_space: &mut MemorySet,
    pool: &mut FramePool,
)
    requires
        old(pid_allocator)@.wf(),
        old(pid_allocator)@.is_allocated(child.pid.0),
        child.kernel_stack.pid < 0x100_0000,
        old(kernel_space).wf(old(pool)),
        child.inner.memory_set.wf(old(pool)),
        forall|p: u64| child.inner.memory_set.owns(p) ==> !old(kernel_space).owns(p),
        old(kernel_space).has_area_at(child.kernel_stack.first_page()) ==> old(kernel_space).stands_apart(
            old(kernel_space).area_at(child.kernel_stack.first_page()),
        ),
    ensures
        final(pid_allocator)@ == old(pid_allocator)@.after_dealloc(child.pid.0),
        final(pid_allocator)@.wf(),
        final(pipes)@ == closed_all(old(pipes)@, child.inner.fd_table@, child.inner.fd_table@.len() as int),
        final(pipes)@.len() == old(pipes)@.len(),
        forall|id: int|
            0 <= id < old(pipes)@.len() && (#[trigger] old(pipes)@[id]).wf() && old(pipes)@[id].write_end.is_some()
                ==> final(pipes)@[id].wf() && final(pipes)@[id].write_end.is_some(),
        final(kernel_space).wf(final(pool)),
        final(kernel_space).page_table == old(kernel_space).page_table,
        !old(kernel_space).has_area_at(child.kernel_stack.first_page()) ==> *final(kernel_space) == *old(kernel_space),
        old(kernel_space).has_area_at(child.kernel_stack.first_page()) ==> final(kernel_space).areas@ == old(kernel_space).areas@.remove(old(kernel_space).area_at(child.kernel_stack.first_page())),
        final(pool).wf(),
        final(pool).memory.base() == old(pool).memory.base(),
        final(pool).memory.count() == old(pool).memory.count(),
        forall|p: u64|
            !old(kernel_space).page_table.tables().owns(p) ==> #[trigger] final(pool).mem()[p] == old(pool).mem()[p],
        forall|p: u64| child.inner.memory_set.owns(p) ==> !(#[trigger] final(pool).is_allocated(p)),
        forall|p: u64|
            old(pool).is_allocated(p) && !child.inner.memory_set.owns(p) && !old(kernel_space).owns(p)
                ==> #[trigger] final(pool).is_allocated(p),
        forall|p: u64| final(kernel_space).owns(p) ==> #[trigger] final(pool).is_allocated(p),
        forall|p: u64| #[trigger] final(kernel_space).owns(p) ==> old(kernel_space).owns(p),
        old(kernel_space).has_area_at(child.kernel_stack.first_page()) ==> {
            let area = old(kernel_space).areas@[old(kernel_space).area_at(child.kernel_stack.first_page())];
            &&& crate::mm::area_removal::mapped_alike(
                old(kernel_space),
                old(pool),
                final(kernel_space),
                final(pool),
                area.start(),
                area.end(),
            )
            &&& crate::mm::area_removal::range_unmapped(final(kernel_space), final(pool), area.start(), area.end())
        },
{
    let TCB { pid, kernel_stack, inner } = child;
    let ghost ks0 = *kernel_space;
    let ghost ms = inner.memory_set;
    kernel_stack.release(kernel_space, pool);
    let ghost pool1 = *pool;
    proof {
        assert forall|p: u64| ms.owns(p) implies pool1.is_allocated(p) by {
            crate::mm::user_space::lemma_owned_allocated(&ms, old(pool), p);
            assert(!ks0.owns(p));
        }
        assert forall|p: u64| ms.page_table.tables().owns(p) implies #[trigger] pool1.mem()[p] == old(pool).mem()[p] by {
            assert(ms.owns(p));
            assert(!ks0.owns(p));
        }
        lemma_space_survives(&ms, old(pool), &pool1);
        lemma_pid_reuse(pid_allocator@, pid.0);
    }
    pid_allocator.dealloc(pid.0);
    note_close_all(pipes, &inner.fd_table);
    inner.memory_set.release(pool);
    proof {
        if ks0.has_area_at(kernel_stack.first_page()) {
            let area = ks0.areas@[ks0.area_at(kernel_stack.first_page())];
            assert(pool.mem() == pool1.mem());
            crate::mm::area_removal::lemma_alike_same_memory(
                &ks0,
                old(pool),
                kernel_space,
                &pool1,
                pool,
                area.start(),
                area.end(),
            );
            crate::mm::area_removal::lemma_unmapped_same_memory(kernel_space, &pool1, pool, area.start(), area.end());
        }
        assert forall|p: u64| kernel_space.owns(p) implies pool.is_allocated(p) by {
            crate::mm::user_space::lemma_owned_allocated(kernel_space, &pool1, p);
            assert(ks0.owns(p));
            assert(!ms.owns(p));
        }
        lemma_space_survives(kernel_space, &pool1, pool);
    }
}


/// The bytes in which the exit code `code` is handed to a task.
pub open spec fn code_bytes(code: i32) -> Seq<u8> {
    u32_bytes(
        if code >= 0 {
            code as u32
        } else {
            (code + 0x1_0000_0000) as u32
        },
    )
}

/// Whether `now` is the task `before` without the child at place `k` of its list.
pub open spec fn lost_child(before: &TCB, now: &TCB, k: int) -> bool {
    &&& now@ == (TaskView { children: before@.children.remove(k), ..before@ })
    &&& now.kernel_stack == before.kernel_stack
    &&& now.inner.memory_set == before.inner.memory_set
}

/// Whether `now` is the table `before` after the task at place `i` lost
/// the child at place `k` of its list, which was the task at place `gone`.
pub open spec fn table_without(before: Seq<TCB>, now: Seq<TCB>, i: int, k: int, gone: int) -> bool {
    &&& now.len() == before.len() - 1
    &&& forall|a: int|
        0 <= a < now.len() ==> {
            let b = if a < gone {
                a
            } else {
                a + 1
            };
            if b == i {
                lost_child(&before[b], #[trigger] &now[a], k)
            } else {
                now[a] == before[b]
            }
        }
}

/// Takes the child at place `k` of the list of the running task out of
/// that list and out of the table.
fn take_child<D: BlockDevice>(kernel: &mut Kernel<D>, i: usize, k: usize, gone: usize) -> (child: TCB)
    requires
        old(kernel).wf(),
        old(kernel).running(),
        i == old(kernel).cur(),
        i < old(kernel).tasks.tasks@.len(),
        k < old(kernel).tasks.tasks@[i as int].inner.children@.len(),
        gone < old(kernel).tasks.tasks@.len(),
        old(kernel).tasks.tasks@[gone as int].pid.0 == old(kernel).tasks.tasks@[i as int].inner.children@[k as int],
        old(kernel).tasks.tasks@[gone as int].inner.task_status == TaskStatus::Zombie,
        old(kernel).tasks.tasks@[gone as int].pid.0 != old(kernel).initproc,
    ensures
        final(kernel).wf(),
        final(kernel).running(),
        child == old(kernel).tasks.tasks@[gone as int],
        !final(kernel).tasks.has(child.pid.0),
        table_without(old(kernel).tasks.tasks@, final(kernel).tasks.tasks@, i as int, k as int, gone as int),
        final(kernel).env == old(kernel).env,
        final(kernel).pool == old(kernel).pool,
        final(kernel).kernel_space == old(kernel).kernel_space,
        final(kernel).pid_allocator == old(kernel).pid_allocator,
        final(kernel).manager == old(kernel).manager,
        final(kernel).processor == old(kernel).processor,
        final(kernel).initproc == old(kernel).initproc,
        final(kernel).pipes == old(kernel).pipes,
        final(kernel).files == old(kernel).files,
        final(kernel).fs == old(kernel).fs,
        final(kernel).root == old(kernel).root,
{
    let ghost k0 = *kernel;
    let parent = &mut kernel.tasks.tasks[i];
    parent.inner.children.remove(k);
    let ghost t1 = kernel.tasks;
    let child = kernel.tasks.tasks.remove(gone);
    proof {
        let before = k0.tasks.tasks@;
        let now = kernel.tasks.tasks@;
        assert(gone != i);
        assert forall|a: int| 0 <= a < before.len() implies (#[trigger] t1.tasks@[a]).pid == before[a].pid
            && t1.tasks@[a].inner.task_status == before[a].inner.task_status && t1.tasks@[a].kernel_stack
            == before[a].kernel_stack by {}
        assert forall|a: int| 0 <= a < gone implies (#[trigger] now[a]).pid == before[a].pid by {
            assert(now[a] == t1.tasks@[a]);
        }
        assert forall|a: int| gone <= a < now.len() implies (#[trigger] now[a]).pid == before[a + 1].pid by {
            assert(now[a] == t1.tasks@[a + 1]);
        }
        assert forall|p: usize| k0.tasks.has(p) && p != before[gone as int].pid.0 implies kernel.tasks.has(p) && ({
            let w = kernel.tasks.index_of(p);
            let j = k0.tasks.index_of(p);
            now[w].pid == before[j].pid && now[w].inner.task_status == before[j].inner.task_status
        }) by {
            crate::task::processor::lemma_index_removed(&k0.tasks, &kernel.tasks, gone as int, p);
            let j = k0.tasks.index_of(p);
            let w = kernel.tasks.index_of(p);
            if j < gone {
                assert(now[w] == t1.tasks@[j]);
            } else {
                assert(now[w] == t1.tasks@[j]);
            }
        }
        crate::task::processor::lemma_index_removed(&k0.tasks, &kernel.tasks, gone as int, k0.initproc);
        assert forall|j: int| 0 <= j < kernel.manager@.len() implies kernel.tasks.has(#[trigger] kernel.manager@[j])
            && kernel.tasks.tasks@[kernel.tasks.index_of(kernel.manager@[j])].inner.task_status
            == TaskStatus::Ready by {
            let p = k0.manager@[j];
            assert(k0.tasks.has(p));
            assert(before[k0.tasks.index_of(p)].inner.task_status == TaskStatus::Ready);
        }
        assert forall|a: int| 0 <= a < now.len() implies k0.pid_allocator@.is_allocated((#[trigger] now[a]).pid.0)
            && now[a].pid.0 < 0x100_0000 && now[a].kernel_stack.pid == now[a].pid.0 by {
            let b = if a < gone {
                a
            } else {
                a + 1
            };
            assert(now[a] == t1.tasks@[b]);
            assert(k0.pid_allocator@.is_allocated(before[b].pid.0));
        }
        assert forall|a: int| 0 <= a < now.len() implies {
            let b = if a < gone {
                a
            } else {
                a + 1
            };
            if b == i {
                lost_child(&before[b], #[trigger] &now[a], k as int)
            } else {
                now[a] == before[b]
            }
        } by {
            let b = if a < gone {
                a
            } else {
                a + 1
            };
            assert(now[a] == t1.tasks@[b]);
        }
    }
    child
}


impl<D: BlockDevice> Kernel<D> {
    /// Whether what the task `task`, which has exited, still holds can be
    /// given back: its address space is in order and shares no page with
    /// the address space of the kernel, and the page table of the kernel
    /// tells the pages of its kernel stack apart from the other pages that
    /// the kernel has mapped.
    pub open spec fn can_reap(&self, task: &TCB) -> bool {
        &&& task.pid.0 != self.initproc
        &&& task.inner.memory_set.wf(&self.pool)
        &&& forall|p: u64| task.inner.memory_set.owns(p) ==> !self.kernel_space.owns(p)
        &&& self.kernel_space.has_area_at(task.kernel_stack.first_page()) ==> self.kernel_space.stands_apart(
            self.kernel_space.area_at(task.kernel_stack.first_page()),
        )
    }

    /// Whether the place at which the running task is to find the exit
    /// code that it asked for at the address `ptr` lies in a page of an
    /// area of the task.
    pub open spec fn code_in_area(&self, ptr: u64) -> bool {
        match self.code_place(ptr) {
            Some((p, o)) => self.tasks.tasks@[self.cur()].inner.memory_set.owns_data(p),
            None => true,
        }
    }

    /// Where the running task is to find the exit code that it asked for
    /// at the address `ptr`: the page and the offset in it, if all four
    /// bytes lie in one page that the task has mapped.
    pub open spec fn code_place(&self, ptr: u64) -> Option<(u64, int)> {
        let root = self.tasks.tasks@[self.cur()].inner.memory_set.page_table.root_ppn.0;
        match user_place(self.pool.mem(), ((8u64 << 60) | root) & 0xfff_ffff_ffff, ptr) {
            Some((p, o)) => if o + 4 <= 4096 {
                Some((p, o))
            } else {
                None
            },
            None => None,
        }
    }
}

/// The running task asks for a child that has exited: for any child where
/// `pid` is -1, else for the child with the number `pid`. Returns -1 where
/// it has no such child, and -2 where it has one but none that has exited.
/// Else the first such child in the list of its children leaves the list
/// and the table and gives back what it held, its exit code is written to
/// the user address `exit_code_ptr`, and its number is returned. Where the
/// exit code cannot be written there, nothing changes and -1 is returned.
#[verifier::spinoff_prover]
pub fn sys_waitpid<D: BlockDevice>(kernel: &mut Kernel<D>, pid: isize, exit_code_ptr: u64) -> (r: isize)
    requires
        old(kernel).wf(),
        old(kernel).running(),
        old(kernel).pool.wf(),
        old(kernel).kernel_space.wf(&old(kernel).pool),
        forall|j: int|
            0 <= j < old(kernel).tasks.tasks@.len() && (#[trigger] old(kernel).tasks.tasks@[j]).inner.task_status
                == TaskStatus::Zombie ==> old(kernel).can_reap(&old(kernel).tasks.tasks@[j]),
    ensures
        final(kernel).wf(),
        final(kernel).running(),
        final(kernel).env == old(kernel).env,
        final(kernel).processor == old(kernel).processor,
        final(kernel).manager == old(kernel).manager,
        old(kernel).mem_ok() ==> final(kernel).mem_ok(),
        old(kernel).family_ok() ==> final(kernel).family_ok(),
        old(kernel).mem_ok() && old(kernel).stacks_ok() ==> final(kernel).stacks_ok(),
        old(kernel).pipes_wf() ==> final(kernel).pipes_wf(),
        ({
            let i = old(kernel).cur();
            let children = old(kernel).tasks.tasks@[i].inner.children@;
            let tasks = &old(kernel).tasks;
            &&& !any_wanted(children, pid) ==> r == -1
            &&& any_wanted(children, pid) && (forall|k: int|
                0 <= k < children.len() ==> !(wanted(pid, #[trigger] children[k]) && has_exited(tasks, children[k])))
                ==> r == -2
            &&& r == -2 || r == -1 ==> final(kernel).tasks == old(kernel).tasks && final(kernel).pool == old(kernel).pool && final(kernel).pid_allocator == old(kernel).pid_allocator && final(kernel).pipes == old(kernel).pipes && final(kernel).kernel_space == old(kernel).kernel_space
            &&& forall|k: int|
                is_first_exited(tasks, children, pid, k) ==> {
                    let c = children[k];
                    let gone = tasks.index_of(c);
                    let child = tasks.tasks@[gone];
                    match old(kernel).code_place(exit_code_ptr) {
                        None => r == -1,
                        Some((p, o)) => {
                            &&& r == c
                            &&& table_without(tasks.tasks@, final(kernel).tasks.tasks@, i, k, gone)
                            &&& !final(kernel).tasks.has(c)
                            &&& final(kernel).pid_allocator@ == old(kernel).pid_allocator@.after_dealloc(c)
                            &&& final(kernel).pipes@ == closed_all(
                                old(kernel).pipes@,
                                child.inner.fd_table@,
                                child.inner.fd_table@.len() as int,
                            )
                            &&& final(kernel).pool.wf()
                            &&& !old(kernel).kernel_space.page_table.tables().owns(p) ==> final(kernel).pool.mem()[p]
                                == splice(old(kernel).pool.mem()[p], o, code_bytes(child.inner.exit_code))
                                && final(kernel).kernel_space.wf(&final(kernel).pool)
                            &&& forall|q: u64|
                                q != p && !old(kernel).kernel_space.page_table.tables().owns(q)
                                    ==> #[trigger] final(kernel).pool.mem()[q] == old(kernel).pool.mem()[q]
                            &&& forall|q: u64|
                                child.inner.memory_set.owns(q) ==> !(#[trigger] final(kernel).pool.is_allocated(q))
                            &&& forall|q: u64|
                                old(kernel).pool.is_allocated(q) && !child.inner.memory_set.owns(q) && !old(kernel).kernel_space.owns(q) ==> #[trigger] final(kernel).pool.is_allocated(q)
                            &&& final(kernel).kernel_space.page_table == old(kernel).kernel_space.page_table
                            &&& final(kernel).kernel_space.areas@ == if old(kernel).kernel_space.has_area_at(
                                child.kernel_stack.first_page(),
                            ) {
                                old(kernel).kernel_space.areas@.remove(
                                    old(kernel).kernel_space.area_at(child.kernel_stack.first_page()),
                                )
                            } else {
                                old(kernel).kernel_space.areas@
                            }
                        },
                    }
                }
        }),
{
    proof {
        if kernel.mem_ok() {
            crate::syscall::file_io::lemma_place_in_area(kernel, exit_code_ptr);
            assert(kernel.code_in_area(exit_code_ptr));
        }
    }
    let i = kernel.current_index();
    let ghost k0 = *kernel;
    let found = find_child(&kernel.tasks, &kernel.tasks.tasks[i].inner.children, pid);
    match found {
        ChildSearch::NoChild => {
            proof {
                let children = k0.tasks.tasks@[i as int].inner.children@;
                assert forall|k: int| !is_first_exited(&k0.tasks, children, pid, k) by {
                    if is_first_exited(&k0.tasks, children, pid, k) {
                        assert(wanted(pid, children[k]));
                    }
                }
            }
            -1
        },
        ChildSearch::Pending => {
            proof {
                let children = k0.tasks.tasks@[i as int].inner.children@;
                assert forall|k: int| !is_first_exited(&k0.tasks, children, pid, k) by {}
            }
            -2
        },
        ChildSearch::Zombie(k) => {
            let c = kernel.tasks.tasks[i].inner.children[k];
            let gone = kernel.tasks.find(c).unwrap();
            proof {
                let children = k0.tasks.tasks@[i as int].inner.children@;
                assert forall|j: int| is_first_exited(&k0.tasks, children, pid, j) implies j == k by {
                    if j < k {
                        assert(!(wanted(pid, children[j]) && has_exited(&k0.tasks, children[j])));
                    } else if k < j {
                        assert(!(wanted(pid, children[k as int]) && has_exited(&k0.tasks, children[k as int])));
                    }
                }
                assert(k0.can_reap(&k0.tasks.tasks@[gone as int]));
                k0.pool.memory.lemma_view();
            }
            let token = kernel.tasks.tasks[i].inner.get_user_token();
            match translated_refmut(token, exit_code_ptr, &kernel.pool) {
                Some((ppn, offset)) => {
                    if offset > 4092 {
                        return -1;
                    }
                    let child = take_child(kernel, i, k, gone);
                    let code = child.inner.exit_code;
                    let ghost k1 = *kernel;
                    reap(child, &mut kernel.pid_allocator, &mut kernel.pipes, &mut kernel.kernel_space, &mut kernel.pool);
                    let ghost pool2 = kernel.pool;
                    proof {
                        if k0.pipes_wf() {
                            assert forall|id: int| 0 <= id < kernel.pipes@.len() implies (#[trigger] kernel.pipes@[id]).wf()
                                && kernel.pipes@[id].write_end.is_some() by {
                                assert(k0.pipes@[id].wf());
                            }
                        }
                    }
                    let bytes = code_to_bytes(code);
                    kernel.pool.memory.write_bytes(ppn.0, offset, bytes.as_slice());
                    proof {
                        let now = kernel.tasks.tasks@;
                        lemma_pid_reuse(k1.pid_allocator@, c);
                        assert forall|a: int| 0 <= a < now.len() implies kernel.pid_allocator@.is_allocated(
                            (#[trigger] now[a]).pid.0,
                        ) by {
                            assert(k1.pid_allocator@.is_allocated(now[a].pid.0));
                            assert(kernel.tasks.has(now[a].pid.0));
                        }
                        kernel.pool.memory.lemma_view();
                        pool2.memory.lemma_view();
                        assert forall|q: u64| k0.tasks.tasks@[gone as int].inner.memory_set.owns(q) implies !(
                        #[trigger] kernel.pool.is_allocated(q)) by {
                            assert(!pool2.is_allocated(q));
                        }
                        assert forall|q: u64|
                            k0.pool.is_allocated(q) && !k0.tasks.tasks@[gone as int].inner.memory_set.owns(q)
                                && !k0.kernel_space.owns(q) implies #[trigger] kernel.pool.is_allocated(q) by {
                            assert(pool2.is_allocated(q));
                        }
                        if !k0.kernel_space.page_table.tables().owns(ppn.0) {
                            assert forall|p: u64| kernel.kernel_space.owns(p) implies kernel.pool.is_allocated(p) by {
                                assert(pool2.is_allocated(p));
                            }
                            lemma_space_survives(&kernel.kernel_space, &pool2, &kernel.pool);
                        }
                        if k0.mem_ok() && k0.code_in_area(exit_code_ptr) {
                            assert(k0.space_ok(i as int)) by {
                                reveal(Kernel::mem_ok);
                            }
                            assert(k0.tasks.tasks@[i as int].inner.memory_set.owns(ppn.0));
                            assert(!k0.kernel_space.owns(ppn.0));
                            assert(gone != i);
                            assert forall|a: int| 0 <= a < now.len() implies {
                                let b = if a < gone {
                                    a
                                } else {
                                    a + 1
                                };
                                &&& (#[trigger] now[a]).inner.memory_set == k0.tasks.tasks@[b].inner.memory_set
                                &&& now[a].inner.trap_cx_ppn == k0.tasks.tasks@[b].inner.trap_cx_ppn
                                &&& now[a].inner.task_status == k0.tasks.tasks@[b].inner.task_status
                            } by {
                                let b = if a < gone {
                                    a
                                } else {
                                    a + 1
                                };
                                if b == i {
                                    assert(lost_child(&k0.tasks.tasks@[b], &now[a], k as int));
                                    assert(now[a]@.trap_cx_ppn == k0.tasks.tasks@[b]@.trap_cx_ppn);
                                    assert(now[a]@.status == k0.tasks.tasks@[b]@.status);
                                } else {
                                    assert(now[a] == k0.tasks.tasks@[b]);
                                }
                            }
                            crate::kernel::lemma_mem_after_reap(&k0, kernel, gone as int, i as int, ppn.0);
                            if k0.stacks_ok() {
                                lemma_stacks_after_reap(&k0, &k1, &pool2, kernel, gone as int);
                            }
                        }
                        if k0.family_ok() {
                            lemma_family_after_reap(&k0, kernel, i as int, k as int, gone as int);
                        }
                    }
                    c as isize
                },
                None => -1,
            }
        },
    }
}

/// The four bytes in which the exit code `code` is handed to a task.
pub fn code_to_bytes(code: i32) -> (r: Vec<u8>)
    ensures
        r@ == code_bytes(code),
{
    let word: u32 = if code >= 0 {
        code as u32
    } else {
        ((code as i64) + 0x1_0000_0000) as u32
    };
    let mut bytes: Vec<u8> = vec![0u8, 0u8, 0u8, 0u8];
    crate::codec::write_u32(bytes.as_mut_slice(), 0, word);
    proof {
        crate::codec::lemma_with_u32_same(seq![0u8, 0u8, 0u8, 0u8], 0, word);
        assert(bytes@ =~= u32_bytes(word));
    }
    bytes
}


/// The families stay in order where the child at place `k` of the list
/// of the task at place `i`, which is the task at place `gone`, leaves
/// that list and the table.
pub proof fn lemma_family_after_reap<D: BlockDevice>(before: &Kernel<D>, after: &Kernel<D>, i: int, k: int, gone: int)
    requires
        before.family_ok(),
        before.wf(),
        after.tasks.wf(),
        after.initproc == before.initproc,
        0 <= i < before.tasks.tasks@.len(),
        0 <= gone < before.tasks.tasks@.len(),
        i != gone,
        0 <= k < before.tasks.tasks@[i].inner.children@.len(),
        before.tasks.tasks@[gone].pid.0 == before.tasks.tasks@[i].inner.children@[k],
        table_without(before.tasks.tasks@, after.tasks.tasks@, i, k, gone),
    ensures
        after.family_ok(),
{
    reveal(Kernel::family_ok);
    let c = before.tasks.tasks@[gone].pid.0;
    let place = |a: int|
        if a < gone {
            a
        } else {
            a + 1
        };
    assert(before.child_ok(i, k));
    assert forall|a: int| 0 <= a < after.tasks.tasks@.len() implies (#[trigger] after.tasks.tasks@[a]).pid
        == before.tasks.tasks@[place(a)].pid && after.tasks.tasks@[a].inner.parent
        == before.tasks.tasks@[place(a)].inner.parent && after.tasks.tasks@[a].inner.task_status
        == before.tasks.tasks@[place(a)].inner.task_status && after.tasks.tasks@[a].inner.children@ == if place(a)
        == i {
        before.tasks.tasks@[i].inner.children@.remove(k)
    } else {
        before.tasks.tasks@[place(a)].inner.children@
    } by {
        let b = place(a);
        if b == i {
            assert(lost_child(&before.tasks.tasks@[b], &after.tasks.tasks@[a], k));
            assert(after.tasks.tasks@[a]@.pid == before.tasks.tasks@[b]@.pid);
            assert(after.tasks.tasks@[a]@.parent == before.tasks.tasks@[b]@.parent);
            assert(after.tasks.tasks@[a]@.status == before.tasks.tasks@[b]@.status);
            assert(after.tasks.tasks@[a]@.children == before.tasks.tasks@[b]@.children.remove(k));
        } else {
            assert(after.tasks.tasks@[a] == before.tasks.tasks@[b]);
        }
    }
    assert forall|p: usize| before.tasks.has(p) && p != c implies after.tasks.has(p) && place(after.tasks.index_of(p))
        == before.tasks.index_of(p) by {
        crate::task::processor::lemma_index_removed(&before.tasks, &after.tasks, gone, p);
    }
    assert forall|a: int, m: int|
        0 <= a < after.tasks.tasks@.len() && 0 <= m < after.tasks.tasks@[a].inner.children@.len() implies #[trigger] after.child_ok(
        a,
        m,
    ) by {
        let b = place(a);
        let old_list = before.tasks.tasks@[b].inner.children@;
        let m0 = if b == i && m >= k {
            m + 1
        } else {
            m
        };
        let x = after.tasks.tasks@[a].inner.children@[m];
        assert(x == old_list[m0]);
        assert(before.child_ok(b, m0));
        assert(x != c) by {
            if x == c {
                if b == i {
                    if m0 < k {
                        assert(before.child_ok(i, k));
                    } else {
                        assert(before.child_ok(i, m0));
                    }
                } else {
                    assert(before.tasks.tasks@[b].pid.0 == before.tasks.tasks@[i].pid.0);
                }
            }
        }
        let w = before.tasks.index_of(x);
        assert(before.tasks.tasks@[w].pid.0 == x);
        assert(w != gone);
        let v = after.tasks.index_of(x);
        assert(place(v) == w);
        assert forall|q: int| 0 <= q < m implies after.tasks.tasks@[a].inner.children@[q] != x by {
            let q0 = if b == i && q >= k {
                q + 1
            } else {
                q
            };
            assert(after.tasks.tasks@[a].inner.children@[q] == old_list[q0]);
            assert(q0 < m0);
        }
    }
    assert(before.tasks.has(before.initproc));
    let ip = before.tasks.index_of(before.initproc);
    assert(before.tasks.tasks@[ip].pid.0 == before.initproc);
    assert(ip != gone);
    assert(place(after.tasks.index_of(before.initproc)) == ip);
}


/// The kernel stacks stay in order where a task that has exited was taken
/// out of the table and gave back what it held: `taken` is the kernel
/// after the task left the table, `pool2` the pool after it gave back
/// what it held, and `after` the kernel after its exit code was stored.
pub proof fn lemma_stacks_after_reap<D: BlockDevice>(
    before: &Kernel<D>,
    taken: &Kernel<D>,
    pool2: &FramePool,
    after: &Kernel<D>,
    gone: int,
)
    requires
        before.stacks_ok(),
        before.wf(),
        before.kernel_space.wf(&before.pool),
        0 <= gone < before.tasks.tasks@.len(),
        taken.kernel_space == before.kernel_space,
        taken.pool == before.pool,
        taken.pid_allocator == before.pid_allocator,
        after.tasks == taken.tasks,
        after.pid_allocator@ == before.pid_allocator@.after_dealloc(before.tasks.tasks@[gone].pid.0),
        after.tasks.tasks@.len() == before.tasks.tasks@.len() - 1,
        forall|i: int|
            0 <= i < after.tasks.tasks@.len() ==> (#[trigger] after.tasks.tasks@[i]).pid == before.tasks.tasks@[if i < gone {
                i
            } else {
                i + 1
            }].pid,
        ({
            let child = before.tasks.tasks@[gone];
            before.kernel_space.has_area_at(child.kernel_stack.first_page()) ==> {
                let area = before.kernel_space.areas@[before.kernel_space.area_at(child.kernel_stack.first_page())];
                &&& after.kernel_space.areas@ == before.kernel_space.areas@.remove(
                    before.kernel_space.area_at(child.kernel_stack.first_page()),
                )
                &&& crate::mm::area_removal::mapped_alike(
                    &before.kernel_space,
                    &before.pool,
                    &after.kernel_space,
                    pool2,
                    area.start(),
                    area.end(),
                )
                &&& crate::mm::area_removal::range_unmapped(&after.kernel_space, pool2, area.start(), area.end())
            }
        }),
        forall|v: u64| #[trigger] after.kernel_space.lookup(&after.pool, v) == after.kernel_space.lookup(pool2, v),
    ensures
        after.stacks_ok(),
{
    reveal(Kernel::stacks_ok);
    reveal(KernelStack::first_page);
    let child = before.tasks.tasks@[gone];
    let c = child.pid.0;
    assert(child.kernel_stack.pid == c);
    assert(before.kernel_space.has_area_at(stack_start(c)));
    let a = before.kernel_space.area_at(stack_start(c));
    let area = before.kernel_space.areas@[a];
    crate::mm::area_removal::lemma_alike_same_memory(
        &before.kernel_space,
        &before.pool,
        &after.kernel_space,
        pool2,
        &after.pool,
        area.start(),
        area.end(),
    );
    crate::mm::area_removal::lemma_unmapped_same_memory(&after.kernel_space, pool2, &after.pool, area.start(), area.end());
    assert(before.pid_allocator@.is_allocated(c));
    crate::kernel_stacks::lemma_stacks_without_task(before, after, gone);
}

} // verus!
