use vstd::prelude::*;
use crate::easy_fs::block_dev::BlockDevice;
use crate::easy_fs::efs::EasyFileSystem;
use crate::easy_fs::vfs::Inode;
use crate::fs::inode::OSInode;
use crate::fs::pipe::PipeRingBuffer;
use crate::mm::frame_allocator::FramePool;
use crate::mm::memory_set::MemorySet;
use crate::task::manager::TaskManager;
use crate::task::pid::PidAllocator;
use crate::task::processor::{Processor, TaskTable};
use crate::config::MEMORY_END;
use crate::mm::address::{key_of, PhysAddr};
use crate::mm::elf::ElfImage;
use crate::mm::frame_allocator::init_frame_allocator;
use crate::mm::memory_set::{lemma_walk_key, map_cost, page_up, KernelLayout};
use crate::mm::user_space::{lemma_owned_allocated, lemma_space_kept, lemma_space_survives};
use crate::task::add_initproc;
use crate::task::pid::{lemma_pid_fresh, stack_end, stack_start};
use crate::task::task::{KernelEnv, TaskStatus, TCB};

verus! {

/// The state of the kernel: the pool of pages, the address space of the
/// kernel, the tasks with the allocator of their numbers, the tasks that
/// are ready, the processor, the pipes, the open files and the file system.
pub struct Kernel<D: BlockDevice> {
    pub env: KernelEnv,
    pub pool: FramePool,
    pub kernel_space: MemorySet,
    pub pid_allocator: PidAllocator,
    pub tasks: TaskTable,
    pub manager: TaskManager,
    pub processor: Processor,
    /// The number of the first task, which takes over the children of tasks that exit.
    pub initproc: usize,
    pub pipes: Vec<PipeRingBuffer>,
    pub files: Vec<OSInode>,
    pub fs: EasyFileSystem<D>,
    /// The root directory of the file system.
    pub root: Inode,
}

impl<D: BlockDevice> Kernel<D> {
    /// The books of the kernel are in order: no two tasks have the same
    /// number, the number of each task is in use and small enough for its
    /// kernel stack to lie in the address space, the first task is there,
    /// the running task is there and is running, and each task that is
    /// ready is there and is ready, and waits at one place of the queue.
    pub open spec fn wf(&self) -> bool {
        &&& self.tasks.wf()
        &&& self.pid_allocator@.wf()
        &&& forall|i: int|
            0 <= i < self.tasks.tasks@.len() ==> self.pid_allocator@.is_allocated(
                (#[trigger] self.tasks.tasks@[i]).pid.0,
            ) && self.tasks.tasks@[i].pid.0 < 0x100_0000 && self.tasks.tasks@[i].kernel_stack.pid
                == self.tasks.tasks@[i].pid.0
        &&& self.tasks.has(self.initproc)
        &&& self.processor.current.is_some() ==> self.tasks.has(self.processor.current.unwrap())
            && self.tasks.tasks@[self.tasks.index_of(self.processor.current.unwrap())].inner.task_status
            == TaskStatus::Running
        &&& forall|k: int|
            0 <= k < self.manager@.len() ==> self.tasks.has(#[trigger] self.manager@[k])
                && self.tasks.tasks@[self.tasks.index_of(self.manager@[k])].inner.task_status
                == TaskStatus::Ready
        &&& forall|a: int, b: int|
            0 <= a < b < self.manager@.len() ==> #[trigger] self.manager@[a] != #[trigger] self.manager@[b]
    }

    /// The address space of the task at place `i` of the table is in
    /// order, shares no page with the address space of the kernel, and, as
    /// long as the task has not exited, is the address space of a user task
    /// in which nothing is mapped but the trampoline and the areas.
    pub open spec fn space_ok(&self, i: int) -> bool {
        let t = self.tasks.tasks@[i];
        &&& t.inner.memory_set.wf(&self.pool)
        &&& forall|p: u64| t.inner.memory_set.owns(p) ==> !self.kernel_space.owns(p)
        &&& t.inner.task_status != TaskStatus::Zombie ==> t.is_user_task(&self.pool, self.env.strampoline.0)
            && t.inner.memory_set.only_areas(&self.pool)
    }

    /// The memory is in order: the pool, the address space of the kernel
    /// and that of each task; and no page belongs to two tasks.
    #[verifier::opaque]
    pub open spec fn mem_ok(&self) -> bool {
        &&& self.pool.wf()
        &&& self.kernel_space.wf(&self.pool)
        &&& forall|i: int| 0 <= i < self.tasks.tasks@.len() ==> #[trigger] self.space_ok(i)
        &&& forall|i: int, j: int, p: u64|
            0 <= i < self.tasks.tasks@.len() && 0 <= j < self.tasks.tasks@.len() && i != j
                && #[trigger] self.tasks.tasks@[i].inner.memory_set.owns(p) ==> !#[trigger] self.tasks.tasks@[j].inner.memory_set.owns(
                p,
            )
    }

    /// Child `k` of the task at place `i` is in the table, is neither the
    /// first task nor the task itself, has the task as its parent, and
    /// stands once in the list of the children.
    pub open spec fn child_ok(&self, i: int, k: int) -> bool {
        let t = self.tasks.tasks@[i];
        let c = t.inner.children@[k];
        &&& self.tasks.has(c)
        &&& c != self.initproc
        &&& c != t.pid.0
        &&& self.tasks.tasks@[self.tasks.index_of(c)].inner.parent == Some(t.pid.0)
        &&& forall|m: int| 0 <= m < k ==> t.inner.children@[m] != c
    }

    /// The families are in order: each child of each task is a task
    /// whose parent the task is, and the first task has not exited.
    #[verifier::opaque]
    pub open spec fn family_ok(&self) -> bool {
        &&& forall|i: int, k: int|
            0 <= i < self.tasks.tasks@.len() && 0 <= k < self.tasks.tasks@[i].inner.children@.len()
                ==> #[trigger] self.child_ok(i, k)
        &&& self.tasks.tasks@[self.tasks.index_of(self.initproc)].inner.task_status != TaskStatus::Zombie
    }

    /// Whether a task runs on the processor.
    pub open spec fn running(&self) -> bool {
        self.processor.current.is_some()
    }

    /// The place in the table of the running task.
    pub open spec fn cur(&self) -> int {
        self.tasks.index_of(self.processor.current.unwrap())
    }

    /// The place in the table of the running task.
    pub fn current_index(&self) -> (i: usize)
        requires
            self.wf(),
            self.running(),
        ensures
            i == self.cur(),
            i < self.tasks.tasks@.len(),
            self.tasks.tasks@[i as int].pid.0 == self.processor.current.unwrap(),
    {
        let pid = self.processor.current.unwrap();
        self.tasks.find(pid).unwrap()
    }
}


impl<D: BlockDevice> Kernel<D> {
    /// The kernel at start, for a machine whose kernel lies in memory as
    /// `layout` says: the pool holds the pages behind the kernel, the
    /// kernel has its address space, and the first task, made from the ELF
    /// file `elf` with the bytes `elf_data`, is ready to run. `fs` is the
    /// file system and `root` its root directory.
    #[verifier::spinoff_prover]
    pub fn new(
        layout: &KernelLayout,
        trap_handler: u64,
        trap_return: u64,
        sstatus: u64,
        elf: &ElfImage,
        elf_data: &[u8],
        fs: EasyFileSystem<D>,
        root: Inode,
    ) -> (r: Self)
        requires
            layout.wf(),
            layout.strampoline < layout.ekernel,
            elf.loadable(elf_data@.len() as int),
            MEMORY_END / 4096 - page_up(layout.ekernel) >= layout.cost() + elf.cost() + map_cost(
                stack_start(0) as int,
                stack_end(0) as int,
                true,
            ),
        ensures
            r.wf(),
            !r.running(),
            r.initproc == 0,
            r.manager@ == seq![0usize],
            r.tasks.tasks@.len() == 1,
            r.tasks.tasks@[0].pid.0 == 0,
            r.tasks.tasks@[0].started(elf, elf_data@, &r.env, sstatus, &r.kernel_space, &r.pool),
            r.env == (KernelEnv { strampoline: PhysAddr(layout.strampoline), trap_handler, trap_return }),
            r.mem_ok(),
            r.family_ok(),
            r.stacks_ok(),
            r.pipes@.len() == 0,
            r.files@.len() == 0,
            r.fs == fs,
            r.root == root,
    {
        let mut pool = init_frame_allocator(layout.ekernel);
        let ghost base = pool.memory.base();
        proof {
            assert(layout.strampoline / 4096 < base);
            elf.lemma_cost_from(0);
            crate::mm::memory_set::lemma_map_cost_nonneg(stack_start(0) as int, stack_end(0) as int, true);
        }
        let mut kernel_space = MemorySet::new_kernel(layout, &mut pool);
        let env = KernelEnv { strampoline: PhysAddr(layout.strampoline), trap_handler, trap_return };
        let mut pid_allocator = PidAllocator::new();
        proof {
            lemma_pid_fresh(pid_allocator@);
            lemma_first_stack_free(&kernel_space, &pool, layout);
        }
        let ghost ks1 = kernel_space;
        let ghost pool1 = pool;
        let initproc = TCB::new(elf, elf_data, &env, sstatus, &mut pid_allocator, &mut kernel_space, &mut pool);
        let initproc_pid = initproc.getpid();
        let mut tasks = TaskTable::new();
        tasks.tasks.push(initproc);
        let mut manager = TaskManager::new();
        add_initproc(&mut manager, initproc_pid);
        let r = Kernel {
            env,
            pool,
            kernel_space,
            pid_allocator,
            tasks,
            manager,
            processor: Processor::new(),
            initproc: initproc_pid,
            pipes: Vec::new(),
            files: Vec::new(),
            fs,
            root,
        };
        proof {
            assert(r.tasks.tasks@[0].pid.0 == 0);
            assert(r.tasks.has(0usize));
            assert(r.tasks.index_of(0usize) == 0);
            assert(r.manager@ =~= seq![0usize]);
            assert(r.pool.memory.base() == base);
            r.pool.memory.lemma_view();
            assert(!r.pool.memory.has((layout.strampoline / 4096) as u64));
            elf.lemma_image_task_space(&r.tasks.tasks@[0].inner.memory_set, &r.pool, elf_data@, layout.strampoline);
            elf.lemma_image_facts(&r.tasks.tasks@[0].inner.memory_set, &r.pool, elf_data@, layout.strampoline);
            elf.lemma_only_areas_of_image(&r.tasks.tasks@[0].inner.memory_set, &r.pool, elf_data@, layout.strampoline);
            assert(r.space_ok(0));
            lemma_first_mem(&r);
            lemma_first_family(&r);
            lemma_first_stacks(&r, &ks1, &pool1, layout);
        }
        r
    }
}


impl<D: BlockDevice> Kernel<D> {
    /// One turn of the idle flow of control: the task that has been ready
    /// longest becomes the running task, and the switch to it is returned;
    /// `None`, and nothing changes, where no task is ready.
    pub fn run_next(&mut self) -> (r: Option<crate::task::processor::Switch>)
        requires
            old(self).wf(),
            !old(self).running(),
        ensures
            final(self).wf(),
            old(self).mem_ok() ==> final(self).mem_ok(),
            old(self).family_ok() ==> final(self).family_ok(),
            old(self).stacks_ok() ==> final(self).stacks_ok(),
            final(self).env == old(self).env,
            final(self).pool == old(self).pool,
            final(self).kernel_space == old(self).kernel_space,
            final(self).pid_allocator == old(self).pid_allocator,
            final(self).initproc == old(self).initproc,
            final(self).pipes == old(self).pipes,
            final(self).files == old(self).files,
            final(self).fs == old(self).fs,
            final(self).root == old(self).root,
            final(self).processor.idle_task_cx_ptr == old(self).processor.idle_task_cx_ptr,
            old(self).manager@.len() == 0 ==> r.is_none() && !final(self).running() && final(self).tasks == old(self).tasks && final(self).manager@ == old(self).manager@,
            old(self).manager@.len() > 0 ==> {
                let next = old(self).manager@[0];
                let i = old(self).tasks.index_of(next);
                &&& r == Some(
                    crate::task::processor::Switch {
                        from: crate::task::processor::ContextSlot::Idle,
                        to: crate::task::processor::ContextSlot::Task(next),
                    },
                )
                &&& final(self).processor.current == Some(next)
                &&& final(self).cur() == i
                &&& final(self).manager@ == old(self).manager@.subrange(1, old(self).manager@.len() as int)
                &&& final(self).tasks.tasks@.len() == old(self).tasks.tasks@.len()
                &&& final(self).tasks.tasks@[i]@ == (crate::task::task::TaskView {
                    status: TaskStatus::Running,
                    ..old(self).tasks.tasks@[i]@
                })
                &&& final(self).tasks.tasks@[i].inner.memory_set == old(self).tasks.tasks@[i].inner.memory_set
                &&& final(self).tasks.tasks@[i].kernel_stack == old(self).tasks.tasks@[i].kernel_stack
                &&& forall|j: int|
                    0 <= j < old(self).tasks.tasks@.len() && j != i ==> #[trigger] final(self).tasks.tasks@[j] == old(self).tasks.tasks@[j]
            },
    {
        let ghost k0 = *self;
        let r = self.processor.run(&mut self.tasks, &mut self.manager);
        proof {
            if k0.manager@.len() > 0 {
                let next = k0.manager@[0];
                let i = k0.tasks.index_of(next);
                let now = self.tasks.tasks@;
                assert(k0.tasks.has(next));
                assert forall|a: int| 0 <= a < now.len() implies (#[trigger] now[a]).pid == k0.tasks.tasks@[a].pid && (a != i
                    ==> now[a].inner.task_status == k0.tasks.tasks@[a].inner.task_status) && now[a].kernel_stack
                    == k0.tasks.tasks@[a].kernel_stack by {}
                assert forall|p: usize| k0.tasks.has(p) implies self.tasks.has(p) && self.tasks.index_of(p)
                    == k0.tasks.index_of(p) by {
                    crate::task::processor::lemma_index_stable(&k0.tasks, &self.tasks, p);
                }
                assert forall|k: int| 0 <= k < self.manager@.len() implies self.tasks.has(#[trigger] self.manager@[k])
                    && self.tasks.tasks@[self.tasks.index_of(self.manager@[k])].inner.task_status
                    == TaskStatus::Ready by {
                    assert(self.manager@[k] == k0.manager@[k + 1]);
                    assert(k0.tasks.has(k0.manager@[k + 1]));
                    assert(k0.manager@[0] != k0.manager@[k + 1]);
                    let w = k0.tasks.index_of(k0.manager@[k + 1]);
                    assert(w != i);
                }
                assert forall|a: int, b: int| 0 <= a < b < self.manager@.len() implies #[trigger] self.manager@[a]
                    != #[trigger] self.manager@[b] by {
                    assert(k0.manager@[a + 1] != k0.manager@[b + 1]);
                }
                assert forall|a: int| 0 <= a < now.len() implies self.pid_allocator@.is_allocated((#[trigger] now[a]).pid.0) by {
                    assert(k0.pid_allocator@.is_allocated(k0.tasks.tasks@[a].pid.0));
                }
                if k0.mem_ok() {
                    assert forall|a: int| 0 <= a < now.len() implies (#[trigger] now[a]).inner.memory_set
                        == k0.tasks.tasks@[a].inner.memory_set && now[a].inner.trap_cx_ppn
                        == k0.tasks.tasks@[a].inner.trap_cx_ppn && (k0.tasks.tasks@[a].inner.task_status
                        == TaskStatus::Zombie ==> now[a].inner.task_status == TaskStatus::Zombie) by {}
                    lemma_mem_kept(&k0, self);
                }
                if k0.family_ok() {
                    assert forall|a: int| 0 <= a < now.len() implies (#[trigger] now[a]).inner.parent
                        == k0.tasks.tasks@[a].inner.parent && now[a].inner.children@
                        == k0.tasks.tasks@[a].inner.children@ by {
                        if a == i {
                            assert(now[a]@.parent == k0.tasks.tasks@[a]@.parent);
                            assert(now[a]@.children == k0.tasks.tasks@[a]@.children);
                        }
                    }
                    lemma_family_kept(&k0, self);
                }
                if k0.stacks_ok() {
                    crate::kernel_stacks::lemma_stacks_kept(&k0, self);
                }
            } else {
                if k0.mem_ok() {
                    lemma_mem_kept(&k0, self);
                }
                if k0.family_ok() {
                    lemma_family_kept(&k0, self);
                }
                if k0.stacks_ok() {
                    crate::kernel_stacks::lemma_stacks_kept(&k0, self);
                }
            }
        }
        r
    }
}


/// The memory stays in order where the pool and the address space of the
/// kernel are the same, each task keeps its address space and the page of
/// its trap context, and no task that has exited comes back.
pub proof fn lemma_mem_kept<D: BlockDevice>(before: &Kernel<D>, after: &Kernel<D>)
    requires
        before.mem_ok(),
        after.pool == before.pool,
        after.kernel_space == before.kernel_space,
        after.env == before.env,
        after.tasks.tasks@.len() == before.tasks.tasks@.len(),
        forall|i: int|
            0 <= i < before.tasks.tasks@.len() ==> {
                &&& (#[trigger] after.tasks.tasks@[i]).inner.memory_set == before.tasks.tasks@[i].inner.memory_set
                &&& after.tasks.tasks@[i].inner.trap_cx_ppn == before.tasks.tasks@[i].inner.trap_cx_ppn
                &&& before.tasks.tasks@[i].inner.task_status == TaskStatus::Zombie ==> after.tasks.tasks@[i].inner.task_status
                    == TaskStatus::Zombie
            },
    ensures
        after.mem_ok(),
{
    reveal(Kernel::mem_ok);
    assert forall|i: int| 0 <= i < after.tasks.tasks@.len() implies #[trigger] after.space_ok(i) by {
        assert(before.space_ok(i));
        assert(after.tasks.tasks@[i].inner.memory_set == before.tasks.tasks@[i].inner.memory_set);
    }
    assert forall|i: int, j: int, p: u64|
        0 <= i < after.tasks.tasks@.len() && 0 <= j < after.tasks.tasks@.len() && i != j
            && #[trigger] after.tasks.tasks@[i].inner.memory_set.owns(p) implies !#[trigger] after.tasks.tasks@[j].inner.memory_set.owns(
        p,
    ) by {
        assert(after.tasks.tasks@[i].inner.memory_set == before.tasks.tasks@[i].inner.memory_set);
        assert(after.tasks.tasks@[j].inner.memory_set == before.tasks.tasks@[j].inner.memory_set);
        assert(before.tasks.tasks@[i].inner.memory_set.owns(p));
    }
}


/// The memory stays in order where a task is added whose pages were free
/// before: the pages that were in use are in use and, but for the tables
/// of the kernel, hold what they held; the pages that the kernel has
/// taken were free before; and the tasks that were there keep their
/// address spaces.
pub proof fn lemma_mem_with_task<D: BlockDevice>(before: &Kernel<D>, after: &Kernel<D>)
    requires
        before.mem_ok(),
        after.env == before.env,
        after.pool.wf(),
        after.kernel_space.wf(&after.pool),
        after.pool.memory.base() == before.pool.memory.base(),
        after.pool.memory.count() == before.pool.memory.count(),
        forall|p: u64| before.pool.is_allocated(p) ==> after.pool.is_allocated(p),
        forall|p: u64|
            before.pool.is_allocated(p) && !before.kernel_space.page_table.tables().owns(p) ==> #[trigger] after.pool.mem()[p]
                == before.pool.mem()[p],
        forall|p: u64| after.kernel_space.owns(p) && !before.kernel_space.owns(p) ==> !before.pool.is_allocated(p),
        after.tasks.tasks@.len() == before.tasks.tasks@.len() + 1,
        forall|i: int|
            0 <= i < before.tasks.tasks@.len() ==> {
                &&& (#[trigger] after.tasks.tasks@[i]).inner.memory_set == before.tasks.tasks@[i].inner.memory_set
                &&& after.tasks.tasks@[i].inner.trap_cx_ppn == before.tasks.tasks@[i].inner.trap_cx_ppn
                &&& before.tasks.tasks@[i].inner.task_status == TaskStatus::Zombie ==> after.tasks.tasks@[i].inner.task_status
                    == TaskStatus::Zombie
            },
        after.tasks.tasks@.last().is_user_task(&after.pool, after.env.strampoline.0),
        after.tasks.tasks@.last().inner.memory_set.only_areas(&after.pool),
        forall|p: u64| after.tasks.tasks@.last().inner.memory_set.owns(p) ==> !after.kernel_space.owns(p),
        forall|p: u64| after.tasks.tasks@.last().inner.memory_set.owns(p) ==> !before.pool.is_allocated(p),
    ensures
        after.mem_ok(),
{
    reveal(Kernel::mem_ok);
    let n = before.tasks.tasks@.len() as int;
    let child = after.tasks.tasks@.last();
    assert(child == after.tasks.tasks@[n]);
    assert(after.space_ok(n)) by {
        child.inner.memory_set.lemma_task_space_facts(&after.pool, after.env.strampoline.0, child.inner.trap_cx_ppn.0);
    }
    assert forall|i: int| 0 <= i < n implies #[trigger] after.space_ok(i) by {
        lemma_task_kept(before, after, i);
    }
    assert forall|i: int, j: int, p: u64|
        0 <= i < after.tasks.tasks@.len() && 0 <= j < after.tasks.tasks@.len() && i != j
            && #[trigger] after.tasks.tasks@[i].inner.memory_set.owns(p) implies !#[trigger] after.tasks.tasks@[j].inner.memory_set.owns(
        p,
    ) by {
        if i < n && j < n {
            assert(after.tasks.tasks@[i].inner.memory_set == before.tasks.tasks@[i].inner.memory_set);
            assert(after.tasks.tasks@[j].inner.memory_set == before.tasks.tasks@[j].inner.memory_set);
            assert(before.tasks.tasks@[i].inner.memory_set.owns(p));
        } else if i < n {
            assert(before.space_ok(i));
            assert(after.tasks.tasks@[i].inner.memory_set == before.tasks.tasks@[i].inner.memory_set);
            lemma_owned_allocated(&before.tasks.tasks@[i].inner.memory_set, &before.pool, p);
        } else {
            assert(before.space_ok(j));
            assert(after.tasks.tasks@[j].inner.memory_set == before.tasks.tasks@[j].inner.memory_set);
            if before.tasks.tasks@[j].inner.memory_set.owns(p) {
                lemma_owned_allocated(&before.tasks.tasks@[j].inner.memory_set, &before.pool, p);
            }
        }
    }
}

/// The address space of the task at place `i` stays in order where the
/// pages that were in use are in use and, but for the tables of the
/// kernel, hold what they held, and the pages that the kernel has taken
/// were free before.
pub proof fn lemma_task_kept<D: BlockDevice>(before: &Kernel<D>, after: &Kernel<D>, i: int)
    requires
        0 <= i < before.tasks.tasks@.len(),
        i < after.tasks.tasks@.len(),
        before.pool.wf(),
        before.space_ok(i),
        after.env == before.env,
        after.pool.wf(),
        after.pool.memory.base() == before.pool.memory.base(),
        after.pool.memory.count() == before.pool.memory.count(),
        forall|p: u64| before.pool.is_allocated(p) ==> after.pool.is_allocated(p),
        forall|p: u64|
            before.pool.is_allocated(p) && !before.kernel_space.page_table.tables().owns(p) ==> #[trigger] after.pool.mem()[p]
                == before.pool.mem()[p],
        forall|p: u64| after.kernel_space.owns(p) && !before.kernel_space.owns(p) ==> !before.pool.is_allocated(p),
        after.tasks.tasks@[i].inner.memory_set == before.tasks.tasks@[i].inner.memory_set,
        after.tasks.tasks@[i].inner.trap_cx_ppn == before.tasks.tasks@[i].inner.trap_cx_ppn,
        before.tasks.tasks@[i].inner.task_status == TaskStatus::Zombie ==> after.tasks.tasks@[i].inner.task_status
            == TaskStatus::Zombie,
    ensures
        after.space_ok(i),
{
    reveal(Kernel::mem_ok);
    let t = before.tasks.tasks@[i];
    let ms = t.inner.memory_set;
    assert forall|p: u64| ms.owns(p) implies #[trigger] after.pool.mem()[p] == before.pool.mem()[p] && !after.kernel_space.owns(
        p,
    ) by {
        lemma_owned_allocated(&ms, &before.pool, p);
        assert(!before.kernel_space.owns(p));
    }
    lemma_space_kept(&ms, &before.pool, &after.pool);
    if t.inner.task_status != TaskStatus::Zombie {
        assert forall|p: u64| ms.page_table.tables().owns(p) implies #[trigger] after.pool.mem()[p] == before.pool.mem()[p] by {
            assert(ms.owns(p));
        }
        ms.lemma_task_space_kept(&before.pool, &after.pool, before.env.strampoline.0, t.inner.trap_cx_ppn.0);
        ms.lemma_only_areas_kept(&before.pool, &after.pool);
    }
}


/// The memory stays in order where the task at place `i` gives pages of
/// its own back to the pool and has exited: the memory holds what it
/// held, every other page that was in use is in use, and the other tasks
/// keep their address spaces.
pub proof fn lemma_mem_after_release<D: BlockDevice>(before: &Kernel<D>, after: &Kernel<D>, i: int)
    requires
        before.mem_ok(),
        0 <= i < before.tasks.tasks@.len(),
        after.env == before.env,
        after.kernel_space == before.kernel_space,
        after.pool.wf(),
        after.pool.memory == before.pool.memory,
        forall|p: u64|
            before.pool.is_allocated(p) && !before.tasks.tasks@[i].inner.memory_set.owns(p) ==> #[trigger] after.pool.is_allocated(
                p,
            ),
        after.tasks.tasks@.len() == before.tasks.tasks@.len(),
        forall|j: int|
            0 <= j < before.tasks.tasks@.len() && j != i ==> {
                &&& (#[trigger] after.tasks.tasks@[j]).inner.memory_set == before.tasks.tasks@[j].inner.memory_set
                &&& after.tasks.tasks@[j].inner.trap_cx_ppn == before.tasks.tasks@[j].inner.trap_cx_ppn
                &&& before.tasks.tasks@[j].inner.task_status == TaskStatus::Zombie ==> after.tasks.tasks@[j].inner.task_status
                    == TaskStatus::Zombie
            },
        after.tasks.tasks@[i].inner.memory_set.wf(&after.pool),
        after.tasks.tasks@[i].inner.task_status == TaskStatus::Zombie,
        forall|p: u64| after.tasks.tasks@[i].inner.memory_set.owns(p) ==> before.tasks.tasks@[i].inner.memory_set.owns(p),
    ensures
        after.mem_ok(),
        forall|v: u64|
            #[trigger] after.kernel_space.page_table.lookup(&after.pool, v) == before.kernel_space.page_table.lookup(
                &before.pool,
                v,
            ),
{
    reveal(Kernel::mem_ok);
    let gone = before.tasks.tasks@[i].inner.memory_set;
    assert(before.space_ok(i));
    assert forall|p: u64| before.kernel_space.owns(p) implies after.pool.is_allocated(p) by {
        lemma_owned_allocated(&before.kernel_space, &before.pool, p);
        assert(!gone.owns(p));
    }
    lemma_space_survives(&before.kernel_space, &before.pool, &after.pool);
    assert forall|j: int| 0 <= j < after.tasks.tasks@.len() implies #[trigger] after.space_ok(j) by {
        if j != i {
            let t = before.tasks.tasks@[j];
            let ms = t.inner.memory_set;
            assert(before.space_ok(j));
            assert(after.tasks.tasks@[j].inner.memory_set == ms);
            assert forall|p: u64| ms.owns(p) implies after.pool.is_allocated(p) by {
                lemma_owned_allocated(&ms, &before.pool, p);
                assert(before.tasks.tasks@[j].inner.memory_set.owns(p));
                assert(!before.tasks.tasks@[i].inner.memory_set.owns(p));
            }
            lemma_space_survives(&ms, &before.pool, &after.pool);
            if t.inner.task_status != TaskStatus::Zombie {
                ms.lemma_task_space_survives(&before.pool, &after.pool, before.env.strampoline.0, t.inner.trap_cx_ppn.0);
                ms.lemma_only_areas_kept(&before.pool, &after.pool);
            }
        }
    }
    assert forall|a: int, b: int, p: u64|
        0 <= a < after.tasks.tasks@.len() && 0 <= b < after.tasks.tasks@.len() && a != b
            && #[trigger] after.tasks.tasks@[a].inner.memory_set.owns(p) implies !#[trigger] after.tasks.tasks@[b].inner.memory_set.owns(
        p,
    ) by {
        if a != i {
            assert(after.tasks.tasks@[a].inner.memory_set == before.tasks.tasks@[a].inner.memory_set);
        }
        if b != i {
            assert(after.tasks.tasks@[b].inner.memory_set == before.tasks.tasks@[b].inner.memory_set);
        }
        assert(before.tasks.tasks@[a].inner.memory_set.owns(p));
        if after.tasks.tasks@[b].inner.memory_set.owns(p) {
            assert(before.tasks.tasks@[b].inner.memory_set.owns(p));
        }
    }
}


/// The pages of the kernel stack of the first task are not mapped in the
/// address space of a kernel that was just made.
pub proof fn lemma_first_stack_free(kernel_space: &MemorySet, pool: &FramePool, layout: &KernelLayout)
    requires
        layout.wf(),
        kernel_space.areas@.len() == 5,
        forall|a: int| 0 <= a < 5 ==> (#[trigger] kernel_space.areas@[a]).end() == page_up(layout.sections()[a].1),
        forall|v: u64|
            v < 0x7ff_ffff && !kernel_space.in_area(v) ==> (#[trigger] kernel_space.page_table.lookup(pool, v)).is_none(),
    ensures
        forall|v: u64|
            stack_start(0) <= v < stack_end(0) ==> (#[trigger] kernel_space.page_table.lookup(pool, v)).is_none(),
{
    assert forall|v: u64| stack_start(0) <= v < stack_end(0) implies (#[trigger] kernel_space.page_table.lookup(
        pool,
        v,
    )).is_none() by {
        let k = key_of(v);
        assert(v == 0xF_FFFF_FFFF_FFFD || v == 0xF_FFFF_FFFF_FFFE);
        assert(0xF_FFFF_FFFF_FFFDu64 & 0x7ff_ffff == 0x7ff_fffd && 0xF_FFFF_FFFF_FFFEu64 & 0x7ff_ffff == 0x7ff_fffe
            && 0x7ff_fffdu64 & 0x7ff_ffff == 0x7ff_fffd && 0x7ff_fffeu64 & 0x7ff_ffff == 0x7ff_fffe) by (bit_vector);
        assert(key_of(k) == k);
        lemma_walk_key(pool.mem(), kernel_space.page_table.root_ppn.0, v, k);
        assert(!kernel_space.in_area(k)) by {
            layout.lemma_sections(0);
            layout.lemma_sections(1);
            layout.lemma_sections(2);
            layout.lemma_sections(3);
            layout.lemma_sections(4);
            if kernel_space.in_area(k) {
                let a = choose|a: int|
                    0 <= a < kernel_space.areas@.len() && (#[trigger] kernel_space.areas@[a]).start() <= k
                        < kernel_space.areas@[a].end();
                assert(kernel_space.areas@[a].end() == page_up(layout.sections()[a].1));
            }
        }
        assert(kernel_space.page_table.lookup(pool, k).is_none());
    }
}


/// The memory stays in order where the task at place `i` gets a new
/// address space in pages that were free, and gives the pages of the old
/// one back: the pages that were in use hold what they held, every page
/// that was in use and was not the task's is in use, and the other tasks
/// keep their address spaces.
pub proof fn lemma_mem_after_exec<D: BlockDevice>(before: &Kernel<D>, after: &Kernel<D>, i: int)
    requires
        before.mem_ok(),
        0 <= i < before.tasks.tasks@.len(),
        after.env == before.env,
        after.kernel_space == before.kernel_space,
        after.kernel_space.wf(&after.pool),
        after.pool.memory.base() == before.pool.memory.base(),
        after.pool.memory.count() == before.pool.memory.count(),
        forall|p: u64| before.pool.is_allocated(p) ==> #[trigger] after.pool.mem()[p] == before.pool.mem()[p],
        forall|p: u64|
            before.pool.is_allocated(p) && !before.tasks.tasks@[i].inner.memory_set.owns(p) ==> #[trigger] after.pool.is_allocated(
                p,
            ),
        after.tasks.tasks@.len() == before.tasks.tasks@.len(),
        forall|j: int|
            0 <= j < before.tasks.tasks@.len() && j != i ==> {
                &&& (#[trigger] after.tasks.tasks@[j]).inner.memory_set == before.tasks.tasks@[j].inner.memory_set
                &&& after.tasks.tasks@[j].inner.trap_cx_ppn == before.tasks.tasks@[j].inner.trap_cx_ppn
                &&& before.tasks.tasks@[j].inner.task_status == TaskStatus::Zombie ==> after.tasks.tasks@[j].inner.task_status
                    == TaskStatus::Zombie
            },
        after.tasks.tasks@[i].is_user_task(&after.pool, after.env.strampoline.0),
        after.tasks.tasks@[i].inner.memory_set.only_areas(&after.pool),
        forall|p: u64| after.tasks.tasks@[i].inner.memory_set.owns(p) ==> !before.pool.is_allocated(p),
    ensures
        after.mem_ok(),
        forall|v: u64|
            #[trigger] after.kernel_space.page_table.lookup(&after.pool, v) == before.kernel_space.page_table.lookup(
                &before.pool,
                v,
            ),
{
    reveal(Kernel::mem_ok);
    assert forall|p: u64| before.kernel_space.owns(p) implies after.pool.is_allocated(p) && #[trigger] after.pool.mem()[p]
        == before.pool.mem()[p] by {
        lemma_owned_allocated(&before.kernel_space, &before.pool, p);
        assert(before.space_ok(i));
        assert(!before.tasks.tasks@[i].inner.memory_set.owns(p));
    }
    assert forall|p: u64| before.kernel_space.page_table.tables().owns(p) implies #[trigger] after.pool.mem()[p]
        == before.pool.mem()[p] by {
        assert(before.kernel_space.owns(p));
    }
    lemma_space_survives(&before.kernel_space, &before.pool, &after.pool);
    let fresh = after.tasks.tasks@[i].inner.memory_set;
    assert(before.space_ok(i));
    assert(after.space_ok(i)) by {
        fresh.lemma_task_space_facts(&after.pool, after.env.strampoline.0, after.tasks.tasks@[i].inner.trap_cx_ppn.0);
        assert forall|p: u64| fresh.owns(p) implies !after.kernel_space.owns(p) by {
            if before.kernel_space.owns(p) {
                lemma_owned_allocated(&before.kernel_space, &before.pool, p);
            }
        }
    }
    assert forall|j: int| 0 <= j < after.tasks.tasks@.len() && j != i implies #[trigger] after.space_ok(j) by {
        let t = before.tasks.tasks@[j];
        let ms = t.inner.memory_set;
        assert(before.space_ok(j));
        assert(after.tasks.tasks@[j].inner.memory_set == ms);
        assert forall|p: u64| ms.owns(p) implies after.pool.is_allocated(p) && #[trigger] after.pool.mem()[p]
            == before.pool.mem()[p] by {
            lemma_owned_allocated(&ms, &before.pool, p);
            assert(before.tasks.tasks@[j].inner.memory_set.owns(p));
            assert(!before.tasks.tasks@[i].inner.memory_set.owns(p));
        }
        assert forall|p: u64| ms.page_table.tables().owns(p) implies #[trigger] after.pool.mem()[p] == before.pool.mem()[p] by {
            assert(ms.owns(p));
        }
        lemma_space_survives(&ms, &before.pool, &after.pool);
        if t.inner.task_status != TaskStatus::Zombie {
            ms.lemma_task_space_survives(&before.pool, &after.pool, before.env.strampoline.0, t.inner.trap_cx_ppn.0);
                ms.lemma_only_areas_kept(&before.pool, &after.pool);
        }
    }
    assert forall|a: int, b: int, p: u64|
        0 <= a < after.tasks.tasks@.len() && 0 <= b < after.tasks.tasks@.len() && a != b
            && #[trigger] after.tasks.tasks@[a].inner.memory_set.owns(p) implies !#[trigger] after.tasks.tasks@[b].inner.memory_set.owns(
        p,
    ) by {
        if a != i && b != i {
            assert(after.tasks.tasks@[a].inner.memory_set == before.tasks.tasks@[a].inner.memory_set);
            assert(after.tasks.tasks@[b].inner.memory_set == before.tasks.tasks@[b].inner.memory_set);
            assert(before.tasks.tasks@[a].inner.memory_set.owns(p));
        } else if a == i {
            assert(before.space_ok(b));
            assert(after.tasks.tasks@[b].inner.memory_set == before.tasks.tasks@[b].inner.memory_set);
            if before.tasks.tasks@[b].inner.memory_set.owns(p) {
                lemma_owned_allocated(&before.tasks.tasks@[b].inner.memory_set, &before.pool, p);
            }
        } else {
            assert(before.space_ok(a));
            assert(after.tasks.tasks@[a].inner.memory_set == before.tasks.tasks@[a].inner.memory_set);
            lemma_owned_allocated(&before.tasks.tasks@[a].inner.memory_set, &before.pool, p);
        }
    }
}


/// The memory stays in order where the task at place `gone` leaves the
/// table and gives back what it held, the kernel gives back pages of its
/// own, and bytes are stored in page `ppn`, a page of an area of the task
/// at place `i`: every other page that was in use is in use, every page
/// but `ppn` and the tables of the kernel holds what it held, and the
/// tasks that stay keep their address spaces.
pub proof fn lemma_mem_after_reap<D: BlockDevice>(before: &Kernel<D>, after: &Kernel<D>, gone: int, i: int, ppn: u64)
    requires
        before.mem_ok(),
        0 <= gone < before.tasks.tasks@.len(),
        0 <= i < before.tasks.tasks@.len(),
        i != gone,
        before.tasks.tasks@[i].inner.memory_set.owns_data(ppn),
        after.env == before.env,
        after.pool.wf(),
        after.pool.memory.base() == before.pool.memory.base(),
        after.pool.memory.count() == before.pool.memory.count(),
        after.kernel_space.wf(&after.pool),
        forall|p: u64| after.kernel_space.owns(p) ==> before.kernel_space.owns(p),
        forall|p: u64|
            before.pool.is_allocated(p) && !before.tasks.tasks@[gone].inner.memory_set.owns(p)
                && !before.kernel_space.owns(p) ==> #[trigger] after.pool.is_allocated(p),
        forall|p: u64|
            p != ppn && !before.kernel_space.page_table.tables().owns(p) ==> #[trigger] after.pool.mem()[p]
                == before.pool.mem()[p],
        after.tasks.tasks@.len() == before.tasks.tasks@.len() - 1,
        forall|a: int|
            0 <= a < after.tasks.tasks@.len() ==> {
                let b = if a < gone {
                    a
                } else {
                    a + 1
                };
                &&& (#[trigger] after.tasks.tasks@[a]).inner.memory_set == before.tasks.tasks@[b].inner.memory_set
                &&& after.tasks.tasks@[a].inner.trap_cx_ppn == before.tasks.tasks@[b].inner.trap_cx_ppn
                &&& before.tasks.tasks@[b].inner.task_status == TaskStatus::Zombie ==> after.tasks.tasks@[a].inner.task_status
                    == TaskStatus::Zombie
            },
    ensures
        after.mem_ok(),
{
    reveal(Kernel::mem_ok);
    let place = |a: int|
        if a < gone {
            a
        } else {
            a + 1
        };
    assert(before.space_ok(i));
    assert forall|a: int| 0 <= a < after.tasks.tasks@.len() implies #[trigger] after.space_ok(a) by {
        let b = place(a);
        let t = before.tasks.tasks@[b];
        let ms = t.inner.memory_set;
        assert(before.space_ok(b));
        assert(after.tasks.tasks@[a].inner.memory_set == ms);
        assert forall|p: u64| ms.owns(p) implies after.pool.is_allocated(p) && !after.kernel_space.owns(p) by {
            lemma_owned_allocated(&ms, &before.pool, p);
            assert(before.tasks.tasks@[b].inner.memory_set.owns(p));
            assert(!before.tasks.tasks@[gone].inner.memory_set.owns(p));
            assert(!before.kernel_space.owns(p));
        }
        assert forall|p: u64| ms.page_table.tables().owns(p) implies #[trigger] after.pool.mem()[p] == before.pool.mem()[p] by {
            assert(ms.owns(p));
            assert(!before.kernel_space.owns(p));
            if b == i {
                crate::mm::user_space::lemma_data_not_table(&ms, &before.pool, ppn);
            } else {
                assert(before.tasks.tasks@[i].inner.memory_set.owns(ppn));
                assert(!before.tasks.tasks@[b].inner.memory_set.owns(ppn));
            }
        }
        lemma_space_survives(&ms, &before.pool, &after.pool);
        if t.inner.task_status != TaskStatus::Zombie {
            ms.lemma_task_space_survives(&before.pool, &after.pool, before.env.strampoline.0, t.inner.trap_cx_ppn.0);
                ms.lemma_only_areas_kept(&before.pool, &after.pool);
        }
    }
    assert forall|a: int, b: int, p: u64|
        0 <= a < after.tasks.tasks@.len() && 0 <= b < after.tasks.tasks@.len() && a != b
            && #[trigger] after.tasks.tasks@[a].inner.memory_set.owns(p) implies !#[trigger] after.tasks.tasks@[b].inner.memory_set.owns(
        p,
    ) by {
        assert(after.tasks.tasks@[a].inner.memory_set == before.tasks.tasks@[place(a)].inner.memory_set);
        assert(after.tasks.tasks@[b].inner.memory_set == before.tasks.tasks@[place(b)].inner.memory_set);
        assert(before.tasks.tasks@[place(a)].inner.memory_set.owns(p));
    }
}


/// The memory stays in order where bytes are stored in pages of the areas
/// of the task at place `i` and nothing else changes.
pub proof fn lemma_mem_after_store<D: BlockDevice>(before: &Kernel<D>, after: &Kernel<D>, i: int)
    requires
        before.mem_ok(),
        0 <= i < before.tasks.tasks@.len(),
        after.env == before.env,
        after.kernel_space == before.kernel_space,
        after.tasks.tasks@.len() == before.tasks.tasks@.len(),
        forall|j: int|
            0 <= j < before.tasks.tasks@.len() ==> {
                &&& (#[trigger] after.tasks.tasks@[j]).inner.memory_set == before.tasks.tasks@[j].inner.memory_set
                &&& after.tasks.tasks@[j].inner.trap_cx_ppn == before.tasks.tasks@[j].inner.trap_cx_ppn
                &&& before.tasks.tasks@[j].inner.task_status == TaskStatus::Zombie ==> after.tasks.tasks@[j].inner.task_status
                    == TaskStatus::Zombie
            },
        after.pool.wf(),
        after.pool.allocator == before.pool.allocator,
        after.pool.memory.base() == before.pool.memory.base(),
        after.pool.memory.count() == before.pool.memory.count(),
        forall|p: u64|
            !before.tasks.tasks@[i].inner.memory_set.owns_data(p) ==> #[trigger] after.pool.mem()[p] == before.pool.mem()[p],
    ensures
        after.mem_ok(),
        forall|v: u64|
            #[trigger] after.kernel_space.page_table.lookup(&after.pool, v) == before.kernel_space.page_table.lookup(
                &before.pool,
                v,
            ),
{
    reveal(Kernel::mem_ok);
    let writer = before.tasks.tasks@[i].inner.memory_set;
    assert(before.space_ok(i));
    assert forall|p: u64| before.kernel_space.page_table.tables().owns(p) implies #[trigger] after.pool.mem()[p]
        == before.pool.mem()[p] by {
        assert(before.kernel_space.owns(p));
        assert(!writer.owns(p));
    }
    assert forall|p: u64| before.kernel_space.owns(p) implies after.pool.is_allocated(p) by {
        lemma_owned_allocated(&before.kernel_space, &before.pool, p);
    }
    lemma_space_survives(&before.kernel_space, &before.pool, &after.pool);
    assert forall|j: int| 0 <= j < after.tasks.tasks@.len() implies #[trigger] after.space_ok(j) by {
        let t = before.tasks.tasks@[j];
        let ms = t.inner.memory_set;
        assert(before.space_ok(j));
        assert(after.tasks.tasks@[j].inner.memory_set == ms);
        assert forall|p: u64| ms.owns(p) implies after.pool.is_allocated(p) by {
            lemma_owned_allocated(&ms, &before.pool, p);
        }
        assert forall|p: u64| ms.page_table.tables().owns(p) implies #[trigger] after.pool.mem()[p] == before.pool.mem()[p] by {
            assert(ms.owns(p));
            if writer.owns_data(p) {
                if j == i {
                    crate::mm::user_space::lemma_data_not_table(&ms, &before.pool, p);
                } else {
                    assert(before.tasks.tasks@[i].inner.memory_set.owns(p));
                    assert(!before.tasks.tasks@[j].inner.memory_set.owns(p));
                }
            }
        }
        lemma_space_survives(&ms, &before.pool, &after.pool);
        if t.inner.task_status != TaskStatus::Zombie {
            ms.lemma_task_space_survives(&before.pool, &after.pool, before.env.strampoline.0, t.inner.trap_cx_ppn.0);
                ms.lemma_only_areas_kept(&before.pool, &after.pool);
        }
    }
    assert forall|a: int, b: int, p: u64|
        0 <= a < after.tasks.tasks@.len() && 0 <= b < after.tasks.tasks@.len() && a != b
            && #[trigger] after.tasks.tasks@[a].inner.memory_set.owns(p) implies !#[trigger] after.tasks.tasks@[b].inner.memory_set.owns(
        p,
    ) by {
        assert(after.tasks.tasks@[a].inner.memory_set == before.tasks.tasks@[a].inner.memory_set);
        assert(after.tasks.tasks@[b].inner.memory_set == before.tasks.tasks@[b].inner.memory_set);
        assert(before.tasks.tasks@[a].inner.memory_set.owns(p));
    }
}


/// The families stay in order where each task keeps its number, its
/// parent and its children, and no task exits.
pub proof fn lemma_family_kept<D: BlockDevice>(before: &Kernel<D>, after: &Kernel<D>)
    requires
        before.family_ok(),
        before.wf(),
        after.tasks.wf(),
        after.initproc == before.initproc,
        after.tasks.tasks@.len() == before.tasks.tasks@.len(),
        forall|i: int|
            0 <= i < before.tasks.tasks@.len() ==> {
                &&& (#[trigger] after.tasks.tasks@[i]).pid == before.tasks.tasks@[i].pid
                &&& after.tasks.tasks@[i].inner.parent == before.tasks.tasks@[i].inner.parent
                &&& after.tasks.tasks@[i].inner.children@ == before.tasks.tasks@[i].inner.children@
                &&& after.tasks.tasks@[i].inner.task_status == TaskStatus::Zombie ==> before.tasks.tasks@[i].inner.task_status
                    == TaskStatus::Zombie
            },
    ensures
        after.family_ok(),
{
    reveal(Kernel::family_ok);
    assert forall|p: usize| before.tasks.has(p) implies after.tasks.has(p) && after.tasks.index_of(p)
        == before.tasks.index_of(p) by {
        crate::task::processor::lemma_index_stable(&before.tasks, &after.tasks, p);
    }
    assert forall|i: int, k: int|
        0 <= i < after.tasks.tasks@.len() && 0 <= k < after.tasks.tasks@[i].inner.children@.len() implies #[trigger] after.child_ok(
        i,
        k,
    ) by {
        assert(before.child_ok(i, k));
        let c = before.tasks.tasks@[i].inner.children@[k];
        assert(after.tasks.tasks@[i].inner.children@[k] == c);
        assert(before.tasks.has(c));
        let w = before.tasks.index_of(c);
        assert(after.tasks.tasks@[w].inner.parent == before.tasks.tasks@[w].inner.parent);
    }
    assert(before.tasks.has(before.initproc));
    let ip = before.tasks.index_of(before.initproc);
    assert(after.tasks.tasks@[ip].inner.task_status != TaskStatus::Zombie);
}


/// The families stay in order where the table of the tasks stays as it is.
pub proof fn lemma_family_same<D: BlockDevice>(before: &Kernel<D>, after: &Kernel<D>)
    requires
        after.tasks == before.tasks,
        after.initproc == before.initproc,
    ensures
        before.family_ok() ==> after.family_ok(),
{
    reveal(Kernel::family_ok);
    if before.family_ok() {
        assert forall|i: int, k: int|
            0 <= i < after.tasks.tasks@.len() && 0 <= k < after.tasks.tasks@[i].inner.children@.len() implies #[trigger] after.child_ok(
            i,
            k,
        ) by {
            assert(before.child_ok(i, k));
        }
    }
}


/// The families stay in order where the task at place `i` gets a new
/// child: a task with a number that was in no use is added to the table,
/// without children and with that task as its parent.
pub proof fn lemma_family_with_child<D: BlockDevice>(before: &Kernel<D>, after: &Kernel<D>, i: int)
    requires
        before.family_ok(),
        before.wf(),
        after.tasks.wf(),
        after.initproc == before.initproc,
        0 <= i < before.tasks.tasks@.len(),
        after.tasks.tasks@.len() == before.tasks.tasks@.len() + 1,
        !before.tasks.has(after.tasks.tasks@.last().pid.0),
        after.tasks.tasks@.last().inner.parent == Some(before.tasks.tasks@[i].pid.0),
        after.tasks.tasks@.last().inner.children@.len() == 0,
        after.tasks.tasks@[i].inner.children@ == before.tasks.tasks@[i].inner.children@.push(
            after.tasks.tasks@.last().pid.0,
        ),
        forall|a: int|
            0 <= a < before.tasks.tasks@.len() ==> {
                &&& (#[trigger] after.tasks.tasks@[a]).pid == before.tasks.tasks@[a].pid
                &&& after.tasks.tasks@[a].inner.parent == before.tasks.tasks@[a].inner.parent
                &&& a != i ==> after.tasks.tasks@[a].inner.children@ == before.tasks.tasks@[a].inner.children@
                &&& after.tasks.tasks@[a].inner.task_status == TaskStatus::Zombie ==> before.tasks.tasks@[a].inner.task_status
                    == TaskStatus::Zombie
            },
    ensures
        after.family_ok(),
{
    reveal(Kernel::family_ok);
    let n = before.tasks.tasks@.len() as int;
    let child = after.tasks.tasks@.last();
    let c = child.pid.0;
    assert(child == after.tasks.tasks@[n]);
    assert forall|p: usize| before.tasks.has(p) implies after.tasks.has(p) && after.tasks.index_of(p)
        == before.tasks.index_of(p) by {
        crate::task::processor::lemma_index_stable(&before.tasks, &after.tasks, p);
    }
    assert(after.tasks.has(c) && after.tasks.index_of(c) == n) by {
        assert(after.tasks.tasks@[n].pid.0 == c);
        let v = after.tasks.index_of(c);
        assert(after.tasks.tasks@[v].pid.0 == after.tasks.tasks@[n].pid.0);
    }
    assert(before.tasks.has(before.initproc));
    assert(before.tasks.has(before.tasks.tasks@[i].pid.0));
    assert forall|a: int, k: int|
        0 <= a < after.tasks.tasks@.len() && 0 <= k < after.tasks.tasks@[a].inner.children@.len() implies #[trigger] after.child_ok(
        a,
        k,
    ) by {
        if a < n && k < before.tasks.tasks@[a].inner.children@.len() {
            assert(before.child_ok(a, k));
            let x = before.tasks.tasks@[a].inner.children@[k];
            assert(after.tasks.tasks@[a].inner.children@[k] == x);
            assert(before.tasks.has(x));
            let w = before.tasks.index_of(x);
            assert(after.tasks.tasks@[w].inner.parent == before.tasks.tasks@[w].inner.parent);
            assert forall|m: int| 0 <= m < k implies after.tasks.tasks@[a].inner.children@[m] != x by {
                assert(after.tasks.tasks@[a].inner.children@[m] == before.tasks.tasks@[a].inner.children@[m]);
            }
        } else {
            assert(a == i);
            assert(after.tasks.tasks@[a].inner.children@[k] == c);
            assert forall|m: int| 0 <= m < k implies after.tasks.tasks@[a].inner.children@[m] != c by {
                assert(before.child_ok(i, m));
                assert(after.tasks.tasks@[a].inner.children@[m] == before.tasks.tasks@[i].inner.children@[m]);
            }
        }
    }
    let ip = before.tasks.index_of(before.initproc);
    assert(after.tasks.tasks@[ip].inner.task_status != TaskStatus::Zombie);
}


/// The families stay in order where the task at place `i`, which is not
/// the first task, exits: its children become children of the first task.
pub proof fn lemma_family_after_exit<D: BlockDevice>(before: &Kernel<D>, after: &Kernel<D>, i: int)
    requires
        before.family_ok(),
        before.wf(),
        after.tasks.wf(),
        after.initproc == before.initproc,
        0 <= i < before.tasks.tasks@.len(),
        before.tasks.tasks@[i].pid.0 != before.initproc,
        after.tasks.tasks@.len() == before.tasks.tasks@.len(),
        forall|a: int| 0 <= a < before.tasks.tasks@.len() ==> (#[trigger] after.tasks.tasks@[a]).pid == before.tasks.tasks@[a].pid,
        after.tasks.tasks@[i].inner.children@.len() == 0,
        after.tasks.tasks@[i].inner.parent == before.tasks.tasks@[i].inner.parent,
        ({
            let ip = before.tasks.index_of(before.initproc);
            &&& after.tasks.tasks@[ip].inner.children@ == before.tasks.tasks@[ip].inner.children@
                + before.tasks.tasks@[i].inner.children@
            &&& after.tasks.tasks@[ip].inner.parent == before.tasks.tasks@[ip].inner.parent
            &&& after.tasks.tasks@[ip].inner.task_status == before.tasks.tasks@[ip].inner.task_status
            &&& forall|a: int|
                0 <= a < before.tasks.tasks@.len() && a != i && a != ip ==> {
                    &&& (#[trigger] after.tasks.tasks@[a]).inner.children@ == before.tasks.tasks@[a].inner.children@
                    &&& after.tasks.tasks@[a].inner.parent == if before.tasks.tasks@[i].inner.children@.contains(
                        before.tasks.tasks@[a].pid.0,
                    ) {
                        Some(before.initproc)
                    } else {
                        before.tasks.tasks@[a].inner.parent
                    }
                }
        }),
    ensures
        after.family_ok(),
{
    reveal(Kernel::family_ok);
    let ip = before.tasks.index_of(before.initproc);
    let gone = before.tasks.tasks@[i].inner.children@;
    let kept = before.tasks.tasks@[ip].inner.children@;
    assert(before.tasks.has(before.initproc));
    assert(ip != i);
    assert forall|p: usize| before.tasks.has(p) implies after.tasks.has(p) && after.tasks.index_of(p)
        == before.tasks.index_of(p) by {
        crate::task::processor::lemma_index_stable(&before.tasks, &after.tasks, p);
    }
    assert forall|a: int, k: int|
        0 <= a < after.tasks.tasks@.len() && 0 <= k < after.tasks.tasks@[a].inner.children@.len() implies #[trigger] after.child_ok(
        a,
        k,
    ) by {
        let x = after.tasks.tasks@[a].inner.children@[k];
        if a == ip && k >= kept.len() {
            let j = k - kept.len();
            assert(x == gone[j]);
            assert(before.child_ok(i, j));
            let w = before.tasks.index_of(x);
            assert(before.tasks.tasks@[w].pid.0 == x);
            assert(w != i && w != ip);
            assert(gone.contains(before.tasks.tasks@[w].pid.0));
            assert forall|m: int| 0 <= m < k implies after.tasks.tasks@[a].inner.children@[m] != x by {
                if m < kept.len() {
                    assert(before.child_ok(ip, m));
                    assert(after.tasks.tasks@[a].inner.children@[m] == kept[m]);
                } else {
                    assert(after.tasks.tasks@[a].inner.children@[m] == gone[m - kept.len()]);
                }
            }
        } else {
            assert(a != i);
            assert(before.child_ok(a, k));
            assert(x == before.tasks.tasks@[a].inner.children@[k]);
            let w = before.tasks.index_of(x);
            assert(before.tasks.tasks@[w].pid.0 == x);
            assert(w != ip);
            if w != i {
                if gone.contains(x) {
                    let j = choose|j: int| 0 <= j < gone.len() && gone[j] == x;
                    assert(before.child_ok(i, j));
                    assert(a == ip) by {
                        if a != ip {
                            assert(before.tasks.tasks@[a].pid.0 == before.tasks.tasks@[i].pid.0);
                        }
                    }
                    assert(false) by {
                        assert(before.tasks.tasks@[ip].pid.0 == before.initproc);
                    }
                }
            }
            assert forall|m: int| 0 <= m < k implies after.tasks.tasks@[a].inner.children@[m] != x by {
                assert(after.tasks.tasks@[a].inner.children@[m] == before.tasks.tasks@[a].inner.children@[m]);
            }
        }
    }
}


/// The kernel stacks of a kernel that was just made, with its first
/// task, are in order.
pub proof fn lemma_first_stacks<D: BlockDevice>(r: &Kernel<D>, ks1: &MemorySet, pool1: &FramePool, layout: &KernelLayout)
    requires
        layout.wf(),
        ks1.areas@.len() == 5,
        forall|a: int| 0 <= a < 5 ==> (#[trigger] ks1.areas@[a]).end() == page_up(layout.sections()[a].1),
        forall|v: u64| v < 0x7ff_ffff && !ks1.in_area(v) ==> (#[trigger] ks1.page_table.lookup(pool1, v)).is_none(),
        r.kernel_space.areas@.len() == 6,
        r.kernel_space.areas@.drop_last() == ks1.areas@,
        r.kernel_space.areas@.last().start() == stack_start(0),
        r.kernel_space.areas@.last().end() == stack_end(0),
        crate::task::task::stack_added(ks1, pool1, &r.kernel_space, &r.pool, 0),
        forall|q: usize| r.pid_allocator@.is_allocated(q) == (q == 0),
        r.tasks.tasks@.len() == 1,
        r.tasks.tasks@[0].pid.0 == 0,
    ensures
        r.stacks_ok(),
{
    reveal(Kernel::stacks_ok);
    crate::kernel_stacks::lemma_fresh_stack_free(ks1, pool1, layout, 0);
    assert(r.kernel_space.areas@[5] == r.kernel_space.areas@.last());
    assert forall|a: int| 0 <= a < r.kernel_space.areas@.len() implies #[trigger] crate::kernel_stacks::area_shape(
        &r.kernel_space,
        a,
    ) by {
        if a < 5 {
            assert(r.kernel_space.areas@[a] == r.kernel_space.areas@.drop_last()[a]);
            assert(ks1.areas@[a].end() <= 0x80800);
        } else {
            assert(crate::kernel_stacks::is_stack_of(&r.kernel_space, a, 0));
        }
    }
    assert forall|q: usize| q < 0x100_0000 && !r.pid_allocator@.is_allocated(q) implies #[trigger] crate::kernel_stacks::stack_free(
        &r.kernel_space,
        &r.pool,
        q,
    ) by {
        crate::kernel_stacks::lemma_fresh_stack_free(ks1, pool1, layout, q);
        assert forall|v: u64| stack_start(q) <= v < stack_end(q) implies (#[trigger] r.kernel_space.page_table.lookup(
            &r.pool,
            v,
        )).is_none() by {
            crate::task::stacks::lemma_stacks_apart(0, q, v);
            assert(ks1.page_table.lookup(pool1, v).is_none());
        }
    }
    assert(r.kernel_space.has_area_at(stack_start(0))) by {
        assert(r.kernel_space.areas@[5].start() == stack_start(0));
    }
}


/// The memory of a kernel with one task is in order where the pool, the
/// address space of the kernel and that of the task are.
pub proof fn lemma_first_mem<D: BlockDevice>(r: &Kernel<D>)
    requires
        r.pool.wf(),
        r.kernel_space.wf(&r.pool),
        r.tasks.tasks@.len() == 1,
        r.space_ok(0),
    ensures
        r.mem_ok(),
{
    reveal(Kernel::mem_ok);
}

/// The families of a kernel whose one task is the first task, without
/// children and ready, are in order.
pub proof fn lemma_first_family<D: BlockDevice>(r: &Kernel<D>)
    requires
        r.tasks.tasks@.len() == 1,
        r.tasks.tasks@[0].inner.children@.len() == 0,
        r.tasks.tasks@[0].inner.task_status == TaskStatus::Ready,
        r.tasks.tasks@[0].pid.0 == r.initproc,
    ensures
        r.family_ok(),
{
    reveal(Kernel::family_ok);
    assert(r.tasks.has(r.initproc));
    assert(r.tasks.index_of(r.initproc) == 0);
}

/// What the memory being in order says of the pool and of the address
/// space of the kernel.
pub proof fn lemma_mem_ok_facts<D: BlockDevice>(kernel: &Kernel<D>)
    requires
        kernel.mem_ok(),
    ensures
        kernel.pool.wf(),
        kernel.kernel_space.wf(&kernel.pool),
        forall|i: int| 0 <= i < kernel.tasks.tasks@.len() ==> #[trigger] kernel.space_ok(i),
{
    reveal(Kernel::mem_ok);
}

} // verus!
