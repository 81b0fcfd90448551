use vstd::prelude::*;
use crate::codec::{splice, with_u64, words64_bytes};
use crate::config::kernel_stack_position_of;
use crate::fs::FileDescriptor;
use crate::mm::address::{PhysAddr, PhysPageNum, VirtAddr};
use crate::mm::elf::{trap_context_vpn, ElfImage};
use crate::mm::frame_allocator::FramePool;
use crate::mm::memory_set::{
    apart_from,
    lemma_map_cost_nonneg,
    map_cost,
    trampoline_entry,
    trampoline_vpn,
    MapType,
    MemorySet,
};
use crate::mm::page_table::{lemma_pte_bits, pte_ppn, PTE_V};
use crate::mm::phys_mem::zero_page;
use crate::mm::memory_set::data_pages;
use crate::mm::user_space::{
    lemma_data_not_table, lemma_owned_allocated, lemma_space_data_written, lemma_space_kept,
    lemma_space_survives, lemma_space_tables_kept,
};
use crate::task::context::{task_context_words, TaskContext};
use crate::task::pid::{pid_alloc, stack_end, stack_start, KernelStack, PidAllocator, PidHandle, PidView};
use crate::trap::context::{trap_cx_at, with_trap_cx, TrapContext, TrapContextView};

verus! {

/// The state of a task.
#[derive(Copy, Clone, Debug, PartialEq, Eq, Structural)]
pub enum TaskStatus {
    UnInit,
    Ready,
    Running,
    Exited,
    /// The task has exited, and its parent has not yet asked for its exit code.
    Zombie,
}

/// The addresses of the kernel's own code that a task needs to know.
#[derive(Copy, Clone, Debug)]
pub struct KernelEnv {
    /// The physical address of the trampoline code.
    pub strampoline: PhysAddr,
    /// The address of the trap handler.
    pub trap_handler: u64,
    /// The address of the code that returns to user mode.
    pub trap_return: u64,
}

/// The part of a task that changes while it lives.
pub struct TCBInner {
    /// Where the task context lies on the kernel stack.
    pub task_cx_ptr: u64,
    pub task_status: TaskStatus,
    pub memory_set: MemorySet,
    /// The page that holds the trap context.
    pub trap_cx_ppn: PhysPageNum,
    /// The size of the program's memory: the top of its stack.
    pub base_size: u64,
    /// The number of the parent task, if there is one.
    pub parent: Option<usize>,
    /// The numbers of the child tasks.
    pub children: Vec<usize>,
    pub exit_code: i32,
    pub fd_table: Vec<Option<FileDescriptor>>,
}

/// A task: its number, its kernel stack, and its changing part.
pub struct TCB {
    pub pid: PidHandle,
    pub kernel_stack: KernelStack,
    pub inner: TCBInner,
}

/// Whether `k` is the lowest file descriptor that is free in `table`, or
/// its length where none is.
pub open spec fn is_lowest_free(table: Seq<Option<FileDescriptor>>, k: int) -> bool {
    &&& 0 <= k <= table.len()
    &&& forall|j: int| 0 <= j < k ==> (#[trigger] table[j]).is_some()
    &&& k < table.len() ==> table[k].is_none()
}

/// The lowest file descriptor that is free in `table`, or its length where none is.
pub open spec fn lowest_free(table: Seq<Option<FileDescriptor>>) -> int {
    choose|k: int| is_lowest_free(table, k)
}

/// There is one lowest free file descriptor.
pub proof fn lemma_lowest_free(table: Seq<Option<FileDescriptor>>, k: int)
    requires
        is_lowest_free(table, k),
    ensures
        lowest_free(table) == k,
{
    let m = lowest_free(table);
    assert(is_lowest_free(table, m));
    if m < k {
        assert(table[m].is_some());
    }
    if k < m {
        assert(table[k].is_some());
    }
}

impl TCBInner {
    /// The value that names the task's address space.
    pub fn get_user_token(&self) -> (r: u64)
        ensures
            r == (8u64 << 60) | self.memory_set.page_table.root_ppn.0,
    {
        self.memory_set.token()
    }

    /// The trap context of the task, read from its page.
    pub fn get_trap_cx(&self, pool: &FramePool) -> (r: TrapContext)
        requires
            pool.memory.wf(),
            pool.memory.has(self.trap_cx_ppn.0),
        ensures
            r@ == trap_cx_at(pool.mem()[self.trap_cx_ppn.0]),
    {
        TrapContext::load(pool, self.trap_cx_ppn.0)
    }

    /// The state of the task.
    pub fn get_status(&self) -> (r: TaskStatus)
        ensures
            r == self.task_status,
    {
        self.task_status
    }

    /// Whether the task has exited and waits for its parent.
    pub fn is_zombie(&self) -> (r: bool)
        ensures
            r == (self.task_status == TaskStatus::Zombie),
    {
        self.get_status() == TaskStatus::Zombie
    }

    /// The lowest file descriptor that is free; the table grows by one
    /// where none is.
    pub fn alloc_fd(&mut self) -> (fd: usize)
        ensures
            fd < final(self).fd_table@.len(),
            final(self).fd_table@[fd as int].is_none(),
            fd == lowest_free(old(self).fd_table@),
            forall|i: int| 0 <= i < fd ==> (#[trigger] old(self).fd_table@[i]).is_some(),
            fd < old(self).fd_table@.len() ==> final(self).fd_table@ == old(self).fd_table@,
            fd >= old(self).fd_table@.len() ==> fd == old(self).fd_table@.len() && final(self).fd_table@
                == old(self).fd_table@.push(None),
            final(self).task_cx_ptr == old(self).task_cx_ptr,
            final(self).task_status == old(self).task_status,
            final(self).memory_set == old(self).memory_set,
            final(self).trap_cx_ppn == old(self).trap_cx_ppn,
            final(self).base_size == old(self).base_size,
            final(self).parent == old(self).parent,
            final(self).children == old(self).children,
            final(self).exit_code == old(self).exit_code,
    {
        let mut fd: usize = 0;
        while fd < self.fd_table.len()
            invariant
                fd <= self.fd_table@.len(),
                *self == *old(self),
                forall|i: int| 0 <= i < fd ==> (#[trigger] self.fd_table@[i]).is_some(),
            decreases self.fd_table@.len() - fd,
        {
            if self.fd_table[fd].is_none() {
                proof {
                    lemma_lowest_free(self.fd_table@, fd as int);
                }
                return fd;
            }
            fd += 1;
        }
        proof {
            lemma_lowest_free(self.fd_table@, fd as int);
        }
        self.fd_table.push(None);
        self.fd_table.len() - 1
    }
}

/// A task as a value: what its control block holds, but for its address space.
pub struct TaskView {
    pub pid: usize,
    pub status: TaskStatus,
    pub parent: Option<usize>,
    pub children: Seq<usize>,
    pub exit_code: i32,
    pub fd_table: Seq<Option<FileDescriptor>>,
    pub task_cx_ptr: u64,
    pub trap_cx_ppn: u64,
    pub base_size: u64,
}

impl View for TCB {
    type V = TaskView;

    open spec fn view(&self) -> TaskView {
        TaskView {
            pid: self.pid.0,
            status: self.inner.task_status,
            parent: self.inner.parent,
            children: self.inner.children@,
            exit_code: self.inner.exit_code,
            fd_table: self.inner.fd_table@,
            task_cx_ptr: self.inner.task_cx_ptr,
            trap_cx_ppn: self.inner.trap_cx_ppn.0,
            base_size: self.inner.base_size,
        }
    }
}

impl TCB {
    /// The number of the task.
    pub fn getpid(&self) -> (r: usize)
        ensures
            r == self.pid.0,
    {
        self.pid.0
    }
}


/// The file descriptors with which a program begins: the console to read
/// from, and twice the console to write to.
pub open spec fn initial_fds() -> Seq<Option<FileDescriptor>> {
    seq![Some(FileDescriptor::Stdin), Some(FileDescriptor::Stdout), Some(FileDescriptor::Stdout)]
}

/// The page of the kernel stack of the task with number `pid` on which
/// its task context lies, in the address space `kernel_space` of the kernel.
pub open spec fn stack_top_page(kernel_space: &MemorySet, pool: &FramePool, pid: usize) -> u64 {
    pte_ppn(kernel_space.page_table.lookup(pool, (stack_end(pid) - 1) as u64).unwrap())
}

/// The address space `ks` of the kernel is `ks0` with the kernel stack of
/// the task with number `pid` added: the new area has pages of its own,
/// and every page number that the page table tells apart from the pages
/// of the stack is mapped as before.
pub open spec fn stack_added(ks0: &MemorySet, p0: &FramePool, ks: &MemorySet, p: &FramePool, pid: usize) -> bool {
    &&& ks.areas@.last().map_type == MapType::Framed
    &&& forall|v: u64|
        apart_from(v, stack_start(pid), stack_end(pid)) ==> #[trigger] ks.page_table.lookup(p, v)
            == ks0.page_table.lookup(p0, v)
}

/// The kernel stack of the task with number `pid` is mapped in the address
/// space of the kernel, and the task context at its top goes on at `ra`.
pub open spec fn stack_ready(kernel_space: &MemorySet, pool: &FramePool, pid: usize, ra: u64) -> bool {
    &&& pid < 0x100_0000
    &&& kernel_space.wf(pool)
    &&& kernel_space.page_table.lookup(pool, (stack_end(pid) - 1) as u64).is_some()
    &&& pool.memory.has(stack_top_page(kernel_space, pool, pid))
    &&& kernel_space.owns_data(stack_top_page(kernel_space, pool, pid))
    &&& pool.mem()[stack_top_page(kernel_space, pool, pid)].subrange(4096 - 104, 4096) == words64_bytes(
        task_context_words(ra),
    )
}

/// The program of the ELF file `elf` in a new address space, with the page
/// of its trap context, the top of its stack and its entry point.
#[verifier::spinoff_prover]
fn load_program(elf: &ElfImage, elf_data: &[u8], env: &KernelEnv, kernel_space: &MemorySet, pool: &mut FramePool) -> (r:
    (MemorySet, u64, u64, PhysPageNum))
    requires
        kernel_space.wf(old(pool)),
        elf.loadable(elf_data@.len() as int),
        env.strampoline.0 % 4096 == 0,
        env.strampoline.0 / 4096 < 0x1000_0000_0000,
        old(pool).allocator@.free_count() >= elf.cost(),
    ensures
        elf.image_of(&r.0, final(pool), elf_data@, env.strampoline.0),
        r.1 == elf.stack_top(),
        r.2 == elf.entry_point,
        r.3.0 == elf.trap_page(&r.0),
        kernel_space.wf(final(pool)),
        final(pool).allocator@.free_count() >= old(pool).allocator@.free_count() - elf.cost(),
        final(pool).memory.base() == old(pool).memory.base(),
        final(pool).memory.count() == old(pool).memory.count(),
        forall|p: u64| old(pool).is_allocated(p) ==> #[trigger] final(pool).mem()[p] == old(pool).mem()[p],
        forall|p: u64| r.0.owns(p) ==> !old(pool).is_allocated(p),
        forall|p: u64| old(pool).is_allocated(p) ==> final(pool).is_allocated(p),
        forall|v: u64| #[trigger] kernel_space.page_table.lookup(final(pool), v) == kernel_space.page_table.lookup(old(pool), v),
{
    let ghost pool0 = *pool;
    let (memory_set, user_sp, entry_point) = MemorySet::from_elf(elf, elf_data, env.strampoline, pool);
    proof {
        elf.lemma_loaded_image(&memory_set, pool, &pool0, elf_data@, env.strampoline.0);
        elf.lemma_image_facts(&memory_set, pool, elf_data@, env.strampoline.0);
        assert forall|p: u64| kernel_space.owns(p) implies #[trigger] pool.mem()[p] == pool0.mem()[p] by {
            lemma_owned_allocated(kernel_space, &pool0, p);
        }
        lemma_space_kept(kernel_space, &pool0, pool);
    }
    let found = memory_set.translate(VirtAddr(crate::config::TRAP_CONTEXT).floor(), pool);
    let trap_cx_ppn = found.unwrap().ppn();
    (memory_set, user_sp, entry_point, trap_cx_ppn)
}

/// The kernel stack of the task with the number of `pid`, mapped in the
/// address space of the kernel, with a task context at its top that goes
/// on at the way back into user mode. Returns the stack and the address of
/// the task context.
#[verifier::spinoff_prover]
fn make_kernel_stack(pid: &PidHandle, env: &KernelEnv, kernel_space: &mut MemorySet, pool: &mut FramePool) -> (r: (
    KernelStack,
    u64,
))
    requires
        old(kernel_space).wf(old(pool)),
        pid.0 < 0x100_0000,
        forall|v: u64|
            stack_start(pid.0) <= v < stack_end(pid.0) ==> (#[trigger] old(kernel_space).page_table.lookup(
                old(pool),
                v,
            )).is_none(),
        old(pool).allocator@.free_count() >= map_cost(stack_start(pid.0) as int, stack_end(pid.0) as int, true),
    ensures
        r.0.pid == pid.0,
        r.1 == kernel_stack_position_of(pid.0 as int).1 - 104,
        stack_ready(final(kernel_space), final(pool), pid.0, env.trap_return),
        stack_added(old(kernel_space), old(pool), final(kernel_space), final(pool), pid.0),
        final(kernel_space).page_table.root_ppn == old(kernel_space).page_table.root_ppn,
        final(kernel_space).areas@.len() == old(kernel_space).areas@.len() + 1,
        final(kernel_space).areas@.drop_last() == old(kernel_space).areas@,
        final(kernel_space).areas@.last().start() == stack_start(pid.0),
        final(kernel_space).areas@.last().end() == stack_end(pid.0),
        final(pool).allocator@.free_count() >= old(pool).allocator@.free_count() - map_cost(
            stack_start(pid.0) as int,
            stack_end(pid.0) as int,
            true,
        ),
        final(pool).memory.base() == old(pool).memory.base(),
        final(pool).memory.count() == old(pool).memory.count(),
        forall|p: u64|
            old(pool).is_allocated(p) && !old(kernel_space).page_table.tables().owns(p)
                ==> #[trigger] final(pool).mem()[p] == old(pool).mem()[p],
        forall|p: u64|
            final(kernel_space).owns(p) && !old(kernel_space).owns(p) ==> !old(pool).is_allocated(p),
        forall|p: u64| old(pool).is_allocated(p) ==> final(pool).is_allocated(p),
{
    let ghost pool0 = *pool;
    let ghost ks0 = *kernel_space;
    let kernel_stack = KernelStack::new(pid, kernel_space, pool);
    let ghost pool2 = *pool;
    let ghost ks2 = *kernel_space;
    proof {
        let area = ks2.areas@.last();
        assert(ks2.areas@[ks2.areas@.len() - 1] == area);
        assert(area.mapped_whole(&ks2.page_table, &pool2));
        let top_vpn = (stack_end(pid.0) - 1) as u64;
        assert(ks2.page_table.lookup(&pool2, top_vpn) == Some(area.entry_for(area.target(top_vpn))));
        let q = area.data_frame@[1].1.ppn.0;
        assert(pool2.memory.has(q));
        lemma_pte_bits(q, area.map_perm.bits | PTE_V);
        assert(area.owns(q));
        assert(ks2.owns_data(q));
        assert(!pool0.is_allocated(area.data_frame@[1].1.ppn.0));
    }
    let task_cx = TaskContext::goto_trap_return(env.trap_return);
    let task_cx_ptr = kernel_stack.push_on_top(&task_cx, kernel_space, pool);
    proof {
        let q = stack_top_page(&ks2, &pool2, pid.0);
        pool2.memory.lemma_view();
        assert forall|p: u64| !ks2.owns_data(p) implies #[trigger] pool.mem()[p] == pool2.mem()[p] by {}
        lemma_space_data_written(&ks2, &pool2, pool);
        assert(pool.mem()[q].subrange(4096 - 104, 4096) =~= words64_bytes(task_cx.words()));
        assert forall|p: u64| pool0.is_allocated(p) && !ks0.page_table.tables().owns(p) implies #[trigger] pool.mem()[p]
            == pool0.mem()[p] by {
            assert(p != q);
        }
        assert forall|v: u64| apart_from(v, stack_start(pid.0), stack_end(pid.0)) implies #[trigger] kernel_space.page_table.lookup(
            pool,
            v,
        ) == ks0.page_table.lookup(&pool0, v) by {
            assert(ks2.page_table.lookup(&pool2, v) == ks0.page_table.lookup(&pool0, v));
        }
    }
    (kernel_stack, task_cx_ptr)
}

/// Stores the trap context `cx` on the page of the trap context of the
/// program in the address space `memory_set`.
#[verifier::spinoff_prover]
fn init_trap_cx(
    memory_set: &MemorySet,
    trap_cx_ppn: PhysPageNum,
    cx: &TrapContext,
    kernel_space: &MemorySet,
    pool: &mut FramePool,
    elf: Ghost<&ElfImage>,
    data: Ghost<Seq<u8>>,
    strampoline: Ghost<u64>,
    pid: Ghost<usize>,
    ra: Ghost<u64>,
)
    requires
        old(pool).wf(),
        elf@.image_of(memory_set, old(pool), data@, strampoline@),
        trap_cx_ppn.0 == elf@.trap_page(memory_set),
        stack_ready(kernel_space, old(pool), pid@, ra@),
        !kernel_space.owns(trap_cx_ppn.0),
    ensures
        elf@.image_of(memory_set, final(pool), data@, strampoline@),
        stack_ready(kernel_space, final(pool), pid@, ra@),
        trap_cx_at(final(pool).mem()[trap_cx_ppn.0]) == cx@,
        final(pool).wf(),
        final(pool).allocator == old(pool).allocator,
        final(pool).memory.base() == old(pool).memory.base(),
        final(pool).memory.count() == old(pool).memory.count(),
        final(pool).mem() == old(pool).mem().insert(
            trap_cx_ppn.0,
            with_trap_cx(old(pool).mem()[trap_cx_ppn.0], cx@),
        ),
        forall|v: u64|
            #[trigger] kernel_space.page_table.lookup(final(pool), v) == kernel_space.page_table.lookup(old(pool), v),
{
    let ghost pool2 = *pool;
    proof {
        elf@.lemma_image_facts(memory_set, &pool2, data@, strampoline@);
    }
    cx.store(pool, trap_cx_ppn.0);
    proof {
        let q = stack_top_page(kernel_space, &pool2, pid@);
        assert forall|p: u64| kernel_space.owns(p) implies #[trigger] pool.mem()[p] == pool2.mem()[p] by {}
        lemma_space_kept(kernel_space, &pool2, pool);
        elf@.lemma_image_kept(memory_set, &pool2, pool, data@, strampoline@);
        assert(kernel_space.owns(q));
        assert(pool.mem()[q] == pool2.mem()[q]);
    }
}

/// The kernel's side of a new task with the program in `memory_set`: the
/// kernel stack with its task context, and the trap context `cx` on its page.
#[verifier::spinoff_prover]
fn setup_kernel_side(
    pid: &PidHandle,
    env: &KernelEnv,
    memory_set: &MemorySet,
    trap_cx_ppn: PhysPageNum,
    entry_point: u64,
    user_sp: u64,
    sstatus: u64,
    kernel_space: &mut MemorySet,
    pool: &mut FramePool,
    elf: Ghost<&ElfImage>,
    data: Ghost<Seq<u8>>,
) -> (r: (KernelStack, u64))
    requires
        old(kernel_space).wf(old(pool)),
        elf@.image_of(memory_set, old(pool), data@, env.strampoline.0),
        trap_cx_ppn.0 == elf@.trap_page(memory_set),
        forall|p: u64| memory_set.owns(p) ==> !old(kernel_space).owns(p),
        pid.0 < 0x100_0000,
        forall|v: u64|
            stack_start(pid.0) <= v < stack_end(pid.0) ==> (#[trigger] old(kernel_space).page_table.lookup(
                old(pool),
                v,
            )).is_none(),
        old(pool).allocator@.free_count() >= map_cost(stack_start(pid.0) as int, stack_end(pid.0) as int, true),
    ensures
        r.0.pid == pid.0,
        r.1 == kernel_stack_position_of(pid.0 as int).1 - 104,
        elf@.image_of(memory_set, final(pool), data@, env.strampoline.0),
        stack_ready(final(kernel_space), final(pool), pid.0, env.trap_return),
        stack_added(old(kernel_space), old(pool), final(kernel_space), final(pool), pid.0),
        trap_cx_at(final(pool).mem()[trap_cx_ppn.0]) == TrapContextView::initial(
            entry_point,
            user_sp,
            (8u64 << 60) | old(kernel_space).page_table.root_ppn.0,
            kernel_stack_position_of(pid.0 as int).1 as u64,
            env.trap_handler,
            sstatus,
        ),
        final(kernel_space).page_table.root_ppn == old(kernel_space).page_table.root_ppn,
        final(kernel_space).areas@.len() == old(kernel_space).areas@.len() + 1,
        final(kernel_space).areas@.drop_last() == old(kernel_space).areas@,
        final(kernel_space).areas@.last().start() == stack_start(pid.0),
        final(kernel_space).areas@.last().end() == stack_end(pid.0),
        final(pool).allocator@.free_count() >= old(pool).allocator@.free_count() - map_cost(
            stack_start(pid.0) as int,
            stack_end(pid.0) as int,
            true,
        ),
        final(pool).memory.base() == old(pool).memory.base(),
        final(pool).memory.count() == old(pool).memory.count(),
        forall|p: u64|
            old(pool).is_allocated(p) && !old(kernel_space).page_table.tables().owns(p) && p != trap_cx_ppn.0
                ==> #[trigger] final(pool).mem()[p] == old(pool).mem()[p],
        forall|p: u64|
            final(kernel_space).owns(p) && !old(kernel_space).owns(p) ==> !old(pool).is_allocated(p),
        forall|p: u64| old(pool).is_allocated(p) ==> final(pool).is_allocated(p),
{
    let ghost pool1 = *pool;
    let ghost ks0 = *kernel_space;
    let (kernel_stack, task_cx_ptr) = make_kernel_stack(pid, env, kernel_space, pool);
    let ghost pool2 = *pool;
    proof {
        elf@.lemma_image_facts(memory_set, &pool1, data@, env.strampoline.0);
        assert forall|p: u64| memory_set.owns(p) implies #[trigger] pool2.mem()[p] == pool1.mem()[p] by {
            lemma_owned_allocated(memory_set, &pool1, p);
            if ks0.page_table.tables().owns(p) {
                assert(ks0.owns(p));
            }
        }
        elf@.lemma_image_kept(memory_set, &pool1, &pool2, data@, env.strampoline.0);
        assert(!kernel_space.owns(trap_cx_ppn.0)) by {
            if kernel_space.owns(trap_cx_ppn.0) {
                assert(!ks0.owns(trap_cx_ppn.0));
                assert(!pool1.is_allocated(trap_cx_ppn.0));
            }
        }
    }
    let kernel_stack_top = kernel_stack.get_top();
    let trap_cx = TrapContext::app_init_context(
        entry_point,
        user_sp,
        kernel_space.token(),
        kernel_stack_top,
        env.trap_handler,
        sstatus,
    );
    init_trap_cx(
        memory_set,
        trap_cx_ppn,
        &trap_cx,
        kernel_space,
        pool,
        elf,
        data,
        Ghost(env.strampoline.0),
        Ghost(pid.0),
        Ghost(env.trap_return),
    );
    proof {
        assert forall|v: u64| apart_from(v, stack_start(pid.0), stack_end(pid.0)) implies #[trigger] kernel_space.page_table.lookup(
            pool,
            v,
        ) == ks0.page_table.lookup(&pool1, v) by {
            assert(kernel_space.page_table.lookup(&pool2, v) == ks0.page_table.lookup(&pool1, v));
        }
    }
    (kernel_stack, task_cx_ptr)
}

impl TCB {
    /// The task was just made to run the program of the ELF file `elf`: it
    /// is ready, has no parent and no child, the three file descriptors of
    /// the console, the program in its address space, and a trap context
    /// with which the program begins.
    pub open spec fn started(
        &self,
        elf: &ElfImage,
        data: Seq<u8>,
        env: &KernelEnv,
        sstatus: u64,
        kernel_space: &MemorySet,
        pool: &FramePool,
    ) -> bool {
        &&& self.inner.task_status == TaskStatus::Ready
        &&& self.inner.parent.is_none()
        &&& self.inner.children@.len() == 0
        &&& self.inner.exit_code == 0
        &&& self.inner.fd_table@ == initial_fds()
        &&& self.inner.base_size == elf.stack_top()
        &&& elf.image_of(&self.inner.memory_set, pool, data, env.strampoline.0)
        &&& self.inner.trap_cx_ppn.0 == elf.trap_page(&self.inner.memory_set)
        &&& trap_cx_at(pool.mem()[self.inner.trap_cx_ppn.0]) == TrapContextView::initial(
            elf.entry_point,
            elf.stack_top(),
            (8u64 << 60) | kernel_space.page_table.root_ppn.0,
            kernel_stack_position_of(self.pid.0 as int).1 as u64,
            env.trap_handler,
            sstatus,
        )
        &&& self.kernel_stack.pid == self.pid.0
        &&& self.inner.task_cx_ptr == kernel_stack_position_of(self.pid.0 as int).1 - 104
        &&& stack_ready(kernel_space, pool, self.pid.0, env.trap_return)
    }

    /// A new task that runs the program of the ELF file `elf`, whose bytes
    /// are `elf_data`. The task takes the next task number, a kernel stack
    /// in the address space of the kernel, and a trap context made from
    /// `sstatus`, the status register as it stands.
    #[verifier::spinoff_prover]
    #[verifier::rlimit(50)]
    pub fn new(
        elf: &ElfImage,
        elf_data: &[u8],
        env: &KernelEnv,
        sstatus: u64,
        pid_allocator: &mut PidAllocator,
        kernel_space: &mut MemorySet,
        pool: &mut FramePool,
    ) -> (tcb: Self)
        requires
            old(kernel_space).wf(old(pool)),
            elf.loadable(elf_data@.len() as int),
            env.strampoline.0 % 4096 == 0,
            env.strampoline.0 / 4096 < 0x1000_0000_0000,
            old(pid_allocator)@.wf(),
            old(pid_allocator)@.next() < 0x100_0000,
            forall|v: u64|
                stack_start(old(pid_allocator)@.next()) <= v < stack_end(old(pid_allocator)@.next()) ==> (
                #[trigger] old(kernel_space).page_table.lookup(old(pool), v)).is_none(),
            old(pool).allocator@.free_count() >= elf.cost() + map_cost(
                stack_start(old(pid_allocator)@.next()) as int,
                stack_end(old(pid_allocator)@.next()) as int,
                true,
            ),
        ensures
            tcb.pid.0 == old(pid_allocator)@.next(),
            final(pid_allocator)@ == old(pid_allocator)@.after_alloc(),
            final(pid_allocator)@.wf(),
            tcb.started(elf, elf_data@, env, sstatus, final(kernel_space), final(pool)),
            final(kernel_space).page_table.root_ppn == old(kernel_space).page_table.root_ppn,
            final(kernel_space).areas@.len() == old(kernel_space).areas@.len() + 1,
            final(kernel_space).areas@.drop_last() == old(kernel_space).areas@,
            final(kernel_space).areas@.last().start() == stack_start(tcb.pid.0),
            final(kernel_space).areas@.last().end() == stack_end(tcb.pid.0),
            final(pool).memory.base() == old(pool).memory.base(),
            final(pool).memory.count() == old(pool).memory.count(),
            forall|p: u64|
                old(pool).is_allocated(p) && !old(kernel_space).page_table.tables().owns(p)
                    ==> #[trigger] final(pool).mem()[p] == old(pool).mem()[p],
            forall|p: u64| tcb.inner.memory_set.owns(p) ==> !old(pool).is_allocated(p),
            forall|p: u64|
                final(kernel_space).owns(p) && !old(kernel_space).owns(p) ==> !old(pool).is_allocated(p),
            forall|p: u64| old(pool).is_allocated(p) ==> final(pool).is_allocated(p),
            forall|p: u64| tcb.inner.memory_set.owns(p) ==> !final(kernel_space).owns(p),
            stack_added(old(kernel_space), old(pool), final(kernel_space), final(pool), tcb.pid.0),
    {
        let ghost pool0 = *pool;
        let ghost ks0 = *kernel_space;
        proof {
            lemma_map_cost_nonneg(
                stack_start(pid_allocator@.next()) as int,
                stack_end(pid_allocator@.next()) as int,
                true,
            );
        }
        let (memory_set, user_sp, entry_point, trap_cx_ppn) = load_program(elf, elf_data, env, kernel_space, pool);
        let ghost pool1 = *pool;
        let pid = pid_alloc(pid_allocator);
        proof {
            assert(memory_set.owns(trap_cx_ppn.0)) by {
                elf.lemma_image_facts(&memory_set, &pool1, elf_data@, env.strampoline.0);
            }
            assert forall|p: u64| memory_set.owns(p) implies !ks0.owns(p) by {
                if ks0.owns(p) {
                    lemma_owned_allocated(&ks0, &pool0, p);
                }
            }
        }
        let (kernel_stack, task_cx_ptr) = setup_kernel_side(
            &pid,
            env,
            &memory_set,
            trap_cx_ppn,
            entry_point,
            user_sp,
            sstatus,
            kernel_space,
            pool,
            Ghost(elf),
            Ghost(elf_data@),
        );
        proof {
            assert forall|p: u64| pool0.is_allocated(p) && !ks0.page_table.tables().owns(p) implies #[trigger] pool.mem()[p]
                == pool0.mem()[p] by {
                assert(pool1.is_allocated(p));
                assert(p != trap_cx_ppn.0);
            }
            assert forall|p: u64| kernel_space.owns(p) && !ks0.owns(p) implies !pool0.is_allocated(p) by {
                assert(!pool1.is_allocated(p));
            }
            assert forall|p: u64| memory_set.owns(p) implies !kernel_space.owns(p) by {
                elf.lemma_image_facts(&memory_set, &pool1, elf_data@, env.strampoline.0);
                lemma_owned_allocated(&memory_set, &pool1, p);
                assert(!ks0.owns(p));
            }
            assert forall|v: u64| apart_from(v, stack_start(pid.0), stack_end(pid.0)) implies #[trigger] kernel_space.page_table.lookup(
                pool,
                v,
            ) == ks0.page_table.lookup(&pool0, v) by {
                assert(ks0.page_table.lookup(&pool1, v) == ks0.page_table.lookup(&pool0, v));
            }
        }
        let mut fd_table: Vec<Option<FileDescriptor>> = Vec::new();
        fd_table.push(Some(FileDescriptor::Stdin));
        fd_table.push(Some(FileDescriptor::Stdout));
        fd_table.push(Some(FileDescriptor::Stdout));
        assert(fd_table@ =~= initial_fds());
        Self {
            pid,
            kernel_stack,
            inner: TCBInner {
                task_cx_ptr,
                task_status: TaskStatus::Ready,
                memory_set,
                trap_cx_ppn,
                base_size: user_sp,
                parent: None,
                children: Vec::new(),
                exit_code: 0,
                fd_table,
            },
        }
    }
}


/// A copy of the address space `parent_ms` of a user task, with the page
/// of its trap context.
#[verifier::spinoff_prover]
fn copy_program(
    parent_ms: &MemorySet,
    env: &KernelEnv,
    kernel_space: &MemorySet,
    pool: &mut FramePool,
    parent_trap: Ghost<u64>,
) -> (r: (MemorySet, PhysPageNum))
    requires
        kernel_space.wf(old(pool)),
        parent_ms.is_task_space(old(pool), env.strampoline.0, parent_trap@),
        old(pool).allocator@.free_count() >= 3 + parent_ms.copy_cost(parent_ms.areas@.len() as int),
    ensures
        r.0.is_task_space(final(pool), env.strampoline.0, r.1.0),
        parent_ms.is_task_space(final(pool), env.strampoline.0, parent_trap@),
        parent_ms.is_copied_to(&r.0, final(pool), old(pool), r.1.0),
        final(pool).mem()[r.1.0] == old(pool).mem()[parent_trap@],
        kernel_space.wf(final(pool)),
        final(pool).allocator@.free_count() >= old(pool).allocator@.free_count() - 3 - parent_ms.copy_cost(
            parent_ms.areas@.len() as int,
        ),
        final(pool).memory.base() == old(pool).memory.base(),
        final(pool).memory.count() == old(pool).memory.count(),
        forall|p: u64| old(pool).is_allocated(p) ==> #[trigger] final(pool).mem()[p] == old(pool).mem()[p],
        forall|p: u64| r.0.owns(p) ==> !old(pool).is_allocated(p),
        forall|p: u64| old(pool).is_allocated(p) ==> final(pool).is_allocated(p),
        forall|v: u64| #[trigger] kernel_space.page_table.lookup(final(pool), v) == kernel_space.page_table.lookup(old(pool), v),
        r.0.only_areas(final(pool)),
{
    let ghost pool0 = *pool;
    proof {
        parent_ms.lemma_task_space_facts(&pool0, env.strampoline.0, parent_trap@);
    }
    let memory_set = MemorySet::from_existed_user(parent_ms, env.strampoline, pool);
    proof {
        parent_ms.lemma_copied(&memory_set, pool, &pool0, env.strampoline.0, parent_trap@);
        parent_ms.lemma_only_areas_of_copy(&memory_set, pool, &pool0, env.strampoline.0);
        memory_set.lemma_task_space_facts(pool, env.strampoline.0, memory_set.areas@.last().data_frame@[0].1.ppn.0);
        assert forall|p: u64| kernel_space.owns(p) implies #[trigger] pool.mem()[p] == pool0.mem()[p] by {
            lemma_owned_allocated(kernel_space, &pool0, p);
        }
        lemma_space_kept(kernel_space, &pool0, pool);
    }
    let found = memory_set.translate(VirtAddr(crate::config::TRAP_CONTEXT).floor(), pool);
    let trap_cx_ppn = found.unwrap().ppn();
    (memory_set, trap_cx_ppn)
}

/// Sets the top of the kernel stack in the trap context on page `trap_ppn`.
#[verifier::spinoff_prover]
fn set_kernel_sp(trap_ppn: PhysPageNum, kernel_sp: u64, pool: &mut FramePool)
    requires
        old(pool).wf(),
        old(pool).memory.has(trap_ppn.0),
    ensures
        final(pool).wf(),
        final(pool).allocator == old(pool).allocator,
        final(pool).memory.base() == old(pool).memory.base(),
        final(pool).memory.count() == old(pool).memory.count(),
        trap_cx_at(final(pool).mem()[trap_ppn.0]) == (TrapContextView {
            kernel_sp,
            ..trap_cx_at(old(pool).mem()[trap_ppn.0])
        }),
        forall|p: u64| p != trap_ppn.0 ==> #[trigger] final(pool).mem()[p] == old(pool).mem()[p],
{
    let mut cx = TrapContext::load(pool, trap_ppn.0);
    cx.kernel_sp = kernel_sp;
    cx.store(pool, trap_ppn.0);
}

/// The kernel's side of a task that was copied from another: the kernel
/// stack with its task context, and the top of that stack in the trap context.
#[verifier::spinoff_prover]
fn setup_child_kernel_side(
    pid: &PidHandle,
    env: &KernelEnv,
    parent_ms: &MemorySet,
    child_ms: &MemorySet,
    child_trap: PhysPageNum,
    kernel_space: &mut MemorySet,
    pool: &mut FramePool,
    parent_trap: Ghost<u64>,
    pool0: Ghost<FramePool>,
) -> (r: (KernelStack, u64))
    requires
        old(kernel_space).wf(old(pool)),
        child_ms.is_task_space(old(pool), env.strampoline.0, child_trap.0),
        child_ms.only_areas(old(pool)),
        parent_ms.is_task_space(old(pool), env.strampoline.0, parent_trap@),
        parent_ms.is_copied_to(child_ms, old(pool), &pool0@, child_trap.0),
        forall|p: u64| child_ms.owns(p) ==> !old(kernel_space).owns(p),
        forall|p: u64| parent_ms.owns(p) ==> !old(kernel_space).owns(p) && !child_ms.owns(p),
        pid.0 < 0x100_0000,
        forall|v: u64|
            stack_start(pid.0) <= v < stack_end(pid.0) ==> (#[trigger] old(kernel_space).page_table.lookup(
                old(pool),
                v,
            )).is_none(),
        old(pool).allocator@.free_count() >= map_cost(stack_start(pid.0) as int, stack_end(pid.0) as int, true),
    ensures
        r.0.pid == pid.0,
        r.1 == kernel_stack_position_of(pid.0 as int).1 - 104,
        child_ms.is_task_space(final(pool), env.strampoline.0, child_trap.0),
        child_ms.only_areas(final(pool)),
        parent_ms.is_task_space(final(pool), env.strampoline.0, parent_trap@),
        parent_ms.is_copied_to(child_ms, final(pool), &pool0@, child_trap.0),
        stack_ready(final(kernel_space), final(pool), pid.0, env.trap_return),
        stack_added(old(kernel_space), old(pool), final(kernel_space), final(pool), pid.0),
        trap_cx_at(final(pool).mem()[child_trap.0]) == (TrapContextView {
            kernel_sp: kernel_stack_position_of(pid.0 as int).1 as u64,
            ..trap_cx_at(old(pool).mem()[child_trap.0])
        }),
        final(kernel_space).page_table.root_ppn == old(kernel_space).page_table.root_ppn,
        final(kernel_space).areas@.len() == old(kernel_space).areas@.len() + 1,
        final(kernel_space).areas@.drop_last() == old(kernel_space).areas@,
        final(kernel_space).areas@.last().start() == stack_start(pid.0),
        final(kernel_space).areas@.last().end() == stack_end(pid.0),
        final(pool).memory.base() == old(pool).memory.base(),
        final(pool).memory.count() == old(pool).memory.count(),
        forall|p: u64|
            old(pool).is_allocated(p) && !old(kernel_space).page_table.tables().owns(p) && p != child_trap.0
                ==> #[trigger] final(pool).mem()[p] == old(pool).mem()[p],
        forall|p: u64|
            final(kernel_space).owns(p) && !old(kernel_space).owns(p) ==> !old(pool).is_allocated(p),
        forall|p: u64| old(pool).is_allocated(p) ==> final(pool).is_allocated(p),
{
    let ghost pool1 = *pool;
    let ghost ks0 = *kernel_space;
    proof {
        child_ms.lemma_task_space_facts(&pool1, env.strampoline.0, child_trap.0);
        parent_ms.lemma_task_space_facts(&pool1, env.strampoline.0, parent_trap@);
    }
    let (kernel_stack, task_cx_ptr) = make_kernel_stack(pid, env, kernel_space, pool);
    let ghost pool2 = *pool;
    let ghost ks2 = *kernel_space;
    proof {
        assert forall|p: u64| child_ms.owns(p) implies #[trigger] pool2.mem()[p] == pool1.mem()[p] by {
            lemma_owned_allocated(child_ms, &pool1, p);
            if ks0.page_table.tables().owns(p) {
                assert(ks0.owns(p));
            }
        }
        assert forall|p: u64| parent_ms.owns(p) implies #[trigger] pool2.mem()[p] == pool1.mem()[p] by {
            lemma_owned_allocated(parent_ms, &pool1, p);
            if ks0.page_table.tables().owns(p) {
                assert(ks0.owns(p));
            }
        }
        child_ms.lemma_task_space_kept(&pool1, &pool2, env.strampoline.0, child_trap.0);
        parent_ms.lemma_task_space_kept(&pool1, &pool2, env.strampoline.0, parent_trap@);
        assert forall|p: u64| child_ms.page_table.tables().owns(p) implies #[trigger] pool2.mem()[p] == pool1.mem()[p] by {
            assert(child_ms.owns(p));
        }
        crate::mm::user_space::lemma_space_tables_kept(child_ms, &pool1, &pool2);
        child_ms.lemma_only_areas_kept(&pool1, &pool2);
        parent_ms.lemma_copy_kept(child_ms, &pool1, &pool2, &pool0@, child_trap.0);
        assert(pool1.is_allocated(child_trap.0)) by {
            lemma_owned_allocated(child_ms, &pool1, child_trap.0);
        }
        assert(!ks2.owns(child_trap.0)) by {
            if ks2.owns(child_trap.0) {
                assert(!ks0.owns(child_trap.0));
            }
        }
    }
    let kernel_stack_top = kernel_stack.get_top();
    set_kernel_sp(child_trap, kernel_stack_top, pool);
    proof {
        let q = stack_top_page(&ks2, &pool2, pid.0);
        assert(ks2.owns(q));
        assert forall|p: u64| ks2.owns(p) implies #[trigger] pool.mem()[p] == pool2.mem()[p] by {}
        lemma_space_kept(&ks2, &pool2, pool);
        child_ms.lemma_task_space_facts(&pool2, env.strampoline.0, child_trap.0);
        parent_ms.lemma_task_space_facts(&pool2, env.strampoline.0, parent_trap@);
        lemma_data_not_table(child_ms, &pool2, child_trap.0);
        child_ms.lemma_task_space_kept(&pool2, pool, env.strampoline.0, child_trap.0);
        crate::mm::user_space::lemma_space_tables_kept(child_ms, &pool2, pool);
        child_ms.lemma_only_areas_kept(&pool2, pool);
        assert(!parent_ms.owns(child_trap.0));
        assert forall|p: u64| parent_ms.page_table.tables().owns(p) implies #[trigger] pool.mem()[p] == pool2.mem()[p] by {
            assert(parent_ms.owns(p));
        }
        parent_ms.lemma_task_space_kept(&pool2, pool, env.strampoline.0, parent_trap@);
        parent_ms.lemma_copy_kept(child_ms, &pool2, pool, &pool0@, child_trap.0);
        assert(pool.mem()[q] == pool2.mem()[q]);
        assert forall|v: u64| apart_from(v, stack_start(pid.0), stack_end(pid.0)) implies #[trigger] kernel_space.page_table.lookup(
            pool,
            v,
        ) == ks0.page_table.lookup(&pool1, v) by {
            assert(ks2.page_table.lookup(&pool2, v) == ks0.page_table.lookup(&pool1, v));
        }
    }
    (kernel_stack, task_cx_ptr)
}

/// A copy of the file descriptors `table`.
fn clone_fd_table(table: &Vec<Option<FileDescriptor>>) -> (r: Vec<Option<FileDescriptor>>)
    ensures
        r@ == table@,
{
    let mut new_fd_table: Vec<Option<FileDescriptor>> = Vec::new();
    let mut i: usize = 0;
    while i < table.len()
        invariant
            i <= table@.len(),
            new_fd_table@ == table@.subrange(0, i as int),
        decreases table@.len() - i,
    {
        match table[i] {
            Some(file) => new_fd_table.push(Some(file)),
            None => new_fd_table.push(None),
        }
        assert(new_fd_table@ =~= table@.subrange(0, i + 1));
        i += 1;
    }
    assert(table@.subrange(0, table@.len() as int) =~= table@);
    new_fd_table
}

impl TCB {
    /// The task is one of a user program: its address space is one of a
    /// user task, with the trap context on the page that the task names.
    pub open spec fn is_user_task(&self, pool: &FramePool, strampoline: u64) -> bool {
        self.inner.memory_set.is_task_space(pool, strampoline, self.inner.trap_cx_ppn.0)
    }

    /// The task `child` is the new task that `self` makes when it forks in
    /// the pool `pool0`: it is ready, is a child of `self`, has the same file
    /// descriptors and the same size, a copy of the address space, and the
    /// same trap context but for the top of the kernel stack, which is its own.
    pub open spec fn forked(
        &self,
        child: &TCB,
        env: &KernelEnv,
        kernel_space: &MemorySet,
        pool: &FramePool,
        pool0: &FramePool,
    ) -> bool {
        &&& child.inner.task_status == TaskStatus::Ready
        &&& child.inner.parent == Some(self.pid.0)
        &&& child.inner.children@.len() == 0
        &&& child.inner.exit_code == 0
        &&& child.inner.fd_table@ == self.inner.fd_table@
        &&& child.inner.base_size == self.inner.base_size
        &&& child.is_user_task(pool, env.strampoline.0)
        &&& self.is_user_task(pool, env.strampoline.0)
        &&& self.inner.memory_set.is_copied_to(&child.inner.memory_set, pool, pool0, child.inner.trap_cx_ppn.0)
        &&& trap_cx_at(pool.mem()[child.inner.trap_cx_ppn.0]) == (TrapContextView {
            kernel_sp: kernel_stack_position_of(child.pid.0 as int).1 as u64,
            ..trap_cx_at(pool0.mem()[self.inner.trap_cx_ppn.0])
        })
        &&& child.kernel_stack.pid == child.pid.0
        &&& child.inner.task_cx_ptr == kernel_stack_position_of(child.pid.0 as int).1 - 104
        &&& stack_ready(kernel_space, pool, child.pid.0, env.trap_return)
    }

    /// A new task that is a copy of this one: the same program in a copy
    /// of the address space, the same file descriptors, and a trap context
    /// with the same registers. The new task is a child of this one.
    #[verifier::spinoff_prover]
    pub fn fork(
        &mut self,
        env: &KernelEnv,
        pid_allocator: &mut PidAllocator,
        kernel_space: &mut MemorySet,
        pool: &mut FramePool,
    ) -> (child: TCB)
        requires
            old(kernel_space).wf(old(pool)),
            old(self).is_user_task(old(pool), env.strampoline.0),
            forall|p: u64| old(self).inner.memory_set.owns(p) ==> !old(kernel_space).owns(p),
            old(pid_allocator)@.wf(),
            old(pid_allocator)@.next() < 0x100_0000,
            forall|v: u64|
                stack_start(old(pid_allocator)@.next()) <= v < stack_end(old(pid_allocator)@.next()) ==> (
                #[trigger] old(kernel_space).page_table.lookup(old(pool), v)).is_none(),
            old(pool).allocator@.free_count() >= 3 + old(self).inner.memory_set.copy_cost(
                old(self).inner.memory_set.areas@.len() as int,
            ) + map_cost(
                stack_start(old(pid_allocator)@.next()) as int,
                stack_end(old(pid_allocator)@.next()) as int,
                true,
            ),
        ensures
            child.pid.0 == old(pid_allocator)@.next(),
            final(pid_allocator)@ == old(pid_allocator)@.after_alloc(),
            final(pid_allocator)@.wf(),
            final(self).forked(&child, env, final(kernel_space), final(pool), old(pool)),
            final(self).pid == old(self).pid,
            final(self).kernel_stack == old(self).kernel_stack,
            final(self).inner.children@ == old(self).inner.children@.push(child.pid.0),
            final(self).inner.task_cx_ptr == old(self).inner.task_cx_ptr,
            final(self).inner.task_status == old(self).inner.task_status,
            final(self).inner.memory_set == old(self).inner.memory_set,
            final(self).inner.trap_cx_ppn == old(self).inner.trap_cx_ppn,
            final(self).inner.base_size == old(self).inner.base_size,
            final(self).inner.parent == old(self).inner.parent,
            final(self).inner.exit_code == old(self).inner.exit_code,
            final(self).inner.fd_table == old(self).inner.fd_table,
            final(kernel_space).page_table.root_ppn == old(kernel_space).page_table.root_ppn,
            final(kernel_space).areas@.len() == old(kernel_space).areas@.len() + 1,
            final(kernel_space).areas@.drop_last() == old(kernel_space).areas@,
            final(kernel_space).areas@.last().start() == stack_start(child.pid.0),
            final(kernel_space).areas@.last().end() == stack_end(child.pid.0),
            final(pool).memory.base() == old(pool).memory.base(),
            final(pool).memory.count() == old(pool).memory.count(),
            forall|p: u64|
                old(pool).is_allocated(p) && !old(kernel_space).page_table.tables().owns(p)
                    ==> #[trigger] final(pool).mem()[p] == old(pool).mem()[p],
            forall|p: u64| child.inner.memory_set.owns(p) ==> !old(pool).is_allocated(p),
            forall|p: u64|
                final(kernel_space).owns(p) && !old(kernel_space).owns(p) ==> !old(pool).is_allocated(p),
            forall|p: u64| old(pool).is_allocated(p) ==> final(pool).is_allocated(p),
            forall|p: u64| child.inner.memory_set.owns(p) ==> !final(kernel_space).owns(p),
            forall|p: u64| final(self).inner.memory_set.owns(p) ==> !final(kernel_space).owns(p),
            stack_added(old(kernel_space), old(pool), final(kernel_space), final(pool), child.pid.0),
            child.inner.memory_set.only_areas(final(pool)),
    {
        let ghost pool0 = *pool;
        let ghost ks0 = *kernel_space;
        let ghost parent_trap = self.inner.trap_cx_ppn.0;
        proof {
            lemma_map_cost_nonneg(
                stack_start(pid_allocator@.next()) as int,
                stack_end(pid_allocator@.next()) as int,
                true,
            );
            self.inner.memory_set.lemma_copy_cost(0, self.inner.memory_set.areas@.len() as int);
        }
        let (memory_set, trap_cx_ppn) = copy_program(
            &self.inner.memory_set,
            env,
            kernel_space,
            pool,
            Ghost(parent_trap),
        );
        let ghost pool1 = *pool;
        let pid = pid_alloc(pid_allocator);
        proof {
            assert forall|p: u64| memory_set.owns(p) implies !ks0.owns(p) by {
                if ks0.owns(p) {
                    lemma_owned_allocated(&ks0, &pool0, p);
                }
            }
            assert forall|p: u64| self.inner.memory_set.owns(p) implies !ks0.owns(p) && !memory_set.owns(p) by {
                self.inner.memory_set.lemma_task_space_facts(&pool0, env.strampoline.0, parent_trap);
                lemma_owned_allocated(&self.inner.memory_set, &pool0, p);
            }
        }
        let (kernel_stack, task_cx_ptr) = setup_child_kernel_side(
            &pid,
            env,
            &self.inner.memory_set,
            &memory_set,
            trap_cx_ppn,
            kernel_space,
            pool,
            Ghost(parent_trap),
            Ghost(pool0),
        );
        proof {
            memory_set.lemma_task_space_facts(&pool1, env.strampoline.0, trap_cx_ppn.0);
            assert forall|p: u64| pool0.is_allocated(p) && !ks0.page_table.tables().owns(p) implies #[trigger] pool.mem()[p]
                == pool0.mem()[p] by {
                assert(pool1.is_allocated(p));
                assert(p != trap_cx_ppn.0);
            }
            assert forall|p: u64| kernel_space.owns(p) && !ks0.owns(p) implies !pool0.is_allocated(p) by {
                assert(!pool1.is_allocated(p));
            }
            assert forall|p: u64| memory_set.owns(p) implies !kernel_space.owns(p) by {
                lemma_owned_allocated(&memory_set, &pool1, p);
                assert(!ks0.owns(p));
            }
            assert forall|p: u64| self.inner.memory_set.owns(p) implies !kernel_space.owns(p) by {
                self.inner.memory_set.lemma_task_space_facts(&pool0, env.strampoline.0, parent_trap);
                lemma_owned_allocated(&self.inner.memory_set, &pool0, p);
                assert(pool1.is_allocated(p));
                assert(!ks0.owns(p));
            }
            assert forall|v: u64| apart_from(v, stack_start(pid.0), stack_end(pid.0)) implies #[trigger] kernel_space.page_table.lookup(
                pool,
                v,
            ) == ks0.page_table.lookup(&pool0, v) by {
                assert(ks0.page_table.lookup(&pool1, v) == ks0.page_table.lookup(&pool0, v));
            }
        }
        let new_fd_table = clone_fd_table(&self.inner.fd_table);
        let child = TCB {
            pid,
            kernel_stack,
            inner: TCBInner {
                task_cx_ptr,
                task_status: TaskStatus::Ready,
                memory_set,
                trap_cx_ppn,
                base_size: self.inner.base_size,
                parent: Some(self.pid.0),
                children: Vec::new(),
                exit_code: 0,
                fd_table: new_fd_table,
            },
        };
        self.inner.children.push(child.pid.0);
        child
    }
}


/// The arguments of a program as byte strings.
pub open spec fn arg_bytes(args: Seq<Vec<u8>>) -> Seq<Seq<u8>> {
    Seq::new(args.len(), |i: int| args[i]@)
}

/// Number of bytes that the first `i` arguments take on the stack, each
/// with the zero byte that closes it.
pub open spec fn args_size(args: Seq<Seq<u8>>, i: int) -> int
    decreases i,
{
    if i <= 0 {
        0
    } else {
        args_size(args, i - 1) + args[i - 1].len() + 1
    }
}

/// Whether the arguments and the table of their addresses fit on the user stack.
pub open spec fn args_fit(args: Seq<Seq<u8>>) -> bool {
    8 * (args.len() + 1) + args_size(args, args.len() as int) + 8 <= 8192
}

/// The address of the table of the addresses of the arguments, below the
/// top `top` of the stack: one address for each argument, and a zero.
pub open spec fn argv_base_of(args: Seq<Seq<u8>>, top: int) -> int {
    top - 8 * (args.len() + 1)
}

/// The address of argument `i` on the stack: each argument lies below the one before it.
pub open spec fn arg_addr(args: Seq<Seq<u8>>, top: int, i: int) -> int {
    argv_base_of(args, top) - args_size(args, i + 1)
}

/// The stack pointer with which the program begins: below the last
/// argument, at a multiple of 8.
pub open spec fn args_sp(args: Seq<Seq<u8>>, top: int) -> int {
    let sp = argv_base_of(args, top) - args_size(args, args.len() as int);
    sp - sp % 8
}

/// The 8192 bytes of the user stack once the table of addresses and the
/// first `i` arguments are on it.
pub open spec fn args_image(args: Seq<Seq<u8>>, top: int, i: int) -> Seq<u8>
    decreases i,
{
    if i <= 0 {
        with_u64(Seq::new(8192, |k: int| 0u8), 8192 - 8, 0)
    } else {
        let img = args_image(args, top, i - 1);
        let addr = arg_addr(args, top, i - 1);
        splice(
            with_u64(img, 8192 - 8 * (args.len() + 1) + 8 * (i - 1), addr as u64),
            addr - (top - 8192),
            args[i - 1].push(0u8),
        )
    }
}

/// The size of the arguments grows with their number.
pub proof fn lemma_args_size(args: Seq<Seq<u8>>, i: int, n: int)
    requires
        0 <= i <= n <= args.len(),
    ensures
        0 <= args_size(args, i) <= args_size(args, n),
        i < n ==> args_size(args, i + 1) <= args_size(args, n),
    decreases n,
{
    if i < n {
        lemma_args_size(args, i, n - 1);
        if i + 1 < n {
            lemma_args_size(args, i + 1, n - 1);
        }
    } else if n > 0 {
        lemma_args_size(args, i - 1, n - 1);
    }
}

/// Puts the arguments `args` and the table of their addresses on the user
/// stack, which lies on the pages `f0` and `f1` and ends at the address
/// `stack_top`. Returns the stack pointer and the address of the table.
#[verifier::spinoff_prover]
fn push_args(f0: PhysPageNum, f1: PhysPageNum, args: &Vec<Vec<u8>>, stack_top: u64, pool: &mut FramePool) -> (r: (
    u64,
    u64,
))
    requires
        old(pool).wf(),
        old(pool).memory.has(f0.0),
        old(pool).memory.has(f1.0),
        f0 != f1,
        args_fit(arg_bytes(args@)),
        stack_top >= 8192,
        stack_top % 8 == 0,
    ensures
        r.0 == args_sp(arg_bytes(args@), stack_top as int),
        r.1 == argv_base_of(arg_bytes(args@), stack_top as int),
        final(pool).wf(),
        final(pool).allocator == old(pool).allocator,
        final(pool).memory.base() == old(pool).memory.base(),
        final(pool).memory.count() == old(pool).memory.count(),
        final(pool).mem()[f0.0] + final(pool).mem()[f1.0] == args_image(
            arg_bytes(args@),
            stack_top as int,
            args@.len() as int,
        ),
        forall|p: u64| p != f0.0 && p != f1.0 ==> #[trigger] final(pool).mem()[p] == old(pool).mem()[p],
{
    let ghost bs = arg_bytes(args@);
    let ghost top = stack_top as int;
    let argc = args.len();
    let mut buf: Vec<u8> = Vec::new();
    let mut k: usize = 0;
    while k < 8192
        invariant
            k <= 8192,
            buf@.len() == k,
            forall|j: int| 0 <= j < k ==> buf@[j] == 0u8,
        decreases 8192 - k,
    {
        buf.push(0u8);
        k += 1;
    }
    assert(buf@ =~= Seq::new(8192, |k: int| 0u8));
    proof {
        lemma_args_size(bs, 0, argc as int);
    }
    let mut user_sp: u64 = stack_top - ((argc + 1) * 8) as u64;
    let argv_base = user_sp;
    crate::codec::write_u64(buf.as_mut_slice(), 8192 - 8, 0);
    let mut i: usize = 0;
    while i < argc
        invariant
            i <= argc == args@.len(),
            bs == arg_bytes(args@),
            top == stack_top,
            args_fit(bs),
            stack_top >= 8192,
            argv_base == argv_base_of(bs, top),
            user_sp == argv_base - args_size(bs, i as int),
            buf@.len() == 8192,
            buf@ == args_image(bs, top, i as int),
        decreases argc - i,
    {
        proof {
            lemma_args_size(bs, i as int, argc as int);
            lemma_args_size(bs, i + 1, argc as int);
            assert(bs[i as int] == args@[i as int]@);
        }
        let arg = &args[i];
        let len = arg.len();
        user_sp = user_sp - (len as u64 + 1);
        let off = (user_sp - (stack_top - 8192)) as usize;
        crate::codec::write_u64(buf.as_mut_slice(), 8192 - 8 * (argc + 1) + 8 * i, user_sp);
        crate::codec::write_bytes(buf.as_mut_slice(), off, arg.as_slice());
        let ghost mid = buf@;
        buf.set(off + len, 0u8);
        proof {
            let img = args_image(bs, top, i as int);
            let addr = arg_addr(bs, top, i as int);
            assert(addr == user_sp);
            let w = with_u64(img, 8192 - 8 * (bs.len() + 1) + 8 * i, addr as u64);
            assert(mid == splice(w, off as int, arg@));
            assert(buf@ =~= splice(w, off as int, arg@.push(0u8)));
        }
        i += 1;
    }
    user_sp = user_sp - user_sp % 8;
    let lower = vstd::slice::slice_subrange(buf.as_slice(), 0, 4096);
    pool.memory.write_bytes(f0.0, 0, lower);
    let upper = vstd::slice::slice_subrange(buf.as_slice(), 4096, 8192);
    pool.memory.write_bytes(f1.0, 0, upper);
    proof {
        pool.memory.lemma_view();
        old(pool).memory.lemma_view();
        assert(pool.mem()[f0.0] =~= buf@.subrange(0, 4096));
        assert(pool.mem()[f1.0] =~= buf@.subrange(4096, 8192));
        assert(pool.mem()[f0.0] + pool.mem()[f1.0] =~= buf@);
    }
    (user_sp, argv_base)
}


/// The program of the ELF file `elf` in a new address space, with the
/// arguments `args` on its stack.
#[verifier::spinoff_prover]
fn prepare_program(
    elf: &ElfImage,
    elf_data: &[u8],
    args: &Vec<Vec<u8>>,
    env: &KernelEnv,
    kernel_space: &MemorySet,
    pool: &mut FramePool,
) -> (r: (MemorySet, u64, u64, PhysPageNum, u64))
    requires
        kernel_space.wf(old(pool)),
        elf.loadable(elf_data@.len() as int),
        env.strampoline.0 % 4096 == 0,
        env.strampoline.0 / 4096 < 0x1000_0000_0000,
        old(pool).allocator@.free_count() >= elf.cost(),
        args_fit(arg_bytes(args@)),
    ensures
        elf.image_of(&r.0, final(pool), elf_data@, env.strampoline.0),
        r.1 == args_sp(arg_bytes(args@), elf.stack_top() as int),
        r.2 == elf.entry_point,
        r.3.0 == elf.trap_page(&r.0),
        r.4 == argv_base_of(arg_bytes(args@), elf.stack_top() as int),
        final(pool).mem()[elf.stack_page(&r.0, 0)] + final(pool).mem()[elf.stack_page(&r.0, 1)] == args_image(
            arg_bytes(args@),
            elf.stack_top() as int,
            args@.len() as int,
        ),
        kernel_space.wf(final(pool)),
        final(pool).allocator@.free_count() >= old(pool).allocator@.free_count() - elf.cost(),
        final(pool).memory.base() == old(pool).memory.base(),
        final(pool).memory.count() == old(pool).memory.count(),
        forall|p: u64| old(pool).is_allocated(p) ==> #[trigger] final(pool).mem()[p] == old(pool).mem()[p],
        forall|p: u64| r.0.owns(p) ==> !old(pool).is_allocated(p),
        forall|p: u64| old(pool).is_allocated(p) ==> final(pool).is_allocated(p),
{
    let ghost pool0 = *pool;
    let (memory_set, user_sp, entry_point, trap_cx_ppn) = load_program(elf, elf_data, env, kernel_space, pool);
    let ghost pool1 = *pool;
    proof {
        elf.lemma_image_facts(&memory_set, &pool1, elf_data@, env.strampoline.0);
        elf.lemma_stack_top(elf_data@.len() as int);
    }
    let n = memory_set.areas.len() - 2;
    let f0 = memory_set.areas[n].data_frame[0].1.ppn;
    let f1 = memory_set.areas[n].data_frame[1].1.ppn;
    let (sp, argv_base) = push_args(f0, f1, args, user_sp, pool);
    proof {
        assert(memory_set.owns(f0.0) && memory_set.owns(f1.0));
        assert forall|p: u64| kernel_space.owns(p) implies #[trigger] pool.mem()[p] == pool1.mem()[p] by {
            lemma_owned_allocated(kernel_space, &pool0, p);
        }
        lemma_space_kept(kernel_space, &pool1, pool);
        elf.lemma_image_kept(&memory_set, &pool1, pool, elf_data@, env.strampoline.0);
    }
    (memory_set, sp, entry_point, trap_cx_ppn, argv_base)
}

/// Stores the trap context `cx` on page `trap_ppn` of the program in the
/// address space `memory_set`.
#[verifier::spinoff_prover]
fn store_trap_cx(
    memory_set: &MemorySet,
    trap_ppn: PhysPageNum,
    cx: &TrapContext,
    kernel_space: &MemorySet,
    pool: &mut FramePool,
    elf: Ghost<&ElfImage>,
    data: Ghost<Seq<u8>>,
    strampoline: Ghost<u64>,
)
    requires
        old(pool).wf(),
        kernel_space.wf(old(pool)),
        elf@.image_of(memory_set, old(pool), data@, strampoline@),
        trap_ppn.0 == elf@.trap_page(memory_set),
        !kernel_space.owns(trap_ppn.0),
    ensures
        elf@.image_of(memory_set, final(pool), data@, strampoline@),
        kernel_space.wf(final(pool)),
        trap_cx_at(final(pool).mem()[trap_ppn.0]) == cx@,
        final(pool).wf(),
        final(pool).allocator == old(pool).allocator,
        final(pool).memory.base() == old(pool).memory.base(),
        final(pool).memory.count() == old(pool).memory.count(),
        forall|p: u64| p != trap_ppn.0 ==> #[trigger] final(pool).mem()[p] == old(pool).mem()[p],
{
    let ghost pool2 = *pool;
    proof {
        elf@.lemma_image_facts(memory_set, &pool2, data@, strampoline@);
    }
    cx.store(pool, trap_ppn.0);
    proof {
        assert forall|p: u64| kernel_space.owns(p) implies #[trigger] pool.mem()[p] == pool2.mem()[p] by {}
        lemma_space_kept(kernel_space, &pool2, pool);
        elf@.lemma_image_kept(memory_set, &pool2, pool, data@, strampoline@);
    }
}

/// Puts the address space `new_space` in the place of the address space
/// of the task, whose pages go back to the pool.
#[verifier::spinoff_prover]
fn replace_space(
    inner: &mut TCBInner,
    new_space: MemorySet,
    new_trap: PhysPageNum,
    kernel_space: &MemorySet,
    pool: &mut FramePool,
    elf: Ghost<&ElfImage>,
    data: Ghost<Seq<u8>>,
    strampoline: Ghost<u64>,
)
    requires
        old(inner).memory_set.wf(old(pool)),
        kernel_space.wf(old(pool)),
        elf@.image_of(&new_space, old(pool), data@, strampoline@),
        new_trap.0 == elf@.trap_page(&new_space),
        forall|p: u64| old(inner).memory_set.owns(p) ==> !kernel_space.owns(p) && !new_space.owns(p),
    ensures
        final(inner).memory_set == new_space,
        final(inner).trap_cx_ppn == new_trap,
        final(inner).task_cx_ptr == old(inner).task_cx_ptr,
        final(inner).task_status == old(inner).task_status,
        final(inner).base_size == old(inner).base_size,
        final(inner).parent == old(inner).parent,
        final(inner).children == old(inner).children,
        final(inner).exit_code == old(inner).exit_code,
        final(inner).fd_table == old(inner).fd_table,
        elf@.image_of(&new_space, final(pool), data@, strampoline@),
        kernel_space.wf(final(pool)),
        final(pool).wf(),
        final(pool).memory == old(pool).memory,
        final(pool).allocator@.free_count() == old(pool).allocator@.free_count() + data_pages(
            old(inner).memory_set.areas@,
        ) + old(inner).memory_set.page_table.frames@.len(),
        forall|p: u64|
            old(pool).is_allocated(p) && !old(inner).memory_set.owns(p) ==> #[trigger] final(pool).is_allocated(p),
        forall|p: u64| old(inner).memory_set.owns(p) ==> !(#[trigger] final(pool).is_allocated(p)),
        forall|p: u64| #[trigger] final(pool).is_allocated(p) ==> old(pool).is_allocated(p),
{
    let ghost pool2 = *pool;
    let ghost old_space = inner.memory_set;
    let mut space = new_space;
    core::mem::swap(&mut inner.memory_set, &mut space);
    inner.trap_cx_ppn = new_trap;
    space.release(pool);
    proof {
        elf@.lemma_image_facts(&new_space, &pool2, data@, strampoline@);
        assert forall|p: u64| new_space.owns(p) implies pool.is_allocated(p) by {
            lemma_owned_allocated(&new_space, &pool2, p);
        }
        elf@.lemma_image_survives(&new_space, &pool2, pool, data@, strampoline@);
        assert forall|p: u64| kernel_space.owns(p) implies pool.is_allocated(p) by {
            lemma_owned_allocated(kernel_space, &pool2, p);
        }
        lemma_space_survives(kernel_space, &pool2, pool);
    }
}

/// The trap context with which a program begins that was given `argc`
/// arguments, whose table of addresses lies at `argv_base`.
pub open spec fn exec_context(
    entry: u64,
    sp: u64,
    kernel_satp: u64,
    kernel_sp: u64,
    trap_handler: u64,
    sstatus: u64,
    argc: u64,
    argv_base: u64,
) -> TrapContextView {
    let cx = TrapContextView::initial(entry, sp, kernel_satp, kernel_sp, trap_handler, sstatus);
    TrapContextView { x: cx.x.update(10, argc).update(11, argv_base), ..cx }
}

/// The trap context with which a program begins that was given `argc`
/// arguments: their number is in register 10, the address of their table in register 11.
fn exec_trap_cx(
    entry: u64,
    sp: u64,
    kernel_satp: u64,
    kernel_sp: u64,
    trap_handler: u64,
    sstatus: u64,
    argc: u64,
    argv_base: u64,
) -> (cx: TrapContext)
    ensures
        cx@ == exec_context(entry, sp, kernel_satp, kernel_sp, trap_handler, sstatus, argc, argv_base),
{
    let mut trap_cx = TrapContext::app_init_context(entry, sp, kernel_satp, kernel_sp, trap_handler, sstatus);
    trap_cx.x[10] = argc;
    trap_cx.x[11] = argv_base;
    trap_cx
}

impl TCB {
    /// The task was just made to run the program of the ELF file `elf`
    /// with the arguments `args`: the program is in its address space, the
    /// arguments are on its stack, and its trap context begins the program
    /// with the number of the arguments in register 10 and the address of
    /// their table in register 11.
    pub open spec fn executed(
        &self,
        elf: &ElfImage,
        data: Seq<u8>,
        args: Seq<Seq<u8>>,
        env: &KernelEnv,
        sstatus: u64,
        kernel_space: &MemorySet,
        pool: &FramePool,
    ) -> bool {
        &&& elf.image_of(&self.inner.memory_set, pool, data, env.strampoline.0)
        &&& self.inner.trap_cx_ppn.0 == elf.trap_page(&self.inner.memory_set)
        &&& pool.mem()[elf.stack_page(&self.inner.memory_set, 0)] + pool.mem()[elf.stack_page(
            &self.inner.memory_set,
            1,
        )] == args_image(args, elf.stack_top() as int, args.len() as int)
        &&& trap_cx_at(pool.mem()[self.inner.trap_cx_ppn.0]) == exec_context(
            elf.entry_point,
            args_sp(args, elf.stack_top() as int) as u64,
            (8u64 << 60) | kernel_space.page_table.root_ppn.0,
            kernel_stack_position_of(self.pid.0 as int).1 as u64,
            env.trap_handler,
            sstatus,
            args.len() as u64,
            argv_base_of(args, elf.stack_top() as int) as u64,
        )
        &&& kernel_space.wf(pool)
    }

    /// Makes the task run the program of the ELF file `elf`, whose bytes
    /// are `elf_data`, with the arguments `args`. The address space that
    /// the task had goes back to the pool.
    #[verifier::spinoff_prover]
    #[verifier::rlimit(50)]
    pub fn exec(
        &mut self,
        elf: &ElfImage,
        elf_data: &[u8],
        args: Vec<Vec<u8>>,
        env: &KernelEnv,
        sstatus: u64,
        kernel_space: &MemorySet,
        pool: &mut FramePool,
    )
        requires
            kernel_space.wf(old(pool)),
            old(self).inner.memory_set.wf(old(pool)),
            forall|p: u64| old(self).inner.memory_set.owns(p) ==> !kernel_space.owns(p),
            old(self).kernel_stack.pid < 0x100_0000,
            old(self).kernel_stack.pid == old(self).pid.0,
            elf.loadable(elf_data@.len() as int),
            env.strampoline.0 % 4096 == 0,
            env.strampoline.0 / 4096 < 0x1000_0000_0000,
            old(pool).allocator@.free_count() >= elf.cost(),
            args_fit(arg_bytes(args@)),
        ensures
            final(self).executed(elf, elf_data@, arg_bytes(args@), env, sstatus, kernel_space, final(pool)),
            final(self).pid == old(self).pid,
            final(self).kernel_stack == old(self).kernel_stack,
            final(self).inner.task_cx_ptr == old(self).inner.task_cx_ptr,
            final(self).inner.task_status == old(self).inner.task_status,
            final(self).inner.base_size == old(self).inner.base_size,
            final(self).inner.parent == old(self).inner.parent,
            final(self).inner.children == old(self).inner.children,
            final(self).inner.exit_code == old(self).inner.exit_code,
            final(self).inner.fd_table == old(self).inner.fd_table,
            final(pool).memory.base() == old(pool).memory.base(),
            final(pool).memory.count() == old(pool).memory.count(),
            forall|p: u64| old(pool).is_allocated(p) ==> #[trigger] final(pool).mem()[p] == old(pool).mem()[p],
            forall|p: u64| final(self).inner.memory_set.owns(p) ==> !old(pool).is_allocated(p),
            forall|p: u64|
                old(pool).is_allocated(p) && !old(self).inner.memory_set.owns(p) ==> #[trigger] final(pool).is_allocated(p),
            forall|p: u64| old(self).inner.memory_set.owns(p) ==> !(#[trigger] final(pool).is_allocated(p)),
    {
        let ghost pool0 = *pool;
        let ghost old_space = self.inner.memory_set;
        let (memory_set, user_sp, entry_point, trap_cx_ppn, argv_base) = prepare_program(
            elf,
            elf_data,
            &args,
            env,
            kernel_space,
            pool,
        );
        let ghost pool2 = *pool;
        proof {
            assert forall|p: u64| old_space.owns(p) implies !memory_set.owns(p) && #[trigger] pool2.mem()[p]
                == pool0.mem()[p] by {
                lemma_owned_allocated(&old_space, &pool0, p);
            }
            lemma_space_kept(&old_space, &pool0, &pool2);
            assert(arg_bytes(args@).len() == args@.len());
        }
        let trap_cx = exec_trap_cx(
            entry_point,
            user_sp,
            kernel_space.token(),
            self.kernel_stack.get_top(),
            env.trap_handler,
            sstatus,
            args.len() as u64,
            argv_base,
        );
        install_program(
            &mut self.inner,
            memory_set,
            trap_cx_ppn,
            &trap_cx,
            kernel_space,
            pool,
            Ghost(elf),
            Ghost(elf_data@),
            Ghost(env.strampoline.0),
        );
        proof {
            let ms = self.inner.memory_set;
            assert(ms.owns(trap_cx_ppn.0) && elf.stack_page(&ms, 0) != trap_cx_ppn.0 && elf.stack_page(&ms, 1)
                != trap_cx_ppn.0) by {
                elf.lemma_image_facts(&ms, &pool2, elf_data@, env.strampoline.0);
            }
            assert(pool.mem()[elf.stack_page(&ms, 0)] == pool2.mem()[elf.stack_page(&ms, 0)]);
            assert(pool.mem()[elf.stack_page(&ms, 1)] == pool2.mem()[elf.stack_page(&ms, 1)]);
            assert forall|p: u64| pool0.is_allocated(p) implies #[trigger] pool.mem()[p] == pool0.mem()[p] by {
                assert(pool2.mem()[p] == pool0.mem()[p]);
                assert(p != trap_cx_ppn.0);
            }
            assert forall|p: u64| pool0.is_allocated(p) && !old_space.owns(p) implies #[trigger] pool.is_allocated(
                p,
            ) by {
                assert(pool2.is_allocated(p));
            }
        }
    }
}

/// Puts the program in `new_space` in the place of the program of the
/// task, and the trap context `cx` on the page of its trap context.
#[verifier::spinoff_prover]
fn install_program(
    inner: &mut TCBInner,
    new_space: MemorySet,
    new_trap: PhysPageNum,
    cx: &TrapContext,
    kernel_space: &MemorySet,
    pool: &mut FramePool,
    elf: Ghost<&ElfImage>,
    data: Ghost<Seq<u8>>,
    strampoline: Ghost<u64>,
)
    requires
        old(inner).memory_set.wf(old(pool)),
        kernel_space.wf(old(pool)),
        elf@.image_of(&new_space, old(pool), data@, strampoline@),
        new_trap.0 == elf@.trap_page(&new_space),
        forall|p: u64| old(inner).memory_set.owns(p) ==> !kernel_space.owns(p) && !new_space.owns(p),
        forall|p: u64| new_space.owns(p) ==> !kernel_space.owns(p),
    ensures
        final(inner).memory_set == new_space,
        final(inner).trap_cx_ppn == new_trap,
        final(inner).task_cx_ptr == old(inner).task_cx_ptr,
        final(inner).task_status == old(inner).task_status,
        final(inner).base_size == old(inner).base_size,
        final(inner).parent == old(inner).parent,
        final(inner).children == old(inner).children,
        final(inner).exit_code == old(inner).exit_code,
        final(inner).fd_table == old(inner).fd_table,
        elf@.image_of(&new_space, final(pool), data@, strampoline@),
        kernel_space.wf(final(pool)),
        trap_cx_at(final(pool).mem()[new_trap.0]) == cx@,
        final(pool).wf(),
        final(pool).memory.base() == old(pool).memory.base(),
        final(pool).memory.count() == old(pool).memory.count(),
        forall|p: u64| p != new_trap.0 ==> #[trigger] final(pool).mem()[p] == old(pool).mem()[p],
        forall|p: u64|
            old(pool).is_allocated(p) && !old(inner).memory_set.owns(p) ==> #[trigger] final(pool).is_allocated(p),
        forall|p: u64| old(inner).memory_set.owns(p) ==> !(#[trigger] final(pool).is_allocated(p)),
        forall|p: u64| #[trigger] final(pool).is_allocated(p) ==> old(pool).is_allocated(p),
{
    let ghost pool2 = *pool;
    proof {
        assert(new_space.owns(new_trap.0)) by {
            elf@.lemma_image_facts(&new_space, &pool2, data@, strampoline@);
        }
    }
    replace_space(inner, new_space, new_trap, kernel_space, pool, elf, data, strampoline);
    let ghost pool3 = *pool;
    store_trap_cx(&inner.memory_set, new_trap, cx, kernel_space, pool, elf, data, strampoline);
    proof {
        assert forall|p: u64| #[trigger] pool.is_allocated(p) == pool3.is_allocated(p) by {}
    }
}

} // verus!
