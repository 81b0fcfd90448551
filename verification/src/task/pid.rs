use vstd::prelude::*;
use crate::codec::{splice, words64_bytes};
use crate::config::kernel_stack_position_of;
use crate::mm::address::{VirtAddr, VirtPageNum};
use crate::mm::frame_allocator::FramePool;
use crate::mm::memory_set::{apart_from, map_cost, MapPermission, MapType, MemorySet};
use crate::mm::page_table::pte_ppn;
use crate::mm::phys_mem::zero_page;
use crate::task::context::TaskContext;

verus! {

/// The number of a task. Whoever holds it owns the number.
pub struct PidHandle(pub usize);

/// What an allocator of task numbers knows: the numbers below `current`
/// were handed out at some time, and `recycled` holds those that came back.
pub struct PidView {
    pub current: usize,
    pub recycled: Seq<usize>,
}

impl PidView {
    /// The numbers that came back were handed out before, and none is listed twice.
    pub open spec fn wf(self) -> bool {
        &&& forall|i: int| 0 <= i < self.recycled.len() ==> #[trigger] self.recycled[i] < self.current
        &&& forall|i: int, j: int|
            0 <= i < self.recycled.len() && 0 <= j < self.recycled.len() && self.recycled[i]
                == self.recycled[j] ==> i == j
    }

    /// Whether the number `pid` is in use.
    pub open spec fn is_allocated(self, pid: usize) -> bool {
        pid < self.current && !self.recycled.contains(pid)
    }

    /// The number that is handed out next: the one that came back last,
    /// or, where none is left of those, the first that never was handed out.
    pub open spec fn next(self) -> usize {
        if self.recycled.len() > 0 {
            self.recycled.last()
        } else {
            self.current
        }
    }

    /// The allocator after a number was handed out.
    pub open spec fn after_alloc(self) -> PidView {
        if self.recycled.len() > 0 {
            PidView { recycled: self.recycled.drop_last(), ..self }
        } else {
            PidView { current: (self.current + 1) as usize, ..self }
        }
    }

    /// The allocator after the number `pid` came back.
    pub open spec fn after_dealloc(self, pid: usize) -> PidView {
        PidView { recycled: self.recycled.push(pid), ..self }
    }
}

/// The number that is handed out was not in use before, is in use after,
/// and no other number changes hands.
pub proof fn lemma_pid_fresh(a: PidView)
    requires
        a.wf(),
        a.recycled.len() > 0 || a.current < usize::MAX,
    ensures
        a.after_alloc().wf(),
        !a.is_allocated(a.next()),
        a.after_alloc().is_allocated(a.next()),
        forall|p: usize| p != a.next() ==> a.after_alloc().is_allocated(p) == a.is_allocated(p),
{
    let b = a.after_alloc();
    let n = a.next();
    if a.recycled.len() > 0 {
        let last = a.recycled.len() - 1;
        assert(a.recycled[last] == n);
        assert forall|i: int| 0 <= i < b.recycled.len() implies b.recycled[i] == a.recycled[i] by {}
        assert(!b.recycled.contains(n)) by {
            if b.recycled.contains(n) {
                let i = choose|i: int| 0 <= i < b.recycled.len() && b.recycled[i] == n;
                assert(a.recycled[i] == a.recycled[last]);
            }
        }
        assert forall|p: usize| p != n implies b.is_allocated(p) == a.is_allocated(p) by {
            if a.recycled.contains(p) {
                let i = choose|i: int| 0 <= i < a.recycled.len() && a.recycled[i] == p;
                assert(b.recycled[i] == p);
            }
            if b.recycled.contains(p) {
                let i = choose|i: int| 0 <= i < b.recycled.len() && b.recycled[i] == p;
                assert(a.recycled[i] == p);
            }
        }
    } else {
        assert(!b.recycled.contains(n));
    }
}

/// A number that comes back is the number that is handed out next.
pub proof fn lemma_pid_reuse(a: PidView, pid: usize)
    requires
        a.wf(),
        a.is_allocated(pid),
    ensures
        a.after_dealloc(pid).wf(),
        a.after_dealloc(pid).next() == pid,
        a.after_dealloc(pid).after_alloc() == a,
        !a.after_dealloc(pid).is_allocated(pid),
        forall|p: usize| p != pid ==> a.after_dealloc(pid).is_allocated(p) == a.is_allocated(p),
{
    let b = a.after_dealloc(pid);
    assert(b.recycled[a.recycled.len() as int] == pid);
    assert(b.recycled.drop_last() =~= a.recycled);
    assert forall|i: int, j: int|
        0 <= i < b.recycled.len() && 0 <= j < b.recycled.len() && b.recycled[i] == b.recycled[j] implies i
        == j by {
        if i < a.recycled.len() {
            assert(a.recycled[i] == b.recycled[i]);
        }
        if j < a.recycled.len() {
            assert(a.recycled[j] == b.recycled[j]);
        }
    }
    assert forall|p: usize| p != pid implies b.is_allocated(p) == a.is_allocated(p) by {
        if a.recycled.contains(p) {
            let i = choose|i: int| 0 <= i < a.recycled.len() && a.recycled[i] == p;
            assert(b.recycled[i] == p);
        }
        if b.recycled.contains(p) {
            let i = choose|i: int| 0 <= i < b.recycled.len() && b.recycled[i] == p;
            if i < a.recycled.len() {
                assert(a.recycled[i] == p);
            }
        }
    }
}

/// An allocator of task numbers: numbers that came back are handed out
/// again, last one first; else the next number that never was handed out.
pub struct PidAllocator {
    current: usize,
    recycled: Vec<usize>,
}

impl View for PidAllocator {
    type V = PidView;

    closed spec fn view(&self) -> PidView {
        PidView { current: self.current, recycled: self.recycled@ }
    }
}

impl PidAllocator {
    /// An allocator that has handed out no number.
    pub fn new() -> (r: Self)
        ensures
            r@ == (PidView { current: 0, recycled: Seq::<usize>::empty() }),
            r@.wf(),
    {
        Self { current: 0, recycled: Vec::new() }
    }

    /// Hands out a number.
    pub fn allocate(&mut self) -> (r: PidHandle)
        requires
            old(self)@.wf(),
            old(self)@.recycled.len() > 0 || old(self)@.current < usize::MAX,
        ensures
            r.0 == old(self)@.next(),
            final(self)@ == old(self)@.after_alloc(),
            final(self)@.wf(),
    {
        proof {
            lemma_pid_fresh(self@);
        }
        if let Some(pid) = self.recycled.pop() {
            PidHandle(pid)
        } else {
            self.current += 1;
            PidHandle(self.current - 1)
        }
    }

    /// The number that is handed out next.
    pub fn peek(&self) -> (r: usize)
        ensures
            r == self@.next(),
    {
        let n = self.recycled.len();
        if n > 0 {
            self.recycled[n - 1]
        } else {
            self.current
        }
    }

    /// Takes back the number `pid`, which must be in use.
    pub fn dealloc(&mut self, pid: usize)
        requires
            old(self)@.wf(),
            old(self)@.is_allocated(pid),
        ensures
            final(self)@ == old(self)@.after_dealloc(pid),
            final(self)@.wf(),
    {
        proof {
            lemma_pid_reuse(self@, pid);
        }
        self.recycled.push(pid);
    }

    /// Whether the number `pid` is in use.
    pub fn is_allocated(&self, pid: usize) -> (r: bool)
        ensures
            r == self@.is_allocated(pid),
    {
        if pid >= self.current {
            return false;
        }
        let mut i: usize = 0;
        while i < self.recycled.len()
            invariant
                i <= self.recycled@.len(),
                forall|j: int| 0 <= j < i ==> self.recycled@[j] != pid,
            decreases self.recycled@.len() - i,
        {
            if self.recycled[i] == pid {
                return false;
            }
            i += 1;
        }
        true
    }
}

/// Hands out a task number.
pub fn pid_alloc(allocator: &mut PidAllocator) -> (r: PidHandle)
    requires
        old(allocator)@.wf(),
        old(allocator)@.recycled.len() > 0 || old(allocator)@.current < usize::MAX,
    ensures
        r.0 == old(allocator)@.next(),
        final(allocator)@ == old(allocator)@.after_alloc(),
        final(allocator)@.wf(),
{
    allocator.allocate()
}

/// Bottom and top of the kernel stack of the task with number `app_id`.
pub fn kernel_stack_position(app_id: usize) -> (r: (u64, u64))
    requires
        app_id < 0x100_0000,
    ensures
        r.0 == crate::config::kernel_stack_position_of(app_id as int).0,
        r.1 == crate::config::kernel_stack_position_of(app_id as int).1,
        r.1 - r.0 == 8192,
        r.0 % 4096 == 0,
{
    crate::config::kernel_stack_position(app_id as u64)
}


/// The kernel stack of a task: two pages in the address space of the
/// kernel, below the trampoline, at a place that the task's number gives.
pub struct KernelStack {
    pub pid: usize,
}

/// The first page of the kernel stack of the task with number `pid`.
pub open spec fn stack_start(pid: usize) -> u64 {
    (kernel_stack_position_of(pid as int).0 / 4096) as u64
}

/// The page at which the kernel stack of the task with number `pid` ends.
pub open spec fn stack_end(pid: usize) -> u64 {
    (kernel_stack_position_of(pid as int).1 / 4096) as u64
}

impl KernelStack {
    /// Maps the kernel stack of the task with the number of `pid_handle`
    /// in the address space of the kernel, to be read and written.
    pub fn new(pid_handle: &PidHandle, kernel_space: &mut MemorySet, pool: &mut FramePool) -> (r: Self)
        requires
            old(kernel_space).wf(old(pool)),
            pid_handle.0 < 0x100_0000,
            forall|v: u64|
                stack_start(pid_handle.0) <= v < stack_end(pid_handle.0) ==> (#[trigger] old(
                    kernel_space,
                ).page_table.lookup(old(pool), v)).is_none(),
            old(pool).allocator@.free_count() >= map_cost(
                stack_start(pid_handle.0) as int,
                stack_end(pid_handle.0) as int,
                true,
            ),
        ensures
            r.pid == pid_handle.0,
            final(kernel_space).wf(final(pool)),
            final(kernel_space).page_table.root_ppn == old(kernel_space).page_table.root_ppn,
            final(kernel_space).areas@.len() == old(kernel_space).areas@.len() + 1,
            final(kernel_space).areas@.drop_last() == old(kernel_space).areas@,
            final(kernel_space).areas@.last().start() == stack_start(pid_handle.0),
            final(kernel_space).areas@.last().end() == stack_end(pid_handle.0),
            final(kernel_space).areas@.last().map_type == MapType::Framed,
            final(kernel_space).areas@.last().map_perm.bits == 0x06,
            forall|i: int|
                0 <= i < final(kernel_space).areas@.last().data_frame@.len() ==> {
                    let f = (#[trigger] final(kernel_space).areas@.last().data_frame@[i]).1.ppn.0;
                    &&& !old(pool).is_allocated(f)
                    &&& final(pool).mem()[f] == zero_page()
                },
            forall|v: u64|
                apart_from(v, stack_start(pid_handle.0), stack_end(pid_handle.0))
                    ==> #[trigger] final(kernel_space).page_table.lookup(final(pool), v) == old(
                    kernel_space,
                ).page_table.lookup(old(pool), v),
            final(pool).allocator@.free_count() >= old(pool).allocator@.free_count() - map_cost(
                stack_start(pid_handle.0) as int,
                stack_end(pid_handle.0) as int,
                true,
            ),
            final(pool).memory.base() == old(pool).memory.base(),
            final(pool).memory.count() == old(pool).memory.count(),
            forall|p: u64|
                old(pool).is_allocated(p) && !old(kernel_space).page_table.tables().owns(p)
                    ==> #[trigger] final(pool).mem()[p] == old(pool).mem()[p],
            forall|p: u64|
                final(kernel_space).owns(p) && !old(kernel_space).owns(p) ==> !old(pool).is_allocated(p),
            forall|p: u64| old(pool).is_allocated(p) ==> final(pool).is_allocated(p),
    {
        let pid = pid_handle.0;
        let (bottom, top) = kernel_stack_position(pid);
        kernel_space.insert_framed_area(VirtAddr(bottom), VirtAddr(top), MapPermission::from_bits(0x06), pool);
        KernelStack { pid }
    }

    /// The top of the kernel stack.
    pub fn get_top(&self) -> (r: u64)
        requires
            self.pid < 0x100_0000,
        ensures
            r == kernel_stack_position_of(self.pid as int).1,
    {
        let (_, top) = kernel_stack_position(self.pid);
        top
    }

    /// Puts the task context `value` at the top of the kernel stack and
    /// returns the address at which it lies.
    pub fn push_on_top(&self, value: &TaskContext, kernel_space: &MemorySet, pool: &mut FramePool) -> (r: u64)
        requires
            self.pid < 0x100_0000,
            old(pool).wf(),
            kernel_space.page_table.lookup(old(pool), (stack_end(self.pid) - 1) as u64).is_some(),
            old(pool).memory.has(
                pte_ppn(kernel_space.page_table.lookup(old(pool), (stack_end(self.pid) - 1) as u64).unwrap()),
            ),
        ensures
            r == kernel_stack_position_of(self.pid as int).1 - 104,
            final(pool).wf(),
            final(pool).allocator == old(pool).allocator,
            final(pool).memory.base() == old(pool).memory.base(),
            final(pool).memory.count() == old(pool).memory.count(),
            ({
                let ppn = pte_ppn(
                    kernel_space.page_table.lookup(old(pool), (stack_end(self.pid) - 1) as u64).unwrap(),
                );
                final(pool).mem() == old(pool).mem().insert(
                    ppn,
                    splice(old(pool).mem()[ppn], 4096 - 104, words64_bytes(value.words())),
                )
            }),
    {
        let top = self.get_top();
        let ptr = top - 104;
        let found = kernel_space.page_table.translate(VirtAddr(ptr).floor(), pool);
        let ppn = found.unwrap().ppn();
        let words = value.to_words();
        let bytes = crate::codec::words64_to_bytes(words.as_slice());
        pool.memory.write_bytes(ppn.0, 4096 - 104, bytes.as_slice());
        ptr
    }
}

} // verus!
