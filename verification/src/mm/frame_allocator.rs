use vstd::prelude::*;
use crate::config::MEMORY_END;
use crate::mm::address::{PhysAddr, PhysPageNum};
use crate::mm::phys_mem::{zero_page, PhysMemory};
use crate::mm::Memory;

verus! {

/// The ownership of one physical page.
pub struct FrameTracker {
    pub ppn: PhysPageNum,
}

impl FrameTracker {
    /// Takes page `ppn` into use: the page is filled with zero bytes.
    pub fn new(ppn: PhysPageNum, memory: &mut PhysMemory) -> (r: Self)
        requires
            old(memory).wf(),
            old(memory).has(ppn.0),
        ensures
            r.ppn == ppn,
            final(memory).wf(),
            final(memory).base() == old(memory).base(),
            final(memory).count() == old(memory).count(),
            final(memory)@ == old(memory)@.insert(ppn.0, zero_page()),
    {
        memory.clear_page(ppn.0);
        Self { ppn }
    }
}

/// What an allocator of pages knows: the pages from `start` up to `current`
/// were handed out at some time, those from `current` up to `end` never
/// were, and `recycled` holds the pages that came back, last one last.
pub struct AllocView {
    pub start: u64,
    pub current: u64,
    pub end: u64,
    pub recycled: Seq<u64>,
}

impl AllocView {
    /// The pages that came back were handed out before, and none is listed twice.
    pub open spec fn wf(self) -> bool {
        &&& self.start <= self.current <= self.end
        &&& forall|i: int|
            0 <= i < self.recycled.len() ==> self.start <= #[trigger] self.recycled[i] < self.current
        &&& forall|i: int, j: int|
            0 <= i < self.recycled.len() && 0 <= j < self.recycled.len() && self.recycled[i]
                == self.recycled[j] ==> i == j
    }

    /// Whether page `ppn` is in use: handed out and not yet back.
    pub open spec fn is_allocated(self, ppn: u64) -> bool {
        self.start <= ppn < self.current && !self.recycled.contains(ppn)
    }

    /// Whether a page can be handed out.
    pub open spec fn can_alloc(self) -> bool {
        self.recycled.len() > 0 || self.current < self.end
    }

    /// Number of pages that can still be handed out.
    pub open spec fn free_count(self) -> int {
        self.recycled.len() + self.end - self.current
    }

    /// The page that is handed out next: the one that came back last, or,
    /// where none is left of those, the first that never was handed out.
    pub open spec fn next(self) -> u64 {
        if self.recycled.len() > 0 {
            self.recycled.last()
        } else {
            self.current
        }
    }

    /// The allocator after a page was handed out.
    pub open spec fn after_alloc(self) -> AllocView {
        if self.recycled.len() > 0 {
            AllocView { recycled: self.recycled.drop_last(), ..self }
        } else if self.current < self.end {
            AllocView { current: (self.current + 1) as u64, ..self }
        } else {
            self
        }
    }

    /// The allocator after page `ppn` came back.
    pub open spec fn after_dealloc(self, ppn: u64) -> AllocView {
        AllocView { recycled: self.recycled.push(ppn), ..self }
    }
}

/// A page that comes back is the page that is handed out next.
pub proof fn lemma_reuse_last_freed(a: AllocView, ppn: u64)
    requires
        a.wf(),
        a.is_allocated(ppn),
    ensures
        a.after_dealloc(ppn).wf(),
        a.after_dealloc(ppn).can_alloc(),
        a.after_dealloc(ppn).next() == ppn,
        a.after_dealloc(ppn).after_alloc() == a,
        !a.after_dealloc(ppn).is_allocated(ppn),
{
    let b = a.after_dealloc(ppn);
    assert(b.recycled[a.recycled.len() as int] == ppn);
    assert(b.recycled.drop_last() =~= a.recycled);
    assert forall|i: int, j: int|
        0 <= i < b.recycled.len() && 0 <= j < b.recycled.len() && b.recycled[i] == b.recycled[j] implies i
        == j by {
        if i < a.recycled.len() {
            assert(a.recycled[i] == b.recycled[i]);
        }
        if j < a.recycled.len() {
            assert(a.recycled[j] == b.recycled[j]);
        }
    }
}

/// The page that is handed out was not in use before, is in use after, and
/// no other page changes hands.
pub proof fn lemma_alloc_fresh(a: AllocView)
    requires
        a.wf(),
        a.can_alloc(),
    ensures
        a.after_alloc().wf(),
        !a.is_allocated(a.next()),
        a.after_alloc().is_allocated(a.next()),
        a.start <= a.next() < a.end,
        forall|p: u64| p != a.next() ==> a.after_alloc().is_allocated(p) == a.is_allocated(p),
        a.after_alloc().free_count() == a.free_count() - 1,
{
    let b = a.after_alloc();
    let n = a.next();
    if a.recycled.len() > 0 {
        let last = a.recycled.len() - 1;
        assert(a.recycled[last] == n);
        assert forall|i: int| 0 <= i < b.recycled.len() implies b.recycled[i] == a.recycled[i] by {}
        assert(!b.recycled.contains(n)) by {
            if b.recycled.contains(n) {
                let i = choose|i: int| 0 <= i < b.recycled.len() && b.recycled[i] == n;
                assert(a.recycled[i] == a.recycled[last]);
            }
        }
        assert forall|p: u64| p != n implies b.is_allocated(p) == a.is_allocated(p) by {
            if a.recycled.contains(p) {
                let i = choose|i: int| 0 <= i < a.recycled.len() && a.recycled[i] == p;
                assert(b.recycled[i] == p);
            }
            if b.recycled.contains(p) {
                let i = choose|i: int| 0 <= i < b.recycled.len() && b.recycled[i] == p;
                assert(a.recycled[i] == p);
            }
        }
    } else {
        assert(!b.recycled.contains(n));
    }
}

/// An allocator of physical pages: pages that came back are handed out
/// again, last one first; else the next page that never was handed out.
pub struct StackFrameAllocator {
    start: u64,
    current: u64,
    end: u64,
    recycled: Vec<u64>,
}

impl View for StackFrameAllocator {
    type V = AllocView;

    closed spec fn view(&self) -> AllocView {
        AllocView { start: self.start, current: self.current, end: self.end, recycled: self.recycled@ }
    }
}

impl StackFrameAllocator {
    /// An allocator without pages.
    pub fn new() -> (r: Self)
        ensures
            r@ == (AllocView { start: 0, current: 0, end: 0, recycled: Seq::<u64>::empty() }),
            r@.wf(),
    {
        Self { start: 0, current: 0, end: 0, recycled: Vec::new() }
    }

    /// Gives the allocator the pages from `l` up to `r`, none of which was handed out.
    pub fn init(&mut self, l: PhysPageNum, r: PhysPageNum)
        requires
            l.0 <= r.0,
        ensures
            final(self)@ == (AllocView { start: l.0, current: l.0, end: r.0, recycled: old(self)@.recycled }),
    {
        self.start = l.0;
        self.current = l.0;
        self.end = r.0;
    }

    /// Hands out a page, or `None` where none is left.
    pub fn allocate(&mut self) -> (r: Option<PhysPageNum>)
        requires
            old(self)@.wf(),
        ensures
            final(self)@ == old(self)@.after_alloc(),
            final(self)@.wf(),
            r.is_some() == old(self)@.can_alloc(),
            r.is_some() ==> r.unwrap().0 == old(self)@.next(),
    {
        proof {
            if self@.can_alloc() {
                lemma_alloc_fresh(self@);
            }
        }
        if let Some(ppn) = self.recycled.pop() {
            Some(PhysPageNum(ppn))
        } else {
            if self.current == self.end {
                None
            } else {
                self.current += 1;
                Some(PhysPageNum(self.current - 1))
            }
        }
    }

    /// Whether page `ppn` is in use.
    pub fn is_allocated(&self, ppn: PhysPageNum) -> (r: bool)
        ensures
            r == self@.is_allocated(ppn.0),
    {
        if ppn.0 < self.start || ppn.0 >= self.current {
            return false;
        }
        let mut i: usize = 0;
        while i < self.recycled.len()
            invariant
                i <= self.recycled@.len(),
                forall|j: int| 0 <= j < i ==> self.recycled@[j] != ppn.0,
            decreases self.recycled@.len() - i,
        {
            if self.recycled[i] == ppn.0 {
                return false;
            }
            i += 1;
        }
        true
    }

    /// Takes back page `ppn`, which must be in use.
    pub fn dealloc(&mut self, ppn: PhysPageNum)
        requires
            old(self)@.wf(),
            old(self)@.is_allocated(ppn.0),
        ensures
            final(self)@ == old(self)@.after_dealloc(ppn.0),
            final(self)@.wf(),
    {
        proof {
            lemma_reuse_last_freed(self@, ppn.0);
        }
        self.recycled.push(ppn.0);
    }

    /// Number of pages that can still be handed out.
    pub fn free_frames(&self) -> (r: usize)
        requires
            self@.wf(),
            self@.free_count() <= usize::MAX,
        ensures
            r == self@.free_count(),
    {
        self.recycled.len() + (self.end - self.current) as usize
    }
}

/// The physical pages that the kernel hands out, and the allocator that
/// keeps track of them.
pub struct FramePool {
    pub allocator: StackFrameAllocator,
    pub memory: PhysMemory,
}

impl FramePool {
    /// The allocator is in order, and every page it may hand out exists.
    pub open spec fn wf(&self) -> bool {
        &&& self.allocator@.wf()
        &&& self.memory.wf()
        &&& self.memory.base() <= self.allocator@.start
        &&& self.allocator@.end <= self.memory.base() + self.memory.count()
        &&& self.memory.base() + self.memory.count() <= 0x1000_0000_0000
    }

    /// The content of the pages.
    pub open spec fn mem(&self) -> Memory {
        self.memory@
    }

    /// Whether page `ppn` is in use.
    pub open spec fn is_allocated(&self, ppn: u64) -> bool {
        self.allocator@.is_allocated(ppn)
    }

    /// A pool of the pages from `l` up to `r`, all zero and none in use.
    pub fn new(l: PhysPageNum, r: PhysPageNum) -> (pool: Self)
        requires
            l.0 <= r.0 <= 0x1000_0000_0000,
            r.0 - l.0 <= usize::MAX,
        ensures
            pool.wf(),
            pool.allocator@ == (AllocView { start: l.0, current: l.0, end: r.0, recycled: Seq::<u64>::empty() }),
            pool.memory.base() == l.0,
            pool.memory.count() == r.0 - l.0,
            forall|ppn: u64| pool.memory.has(ppn) ==> #[trigger] pool.mem()[ppn] == zero_page(),
    {
        let mut allocator = StackFrameAllocator::new();
        allocator.init(l, r);
        let memory = PhysMemory::new(l.0, (r.0 - l.0) as usize);
        Self { allocator, memory }
    }
}

/// Hands out a page filled with zero bytes, or `None` where none is left.
pub fn frame_alloc(pool: &mut FramePool) -> (r: Option<FrameTracker>)
    requires
        old(pool).wf(),
    ensures
        final(pool).wf(),
        r.is_some() == old(pool).allocator@.can_alloc(),
        final(pool).allocator@ == old(pool).allocator@.after_alloc(),
        final(pool).memory.base() == old(pool).memory.base(),
        final(pool).memory.count() == old(pool).memory.count(),
        r.is_some() ==> {
            &&& r.unwrap().ppn.0 == old(pool).allocator@.next()
            &&& final(pool).mem() == old(pool).mem().insert(r.unwrap().ppn.0, zero_page())
            &&& final(pool).memory.has(r.unwrap().ppn.0)
            &&& !old(pool).is_allocated(r.unwrap().ppn.0)
            &&& final(pool).is_allocated(r.unwrap().ppn.0)
        },
        r.is_none() ==> final(pool).mem() == old(pool).mem(),
{
    proof {
        if pool.allocator@.can_alloc() {
            lemma_alloc_fresh(pool.allocator@);
        }
    }
    match pool.allocator.allocate() {
        Some(ppn) => Some(FrameTracker::new(ppn, &mut pool.memory)),
        None => None,
    }
}

/// Takes back page `ppn`, which must be in use.
pub fn frame_dealloc(pool: &mut FramePool, ppn: PhysPageNum)
    requires
        old(pool).wf(),
        old(pool).is_allocated(ppn.0),
    ensures
        final(pool).wf(),
        final(pool).allocator@ == old(pool).allocator@.after_dealloc(ppn.0),
        final(pool).memory == old(pool).memory,
{
    pool.allocator.dealloc(ppn);
}

/// The pool of the pages between the end of the kernel, at address
/// `ekernel`, and the end of physical memory.
pub fn init_frame_allocator(ekernel: u64) -> (pool: FramePool)
    requires
        ekernel <= MEMORY_END,
    ensures
        pool.wf(),
        pool.allocator@ == (AllocView {
            start: ((ekernel + 4095) / 4096) as u64,
            current: ((ekernel + 4095) / 4096) as u64,
            end: (MEMORY_END / 4096) as u64,
            recycled: Seq::<u64>::empty(),
        }),
        pool.memory.base() == (ekernel + 4095) / 4096,
        pool.memory.count() == MEMORY_END / 4096 - (ekernel + 4095) / 4096,
        forall|ppn: u64| pool.memory.has(ppn) ==> #[trigger] pool.mem()[ppn] == zero_page(),
{
    FramePool::new(PhysAddr(ekernel).ceil(), PhysAddr(MEMORY_END).floor())
}

} // verus!
