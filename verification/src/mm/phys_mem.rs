use vstd::prelude::*;
use crate::codec::{le_u64, splice, with_u64};
use crate::mm::Memory;

verus! {

/// A run of physical pages of 4096 bytes each.
pub struct PhysMemory {
    base: u64,
    pages: Vec<Vec<u8>>,
}

/// A page of zero bytes.
pub open spec fn zero_page() -> Seq<u8> {
    Seq::new(4096, |i: int| 0u8)
}

impl View for PhysMemory {
    type V = Memory;

    closed spec fn view(&self) -> Memory {
        Map::new(
            |ppn: u64| self.base <= ppn < self.base + self.pages@.len(),
            |ppn: u64| self.pages@[ppn - self.base]@,
        )
    }
}

impl PhysMemory {
    /// The number of the first page.
    pub closed spec fn base(&self) -> u64 {
        self.base
    }

    /// The number of pages.
    pub closed spec fn count(&self) -> nat {
        self.pages@.len()
    }

    /// Whether page `ppn` is part of the memory.
    pub open spec fn has(&self, ppn: u64) -> bool {
        self.base() <= ppn < self.base() + self.count()
    }

    /// Every page holds 4096 bytes, and page numbers do not wrap.
    pub closed spec fn wf(&self) -> bool {
        &&& self.base + self.pages@.len() <= u64::MAX
        &&& forall|i: int| 0 <= i < self.pages@.len() ==> (#[trigger] self.pages@[i])@.len() == 4096
    }

    /// The pages of the memory are those from `base` on, each of 4096 bytes.
    pub proof fn lemma_view(&self)
        requires
            self.wf(),
        ensures
            forall|ppn: u64| self.has(ppn) <==> #[trigger] self@.dom().contains(ppn),
            forall|ppn: u64| self.has(ppn) ==> (#[trigger] self@[ppn]).len() == 4096,
            self.base() + self.count() <= u64::MAX,
    {
    }

    /// A memory of `count` pages of zero bytes that begins at page `base`.
    pub fn new(base: u64, count: usize) -> (r: Self)
        requires
            base + count <= u64::MAX,
        ensures
            r.wf(),
            r.base() == base,
            r.count() == count,
            forall|ppn: u64| r.has(ppn) ==> #[trigger] r@[ppn] == zero_page(),
    {
        let mut pages: Vec<Vec<u8>> = Vec::new();
        let mut i: usize = 0;
        while i < count
            invariant
                i <= count,
                pages@.len() == i,
                forall|k: int| 0 <= k < i ==> (#[trigger] pages@[k])@ == zero_page(),
            decreases count - i,
        {
            let mut page: Vec<u8> = Vec::new();
            let mut j: usize = 0;
            while j < 4096
                invariant
                    j <= 4096,
                    page@.len() == j,
                    forall|k: int| 0 <= k < j ==> page@[k] == 0u8,
                decreases 4096 - j,
            {
                page.push(0u8);
                j += 1;
            }
            assert(page@ =~= zero_page());
            pages.push(page);
            i += 1;
        }
        Self { base, pages }
    }

    /// The number of the first page.
    pub fn base_ppn(&self) -> (r: u64)
        ensures
            r == self.base(),
    {
        self.base
    }

    /// The number of pages.
    pub fn page_count(&self) -> (r: usize)
        ensures
            r == self.count(),
    {
        self.pages.len()
    }

    /// Whether page `ppn` is part of the memory.
    pub fn contains(&self, ppn: u64) -> (r: bool)
        requires
            self.wf(),
        ensures
            r == self.has(ppn),
    {
        ppn >= self.base && ppn - self.base < self.pages.len() as u64
    }

    /// The place of page `ppn` among the pages.
    fn index(&self, ppn: u64) -> (i: usize)
        requires
            self.has(ppn),
        ensures
            i == ppn - self.base,
            i < self.pages@.len(),
    {
        let n = self.pages.len();
        let d = ppn - self.base;
        assert(d < n);
        d as usize
    }

    /// The bytes of page `ppn`.
    pub fn page(&self, ppn: u64) -> (r: &[u8])
        requires
            self.wf(),
            self.has(ppn),
        ensures
            r@ == self@[ppn],
            r@.len() == 4096,
    {
        self.pages[self.index(ppn)].as_slice()
    }

    /// The byte at `offset` of page `ppn`.
    pub fn read_u8(&self, ppn: u64, offset: usize) -> (v: u8)
        requires
            self.wf(),
            self.has(ppn),
            offset < 4096,
        ensures
            v == self@[ppn][offset as int],
    {
        self.pages[self.index(ppn)][offset]
    }

    /// The little-endian `u64` at `offset` of page `ppn`.
    pub fn read_u64(&self, ppn: u64, offset: usize) -> (v: u64)
        requires
            self.wf(),
            self.has(ppn),
            offset + 8 <= 4096,
        ensures
            v == le_u64(self@[ppn], offset as int),
    {
        crate::codec::read_u64(self.pages[self.index(ppn)].as_slice(), offset)
    }

    /// Stores `v` at `offset` of page `ppn`.
    pub fn write_u8(&mut self, ppn: u64, offset: usize, v: u8)
        requires
            old(self).wf(),
            old(self).has(ppn),
            offset < 4096,
        ensures
            final(self).wf(),
            final(self).base() == old(self).base(),
            final(self).count() == old(self).count(),
            final(self)@ == old(self)@.insert(ppn, old(self)@[ppn].update(offset as int, v)),
    {
        let i = self.index(ppn);
        let page = &mut self.pages[i];
        page[offset] = v;
        assert(self@ =~= old(self)@.insert(ppn, old(self)@[ppn].update(offset as int, v)));
    }

    /// Stores `v` little-endian at `offset` of page `ppn`.
    pub fn write_u64(&mut self, ppn: u64, offset: usize, v: u64)
        requires
            old(self).wf(),
            old(self).has(ppn),
            offset + 8 <= 4096,
        ensures
            final(self).wf(),
            final(self).base() == old(self).base(),
            final(self).count() == old(self).count(),
            final(self)@ == old(self)@.insert(ppn, with_u64(old(self)@[ppn], offset as int, v)),
    {
        let i = self.index(ppn);
        let page = &mut self.pages[i];
        crate::codec::write_u64(page.as_mut_slice(), offset, v);
        assert(self@ =~= old(self)@.insert(ppn, with_u64(old(self)@[ppn], offset as int, v)));
    }

    /// Copies `src` into page `ppn` from `offset` on.
    pub fn write_bytes(&mut self, ppn: u64, offset: usize, src: &[u8])
        requires
            old(self).wf(),
            old(self).has(ppn),
            offset + src@.len() <= 4096,
        ensures
            final(self).wf(),
            final(self).base() == old(self).base(),
            final(self).count() == old(self).count(),
            final(self)@ == old(self)@.insert(ppn, splice(old(self)@[ppn], offset as int, src@)),
    {
        let i = self.index(ppn);
        let page = &mut self.pages[i];
        crate::codec::write_bytes(page.as_mut_slice(), offset, src);
        assert(self@ =~= old(self)@.insert(ppn, splice(old(self)@[ppn], offset as int, src@)));
    }

    /// Fills page `ppn` with zero bytes.
    pub fn clear_page(&mut self, ppn: u64)
        requires
            old(self).wf(),
            old(self).has(ppn),
        ensures
            final(self).wf(),
            final(self).base() == old(self).base(),
            final(self).count() == old(self).count(),
            final(self)@ == old(self)@.insert(ppn, zero_page()),
    {
        let i = self.index(ppn);
        let page = &mut self.pages[i];
        let mut j: usize = 0;
        while j < 4096
            invariant
                j <= 4096,
                page@.len() == 4096,
                forall|k: int| 0 <= k < j ==> page@[k] == 0u8,
            decreases 4096 - j,
        {
            page[j] = 0;
            j += 1;
        }
        assert(page@ =~= zero_page());
        assert(self@ =~= old(self)@.insert(ppn, zero_page()));
    }

    /// Copies page `src` onto page `dst`.
    pub fn copy_page(&mut self, dst: u64, src: u64)
        requires
            old(self).wf(),
            old(self).has(dst),
            old(self).has(src),
        ensures
            final(self).wf(),
            final(self).base() == old(self).base(),
            final(self).count() == old(self).count(),
            final(self)@ == old(self)@.insert(dst, old(self)@[src]),
    {
        let copy = vstd::slice::slice_to_vec(self.page(src));
        self.write_bytes(dst, 0, copy.as_slice());
        assert(splice(old(self)@[dst], 0, copy@) =~= old(self)@[src]);
    }
}

} // verus!
