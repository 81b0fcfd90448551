use vstd::prelude::*;
use crate::mm::address::key_of;
use crate::mm::elf::{trap_context_vpn, ElfImage};
use crate::mm::frame_allocator::FramePool;
use crate::mm::memory_set::{lemma_walk_key, trampoline_entry, trampoline_vpn, MapType, MemorySet};
use crate::mm::page_table::{lemma_pte_bits, pte_ppn, PTE_V};

verus! {

impl MemorySet {
    /// Whether nothing is mapped in the address space but the trampoline
    /// and the pages of the areas: each page number that is mapped is one
    /// that the page table does not tell apart from the trampoline or from
    /// a page of an area.
    #[verifier::opaque]
    pub open spec fn only_areas(&self, pool: &FramePool) -> bool {
        forall|v: u64|
            (#[trigger] self.page_table.lookup(pool, v)).is_some() ==> key_of(v) == key_of(trampoline_vpn())
                || exists|a: int, w: u64|
                0 <= a < self.areas@.len() && (#[trigger] self.areas@[a]).start() <= w < self.areas@[a].end()
                    && key_of(v) == #[trigger] key_of(w)
    }

    /// Nothing but trampoline and areas stays mapped where the page table
    /// maps what it mapped.
    pub proof fn lemma_only_areas_kept(&self, p0: &FramePool, p1: &FramePool)
        requires
            self.only_areas(p0),
            forall|v: u64| #[trigger] self.page_table.lookup(p1, v) == self.page_table.lookup(p0, v),
        ensures
            self.only_areas(p1),
    {
        reveal(MemorySet::only_areas);
        assert forall|v: u64| (#[trigger] self.page_table.lookup(p1, v)).is_some() implies key_of(v) == key_of(
            trampoline_vpn(),
        ) || exists|a: int, w: u64|
            0 <= a < self.areas@.len() && (#[trigger] self.areas@[a]).start() <= w < self.areas@[a].end() && key_of(v)
                == #[trigger] key_of(w) by {
            assert(self.page_table.lookup(p0, v).is_some());
        }
    }

    /// In a copy of an address space nothing is mapped but the trampoline
    /// and the pages of the areas.
    pub proof fn lemma_only_areas_of_copy(&self, child: &MemorySet, pool: &FramePool, pool0: &FramePool, strampoline: u64)
        requires
            self.copied_to(child, pool, pool0, strampoline, self.areas@.len() as int),
        ensures
            child.only_areas(pool),
    {
        reveal(MemorySet::only_areas);
        assert forall|v: u64| (#[trigger] child.page_table.lookup(pool, v)).is_some() implies key_of(v) == key_of(
            trampoline_vpn(),
        ) || exists|a: int, w: u64|
            0 <= a < child.areas@.len() && (#[trigger] child.areas@[a]).start() <= w < child.areas@[a].end() && key_of(v)
                == #[trigger] key_of(w) by {
            if key_of(v) != key_of(trampoline_vpn()) {
                let (a, w) = choose|a: int, w: u64|
                    0 <= a < self.areas@.len() && (#[trigger] self.areas@[a]).start() <= w < self.areas@[a].end()
                        && key_of(v) == #[trigger] key_of(w);
                assert(child.areas@[a].vpn_range.l == self.areas@[a].vpn_range.l);
                assert(child.areas@[a].start() <= w < child.areas@[a].end());
            }
        }
    }

    /// The page that a mapped page number of the address space of a user
    /// task leads to, if it is a page of the pool, is a page of an area of
    /// the task.
    pub proof fn lemma_reached_page(&self, pool: &FramePool, strampoline: u64, trap_ppn: u64, v: u64)
        requires
            self.is_task_space(pool, strampoline, trap_ppn),
            self.only_areas(pool),
            self.page_table.lookup(pool, v).is_some(),
            pool.memory.has(pte_ppn(self.page_table.lookup(pool, v).unwrap())),
        ensures
            self.owns_data(pte_ppn(self.page_table.lookup(pool, v).unwrap())),
    {
        reveal(MemorySet::only_areas);
        self.lemma_task_space_facts(pool, strampoline, trap_ppn);
        let bits = self.page_table.lookup(pool, v).unwrap();
        if key_of(v) == key_of(trampoline_vpn()) {
            lemma_walk_key(pool.mem(), self.page_table.root_ppn.0, v, trampoline_vpn());
            assert(bits == trampoline_entry((strampoline / 4096) as u64));
            lemma_pte_bits((strampoline / 4096) as u64, 0x0b);
            assert(pte_ppn(bits) == (strampoline / 4096) as u64);
            assert(!pool.memory.has((strampoline / 4096) as u64));
            assert(false);
        } else {
            let (a, w) = choose|a: int, w: u64|
                0 <= a < self.areas@.len() && (#[trigger] self.areas@[a]).start() <= w < self.areas@[a].end()
                    && key_of(v) == #[trigger] key_of(w);
            lemma_walk_key(pool.mem(), self.page_table.root_ppn.0, v, w);
            let area = self.areas@[a];
            assert(area.mapped_whole(&self.page_table, pool));
            assert(area.map_type == MapType::Framed);
            assert(self.page_table.lookup(pool, w) == Some(area.entry_for(area.target(w))));
            let k = w - area.start();
            let f = area.data_frame@[k].1.ppn.0;
            assert(pool.is_allocated(f));
            lemma_pte_bits(f, area.map_perm.bits | PTE_V);
            assert(area.owns(f));
        }
    }
}

impl ElfImage {
    /// In the address space of a program that was just loaded nothing is
    /// mapped but the trampoline and the pages of the areas.
    pub proof fn lemma_only_areas_of_image(&self, ms: &MemorySet, pool: &FramePool, data: Seq<u8>, strampoline: u64)
        requires
            self.image_of(ms, pool, data, strampoline),
        ensures
            ms.only_areas(pool),
    {
        reveal(MemorySet::only_areas);
        reveal(ElfImage::image_of);
        let n = self.segments().len() as int;
        assert forall|v: u64| (#[trigger] ms.page_table.lookup(pool, v)).is_some() implies key_of(v) == key_of(
            trampoline_vpn(),
        ) || exists|a: int, w: u64|
            0 <= a < ms.areas@.len() && (#[trigger] ms.areas@[a]).start() <= w < ms.areas@[a].end() && key_of(v)
                == #[trigger] key_of(w) by {
            let k = key_of(v);
            assert(k <= 0x7ff_ffff && k & 0x7ff_ffff == k) by (bit_vector)
                requires
                    k == v & 0x7ff_ffff,
            ;
            assert(key_of(k) == k);
            assert(0xF_FFFF_FFFF_FFFFu64 & 0x7ff_ffff == 0x7ff_ffff && 0xF_FFFF_FFFF_FFFEu64 & 0x7ff_ffff == 0x7ff_fffe)
                by (bit_vector);
            lemma_walk_key(pool.mem(), ms.page_table.root_ppn.0, v, k);
            if k == 0x7ff_ffff {
            } else if k == 0x7ff_fffe {
                let w = trap_context_vpn();
                assert(ms.areas@[n + 1].start() <= w < ms.areas@[n + 1].end());
                assert(key_of(v) == key_of(w));
            } else {
                assert(ms.page_table.lookup(pool, k).is_some());
                assert(k < 0x7ff_fffe);
                assert(ms.in_area(k));
                let a = choose|a: int| 0 <= a < ms.areas@.len() && (#[trigger] ms.areas@[a]).start() <= k < ms.areas@[a].end();
                assert(key_of(v) == key_of(k));
            }
        }
    }
}

} // verus!
