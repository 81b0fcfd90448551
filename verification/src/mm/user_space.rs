use vstd::prelude::*;
use crate::codec::splice;
use crate::config::{PAGE_SIZE, TRAMPOLINE, TRAP_CONTEXT, USER_STACK_SIZE};
use crate::mm::address::{key_of, PhysAddr, VirtAddr};
use crate::mm::elf::{segment_permission, trap_context_vpn, ElfImage, ProgramHeader};
use crate::mm::frame_allocator::{frame_dealloc, lemma_alloc_fresh, FramePool};
use crate::mm::memory_set::{after_dealloc_all, data_pages, lemma_dealloc_others, lemma_release_effect};
use crate::mm::address::{SimpleRange, StepByOne, VirtPageNum};
use crate::mm::memory_set::{
    apart_from, chunk, lemma_area_kept, lemma_low_apart, lemma_map_cost_nonneg, lemma_walk_key, map_cost,
    trampoline_entry, trampoline_vpn, MapArea, MapPermission, MapType, MemorySet,
};
use crate::mm::page_table::{lemma_pte_bits, lemma_tables_untouched, pte_ppn, PTE_V};
use crate::mm::phys_mem::zero_page;

verus! {

impl ElfImage {
    /// Number of pages that the areas from number `a` on take from the pool at most.
    pub open spec fn cost_from(&self, a: int) -> int
        decreases self.segments().len() + 2 - a,
    {
        if a < 0 || a >= self.segments().len() + 2 {
            0
        } else {
            map_cost(self.range(a).0 as int, self.range(a).1 as int, true) + self.cost_from(a + 1)
        }
    }

    /// Number of pages that the address space takes from the pool at most:
    /// the root table, the tables for the trampoline, and the areas.
    pub open spec fn cost(&self) -> int {
        3 + self.cost_from(0)
    }

    /// The bytes of segment `a` in the file `data`.
    pub open spec fn segment_data(&self, data: Seq<u8>, a: int) -> Seq<u8> {
        data.subrange(
            self.segments()[a].offset as int,
            self.segments()[a].offset + self.segments()[a].file_size,
        )
    }

    /// What page `k` of area `a` holds once the file `data` is loaded: the
    /// bytes of the segment, then zero bytes; zero bytes for the user stack
    /// and the trap context.
    pub open spec fn content(&self, data: Seq<u8>, a: int, k: int) -> Seq<u8> {
        if a < self.segments().len() {
            splice(zero_page(), 0, chunk(self.segment_data(data, a), k))
        } else {
            zero_page()
        }
    }

    /// The cost of the rest is the cost of the next area and of the rest after it.
    pub proof fn lemma_cost_from(&self, a: int)
        requires
            0 <= a <= self.segments().len() + 2,
        ensures
            self.cost_from(a) >= 0,
            a < self.segments().len() + 2 ==> self.cost_from(a) == map_cost(
                self.range(a).0 as int,
                self.range(a).1 as int,
                true,
            ) + self.cost_from(a + 1),
        decreases self.segments().len() + 2 - a,
    {
        if a < self.segments().len() + 2 {
            self.lemma_cost_from(a + 1);
            lemma_map_cost_nonneg(self.range(a).0 as int, self.range(a).1 as int, true);
        }
    }

    /// The segments found among the first headers are the first segments of all.
    pub proof fn lemma_loads_prefix(&self, i: int, n: int)
        requires
            0 <= i <= n <= self.program_headers@.len(),
        ensures
            self.loads(i).len() <= self.loads(n).len(),
            forall|a: int| 0 <= a < self.loads(i).len() ==> #[trigger] self.loads(n)[a] == self.loads(i)[a],
        decreases n - i,
    {
        if i < n {
            self.lemma_loads_prefix(i, n - 1);
        }
    }

    /// Where every header of a segment can be loaded, every segment found can.
    pub proof fn lemma_loads_loadable(&self, i: int, data_len: int)
        requires
            0 <= i <= self.program_headers@.len(),
            self.loadable(data_len),
        ensures
            forall|a: int| 0 <= a < self.loads(i).len() ==> (#[trigger] self.loads(i)[a]).loadable(data_len),
        decreases i,
    {
        if i > 0 {
            self.lemma_loads_loadable(i - 1, data_len);
            let prev = self.loads(i - 1);
            let cur = self.loads(i);
            assert forall|a: int| 0 <= a < cur.len() implies (#[trigger] cur[a]).loadable(data_len) by {
                if a < prev.len() {
                    assert(cur[a] == prev[a]);
                } else {
                    assert(cur[a] == self.program_headers@[i - 1]);
                    assert(self.program_headers@[i - 1].is_load);
                }
            }
        }
    }
}

/// The key of the page of the trap context, which no page below it shares.
pub proof fn lemma_trap_context_key(v: u64)
    ensures
        key_of(trap_context_vpn()) == 0x7ff_fffe,
        key_of(trampoline_vpn()) == 0x7ff_ffff,
        v < 0x7ff_fffe ==> apart_from(v, trap_context_vpn(), (trap_context_vpn() + 1) as u64),
        apart_from(trampoline_vpn(), trap_context_vpn(), (trap_context_vpn() + 1) as u64),
        v < 0x800_0000 ==> key_of(v) == v,
{
    assert(0xF_FFFF_FFFF_FFFEu64 & 0x7ff_ffff == 0x7ff_fffe) by (bit_vector);
    assert(0xF_FFFF_FFFF_FFFFu64 & 0x7ff_ffff == 0x7ff_ffff) by (bit_vector);
    assert(v < 0x800_0000 ==> v & 0x7ff_ffff == v) by (bit_vector);
}

impl ElfImage {
    /// The first `j` areas of the address space `ms` are those of this ELF
    /// file, loaded from `data`: each has its pages, rights and content; the
    /// trampoline is mapped to the page at `strampoline`; no other page
    /// below the trampoline is mapped; and the pool `pool` differs from the
    /// pool `pool0` before the loading only by what the address space took.
    pub open spec fn loaded(
        &self,
        ms: &MemorySet,
        pool: &FramePool,
        pool0: &FramePool,
        data: Seq<u8>,
        strampoline: u64,
        j: int,
    ) -> bool {
        &&& ms.wf(pool)
        &&& ms.areas@.len() == j
        &&& forall|a: int|
            0 <= a < j ==> {
                &&& (#[trigger] ms.areas@[a]).start() == self.range(a).0
                &&& ms.areas@[a].end() == self.range(a).1
                &&& ms.areas@[a].map_perm.bits == self.perm(a)
                &&& ms.areas@[a].map_type == MapType::Framed
            }
        &&& forall|a: int, k: int|
            0 <= a < j && 0 <= k < ms.areas@[a].data_frame@.len() ==> pool.mem()[(
            #[trigger] ms.areas@[a].data_frame@[k]).1.ppn.0] == self.content(data, a, k)
        &&& ms.page_table.lookup(pool, trampoline_vpn()) == Some(trampoline_entry((strampoline / 4096) as u64))
        &&& forall|v: u64|
            v < 0x7ff_fffe && !ms.in_area(v) ==> (#[trigger] ms.page_table.lookup(pool, v)).is_none()
        &&& j <= self.segments().len() + 1 ==> ms.page_table.lookup(pool, 0x7ff_fffe).is_none()
        &&& pool.allocator@.free_count() >= pool0.allocator@.free_count() - self.cost() + self.cost_from(j)
        &&& pool.memory.base() == pool0.memory.base()
        &&& pool.memory.count() == pool0.memory.count()
        &&& forall|p: u64| pool0.is_allocated(p) ==> #[trigger] pool.mem()[p] == pool0.mem()[p]
        &&& forall|p: u64| ms.owns(p) ==> !pool0.is_allocated(p)
        &&& forall|p: u64| pool0.is_allocated(p) ==> pool.is_allocated(p)
    }
}

impl MemorySet {
    /// An address space in which only the trampoline is mapped.
    #[verifier::spinoff_prover]
    #[verifier::rlimit(100)]
    fn with_trampoline(elf: &ElfImage, data: Ghost<Seq<u8>>, strampoline: PhysAddr, pool: &mut FramePool) -> (r:
        Self)
        requires
            old(pool).wf(),
            strampoline.0 % 4096 == 0,
            strampoline.0 / 4096 < 0x1000_0000_0000,
            old(pool).allocator@.free_count() >= elf.cost(),
        ensures
            elf.loaded(&r, final(pool), old(pool), data@, strampoline.0, 0),
    {
        let ghost pool0 = *pool;
        proof {
            elf.lemma_cost_from(0);
            assert(pool.allocator@.can_alloc());
            lemma_alloc_fresh(pool.allocator@);
        }
        let mut memory_set = Self::new_bare(pool);
        let ghost pool1 = *pool;
        let ghost ms1 = memory_set;
        proof {
            assert forall|p: u64| ms1.owns(p) implies !pool0.is_allocated(p) by {
                if ms1.page_table.tables().owns(p) {
                    let k = choose|k: int|
                        0 <= k < ms1.page_table.tables().frames.len() && ms1.page_table.tables().frames[k]
                            == p;
                    assert(k == 0);
                }
            }
        }
        memory_set.map_trampoline(strampoline, pool);
        proof {
            lemma_low_apart(0, 0, 0);
            assert forall|v: u64| v < 0x7ff_ffff implies (#[trigger] memory_set.page_table.lookup(pool, v)).is_none() by {
                lemma_low_apart(v, 0, 0);
            }
            assert forall|p: u64| memory_set.owns(p) implies !pool0.is_allocated(p) by {
                if !ms1.owns(p) {
                    assert(!pool1.is_allocated(p));
                }
            }
            assert forall|p: u64| pool0.is_allocated(p) implies #[trigger] pool.mem()[p] == pool0.mem()[p] by {
                assert(pool1.is_allocated(p));
                assert(!ms1.page_table.tables().owns(p));
            }
        }
        memory_set
    }

    /// Adds area `j` of the ELF file `elf`: a segment with its content
    /// `segment`, or the user stack.
    #[verifier::spinoff_prover]
    #[verifier::rlimit(100)]
    fn load_area(
        &mut self,
        elf: &ElfImage,
        data: Ghost<Seq<u8>>,
        strampoline: Ghost<u64>,
        pool0: Ghost<FramePool>,
        start_va: VirtAddr,
        end_va: VirtAddr,
        perm: u8,
        segment: Option<&[u8]>,
        pool: &mut FramePool,
    )
        requires
            elf.loaded(old(self), old(pool), &pool0@, data@, strampoline@, old(self).areas@.len() as int),
            old(self).areas@.len() <= elf.segments().len(),
            pool0@.allocator@.free_count() >= elf.cost(),
            elf.range(old(self).areas@.len() as int) == (
                (start_va.0 / 4096) as u64,
                ((end_va.0 + 4095) / 4096) as u64,
            ),
            elf.perm(old(self).areas@.len() as int) == perm,
            start_va.0 / 4096 < (end_va.0 + 4095) / 4096 < 0x7ff_fffe,
            (end_va.0 + 4095) / 4096 - start_va.0 / 4096 <= 0x800_0000,
            forall|a: int|
                0 <= a < old(self).areas@.len() ==> #[trigger] elf.range(a).1 <= start_va.0 / 4096 || (end_va.0
                    + 4095) / 4096 <= elf.range(a).0,
            match segment {
                Some(d) => old(self).areas@.len() < elf.segments().len() && d@ == elf.segment_data(
                    data@,
                    old(self).areas@.len() as int,
                ) && d@.len() <= 4096 * ((end_va.0 + 4095) / 4096 - start_va.0 / 4096),
                None => old(self).areas@.len() == elf.segments().len(),
            },
        ensures
            elf.loaded(final(self), final(pool), &pool0@, data@, strampoline@, old(self).areas@.len() as int + 1),
    {
        let ghost j = self.areas@.len() as int;
        let ghost ms_prev = *self;
        let ghost pool_prev = *pool;
        let map_area = MapArea::new(start_va, end_va, MapType::Framed, MapPermission::from_bits(perm));
        proof {
            elf.lemma_cost_from(j);
            elf.lemma_cost_from(j + 1);
            let s = map_area.start();
            let e = map_area.end();
            assert forall|v: u64| s <= v < e implies (#[trigger] self.page_table.lookup(pool, v)).is_none() by {
                if self.in_area(v) {
                    let a = choose|a: int|
                        0 <= a < self.areas@.len() && (#[trigger] self.areas@[a]).start() <= v < self.areas@[a].end();
                    assert(elf.range(a).1 <= start_va.0 / 4096 || (end_va.0 + 4095) / 4096 <= elf.range(a).0);
                }
            }
        }
        self.push(map_area, segment, pool);
        proof {
            let s = (start_va.0 / 4096) as u64;
            let e = ((end_va.0 + 4095) / 4096) as u64;
            lemma_low_apart(trampoline_vpn(), s, e);
            lemma_low_apart(0x7ff_fffe, s, e);
            assert(splice(zero_page(), 0, Seq::<u8>::empty()) =~= zero_page());
            assert forall|a: int| 0 <= a < j implies #[trigger] self.areas@[a] == ms_prev.areas@[a] by {
                assert(self.areas@.drop_last()[a] == ms_prev.areas@[a]);
            }
            assert(self.areas@[j] == self.areas@.last());
            assert forall|v: u64| v < 0x7ff_fffe && !self.in_area(v) implies (#[trigger] self.page_table.lookup(
                pool,
                v,
            )).is_none() by {
                assert(!(self.areas@[j].start() <= v < self.areas@[j].end()));
                lemma_low_apart(v, s, e);
                if ms_prev.in_area(v) {
                    let a = choose|a: int|
                        0 <= a < ms_prev.areas@.len() && (#[trigger] ms_prev.areas@[a]).start() <= v
                            < ms_prev.areas@[a].end();
                    assert(self.areas@[a] == ms_prev.areas@[a]);
                }
            }
            assert forall|a: int, k: int|
                0 <= a < j + 1 && 0 <= k < self.areas@[a].data_frame@.len() implies pool.mem()[(
            #[trigger] self.areas@[a].data_frame@[k]).1.ppn.0] == elf.content(data@, a, k) by {
                if a < j {
                    let q = ms_prev.areas@[a].data_frame@[k].1.ppn.0;
                    assert(ms_prev.areas@[a].mapped_whole(&ms_prev.page_table, &pool_prev));
                    assert(pool_prev.is_allocated(q));
                    assert(!ms_prev.page_table.tables().owns(q));
                }
            }
            assert forall|p: u64| self.owns(p) implies !pool0@.is_allocated(p) by {
                if !ms_prev.owns(p) {
                    assert(!pool_prev.is_allocated(p));
                }
            }
            assert forall|p: u64| pool0@.is_allocated(p) implies #[trigger] pool.mem()[p] == pool0@.mem()[p] by {
                assert(pool_prev.is_allocated(p));
                assert(!ms_prev.owns(p));
            }
        }
    }

    /// Adds the last area of the ELF file `elf`: the page of the trap context.
    #[verifier::spinoff_prover]
    #[verifier::rlimit(100)]
    fn load_trap_context(
        &mut self,
        elf: &ElfImage,
        data: Ghost<Seq<u8>>,
        strampoline: Ghost<u64>,
        pool0: Ghost<FramePool>,
        pool: &mut FramePool,
    )
        requires
            elf.loaded(old(self), old(pool), &pool0@, data@, strampoline@, elf.segments().len() as int + 1),
            pool0@.allocator@.free_count() >= elf.cost(),
        ensures
            elf.loaded(final(self), final(pool), &pool0@, data@, strampoline@, elf.segments().len() as int + 2),
    {
        let ghost n = elf.segments().len() as int;
        let ghost ms_b = *self;
        let ghost pool_b = *pool;
        proof {
            elf.lemma_cost_from(n + 1);
            elf.lemma_cost_from(n + 2);
            lemma_trap_context_key(0x7ff_fffe);
            lemma_walk_key(pool.mem(), ms_b.page_table.root_ppn.0, trap_context_vpn(), 0x7ff_fffe);
        }
        self.push(
            MapArea::new(
                VirtAddr(TRAP_CONTEXT),
                VirtAddr(TRAMPOLINE),
                MapType::Framed,
                MapPermission::from_bits(0x06),
            ),
            None,
            pool,
        );
        proof {
            lemma_trap_context_key(0);
            assert(splice(zero_page(), 0, Seq::<u8>::empty()) =~= zero_page());
            assert forall|a: int| 0 <= a < n + 1 implies #[trigger] self.areas@[a] == ms_b.areas@[a] by {
                assert(self.areas@.drop_last()[a] == ms_b.areas@[a]);
            }
            assert(self.areas@[n + 1] == self.areas@.last());
            assert forall|v: u64| v < 0x7ff_fffe && !self.in_area(v) implies (#[trigger] self.page_table.lookup(
                pool,
                v,
            )).is_none() by {
                lemma_trap_context_key(v);
                if ms_b.in_area(v) {
                    let a = choose|a: int|
                        0 <= a < ms_b.areas@.len() && (#[trigger] ms_b.areas@[a]).start() <= v
                            < ms_b.areas@[a].end();
                    assert(self.areas@[a] == ms_b.areas@[a]);
                }
            }
            assert forall|a: int, k: int|
                0 <= a < n + 2 && 0 <= k < self.areas@[a].data_frame@.len() implies pool.mem()[(
            #[trigger] self.areas@[a].data_frame@[k]).1.ppn.0] == elf.content(data@, a, k) by {
                if a < n + 1 {
                    let q = ms_b.areas@[a].data_frame@[k].1.ppn.0;
                    assert(ms_b.areas@[a].mapped_whole(&ms_b.page_table, &pool_b));
                    assert(pool_b.is_allocated(q));
                    assert(!ms_b.page_table.tables().owns(q));
                }
            }
            assert forall|p: u64| self.owns(p) implies !pool0@.is_allocated(p) by {
                if !ms_b.owns(p) {
                    assert(!pool_b.is_allocated(p));
                }
            }
            assert forall|p: u64| pool0@.is_allocated(p) implies #[trigger] pool.mem()[p] == pool0@.mem()[p] by {
                assert(pool_b.is_allocated(p));
                assert(!ms_b.owns(p));
            }
        }
    }

    /// The address space of a user program: the trampoline, an area for
    /// each segment of the ELF file with the content of the segment, a user
    /// stack of 8192 bytes one page after the last segment, and the page of
    /// the trap context. Returns the address space, the top of the user
    /// stack, and the entry point of the program.
    pub fn from_elf(elf: &ElfImage, elf_data: &[u8], strampoline: PhysAddr, pool: &mut FramePool) -> (r: (
        Self,
        u64,
        u64,
    ))
        requires
            old(pool).wf(),
            elf.loadable(elf_data@.len() as int),
            strampoline.0 % 4096 == 0,
            strampoline.0 / 4096 < 0x1000_0000_0000,
            old(pool).allocator@.free_count() >= elf.cost(),
        ensures
            elf.loaded(&r.0, final(pool), old(pool), elf_data@, strampoline.0, elf.segments().len() as int + 2),
            r.1 == elf.stack_top(),
            r.2 == elf.entry_point,
    {
        let ghost pool0 = *pool;
        let ghost segs = elf.segments();
        let ghost data = elf_data@;
        let mut memory_set = Self::with_trampoline(elf, Ghost(data), strampoline, pool);
        let ph_count = elf.program_headers.len();
        let data_len = elf_data.len();
        let mut max_end_vpn: u64 = 0;
        let mut i: usize = 0;
        while i < ph_count
            invariant
                i <= ph_count == elf.program_headers@.len(),
                segs == elf.segments(),
                data == elf_data@,
                data.len() == data_len,
                elf.loadable(data.len() as int),
                pool0 == *old(pool),
                pool0.allocator@.free_count() >= elf.cost(),
                memory_set.areas@.len() == elf.loads(i as int).len(),
                elf.loaded(&memory_set, pool, &pool0, data, strampoline.0, memory_set.areas@.len() as int),
                max_end_vpn == if elf.loads(i as int).len() == 0 {
                    0
                } else {
                    elf.loads(i as int).last().end()
                },
            decreases ph_count - i,
        {
            let ph = &elf.program_headers[i];
            proof {
                elf.lemma_loads_prefix(i as int, ph_count as int);
                elf.lemma_loads_prefix(i + 1, ph_count as int);
            }
            if ph.is_load {
                let ghost j = memory_set.areas@.len() as int;
                proof {
                    assert(elf.loads(i + 1)[j] == *ph);
                    assert(segs[j] == *ph);
                    assert(ph.loadable(data.len() as int));
                    assert forall|a: int| 0 <= a < j implies #[trigger] elf.range(a).1 <= ph.start() || ph.end()
                        <= elf.range(a).0 by {
                        assert(elf.range(a).1 <= elf.range(j).0 || elf.range(j).1 <= elf.range(a).0);
                    }
                }
                let start_va = VirtAddr(ph.virtual_addr);
                let end_va = VirtAddr(ph.virtual_addr + ph.mem_size);
                let perm = segment_permission(ph.flags);
                max_end_vpn = end_va.ceil().0;
                let segment = vstd::slice::slice_subrange(
                    elf_data,
                    ph.offset as usize,
                    (ph.offset + ph.file_size) as usize,
                );
                memory_set.load_area(
                    elf,
                    Ghost(data),
                    Ghost(strampoline.0),
                    Ghost(pool0),
                    start_va,
                    end_va,
                    perm,
                    Some(segment),
                    pool,
                );
            }
            i += 1;
        }
        let ghost n = segs.len() as int;
        proof {
            assert(elf.loads(ph_count as int) == segs);
            elf.lemma_loads_loadable(ph_count as int, data.len() as int);
            if n > 0 {
                assert(segs[n - 1].loadable(data.len() as int));
            }
        }
        // the user stack, one page after the last segment
        let user_stack_bottom: u64 = max_end_vpn * PAGE_SIZE + PAGE_SIZE;
        let user_stack_top: u64 = user_stack_bottom + USER_STACK_SIZE;
        proof {
            assert forall|a: int| 0 <= a < n implies #[trigger] elf.range(a).1 <= user_stack_bottom / 4096 || (
            user_stack_top + 4095) / 4096 <= elf.range(a).0 by {
                assert(elf.range(a).1 <= elf.range(n).0 || elf.range(n).1 <= elf.range(a).0);
            }
        }
        memory_set.load_area(
            elf,
            Ghost(data),
            Ghost(strampoline.0),
            Ghost(pool0),
            VirtAddr(user_stack_bottom),
            VirtAddr(user_stack_top),
            0x16,
            None,
            pool,
        );
        memory_set.load_trap_context(elf, Ghost(data), Ghost(strampoline.0), Ghost(pool0), pool);
        (memory_set, user_stack_top, elf.entry_point)
    }
}


/// An address space stays in order where the pool changes around it: the
/// pages in use stay in use and hold what they held.
pub proof fn lemma_space_kept(ms: &MemorySet, p0: &FramePool, p1: &FramePool)
    requires
        ms.wf(p0),
        p1.wf(),
        p1.memory.base() == p0.memory.base(),
        p1.memory.count() == p0.memory.count(),
        forall|p: u64| p0.is_allocated(p) ==> p1.is_allocated(p),
        forall|p: u64| ms.owns(p) ==> #[trigger] p1.mem()[p] == p0.mem()[p],
    ensures
        ms.wf(p1),
        forall|v: u64| #[trigger] ms.page_table.lookup(p1, v) == ms.page_table.lookup(p0, v),
{
    let t = ms.page_table.tables();
    p0.memory.lemma_view();
    p1.memory.lemma_view();
    assert forall|i: int| 0 <= i < t.frames.len() implies p1.mem()[#[trigger] t.frames[i]] == p0.mem()[t.frames[i]] by {
        assert(t.frames.contains(t.frames[i]));
        assert(ms.owns(t.frames[i]));
    }
    lemma_tables_untouched(t, p0.mem(), p1.mem());
    assert forall|i: int| 0 <= i < t.frames.len() implies p1.is_allocated(#[trigger] t.frames[i]) by {
        assert(p0.is_allocated(t.frames[i]));
    }
    assert forall|a: int| 0 <= a < ms.areas@.len() implies (#[trigger] ms.areas@[a]).mapped_whole(
        &ms.page_table,
        p1,
    ) by {
        assert(ms.areas@[a].mapped_whole(&ms.page_table, p0));
        lemma_area_kept(&ms.areas@[a], &ms.page_table, p0, &ms.page_table, p1);
    }
}

/// In an address space in order, pages of different areas have different
/// keys, and the key of a page of an area is not the key of a page that is
/// mapped to a page that no area owns.
pub proof fn lemma_areas_apart(ms: &MemorySet, pool: &FramePool, a: int, v: u64, w: u64)
    requires
        ms.wf(pool),
        0 <= a < ms.areas@.len(),
        ms.areas@[a].map_type == MapType::Framed,
        ms.areas@[a].start() <= v < ms.areas@[a].end(),
        key_of(v) == key_of(w),
    ensures
        ms.page_table.lookup(pool, w).is_some(),
        ms.areas@[a].owns(pte_ppn(ms.page_table.lookup(pool, w).unwrap())),
        forall|b: int|
            0 <= b < ms.areas@.len() && ms.areas@[b].map_type == MapType::Framed && (#[trigger] ms.areas@[b]).start()
                <= w < ms.areas@[b].end() ==> b == a,
{
    let area = ms.areas@[a];
    assert(area.mapped_whole(&ms.page_table, pool));
    lemma_walk_key(pool.mem(), ms.page_table.root_ppn.0, v, w);
    let k = v - area.start();
    let f = area.data_frame@[k].1.ppn.0;
    assert(ms.page_table.lookup(pool, v) == Some(area.entry_for(area.target(v))));
    assert(pool.memory.has(f));
    lemma_pte_bits(f, area.map_perm.bits | PTE_V);
    assert(area.owns(f));
    assert forall|b: int|
        0 <= b < ms.areas@.len() && ms.areas@[b].map_type == MapType::Framed && (#[trigger] ms.areas@[b]).start()
            <= w < ms.areas@[b].end() implies b == a by {
        let other = ms.areas@[b];
        assert(other.mapped_whole(&ms.page_table, pool));
        let g = other.data_frame@[w - other.start()].1.ppn.0;
        assert(ms.page_table.lookup(pool, w) == Some(other.entry_for(other.target(w))));
        assert(pool.memory.has(g));
        lemma_pte_bits(g, other.map_perm.bits | PTE_V);
        assert(other.owns(g));
        assert(ms.areas@[a].owns(f) && ms.areas@[b].owns(f));
    }
}

impl MapArea {
    /// An area of the same pages, kind and rights as `another`, which owns no page yet.
    pub fn from_another(another: &MapArea) -> (r: Self)
        ensures
            r.vpn_range.l == another.vpn_range.l,
            r.vpn_range.r == another.vpn_range.r,
            r.data_frame@.len() == 0,
            r.map_type == another.map_type,
            r.map_perm == another.map_perm,
    {
        Self {
            vpn_range: SimpleRange::new(another.vpn_range.get_start(), another.vpn_range.get_end()),
            data_frame: Vec::new(),
            map_type: another.map_type,
            map_perm: another.map_perm,
        }
    }
}

impl MemorySet {
    /// Number of pages that a copy of the first `j` areas takes from the pool at most.
    pub open spec fn copy_cost(&self, j: int) -> int
        decreases j,
    {
        if j <= 0 {
            0
        } else {
            self.copy_cost(j - 1) + map_cost(
                self.areas@[j - 1].start() as int,
                self.areas@[j - 1].end() as int,
                true,
            )
        }
    }

    /// The first `j` areas of the address space `child` are copies of those
    /// of this one: each has the same pages, kind and rights, and each of
    /// its pages holds what the page of this address space held in the pool
    /// `pool0` before the copying; the trampoline is mapped; nothing else is
    /// mapped; and the pool differs from `pool0` only by what the copy took.
    pub open spec fn copied_to(
        &self,
        child: &MemorySet,
        pool: &FramePool,
        pool0: &FramePool,
        strampoline: u64,
        j: int,
    ) -> bool {
        &&& child.wf(pool)
        &&& self.wf(pool)
        &&& child.areas@.len() == j
        &&& j <= self.areas@.len()
        &&& forall|a: int|
            0 <= a < j ==> {
                &&& (#[trigger] child.areas@[a]).vpn_range.l == self.areas@[a].vpn_range.l
                &&& child.areas@[a].vpn_range.r == self.areas@[a].vpn_range.r
                &&& child.areas@[a].map_perm == self.areas@[a].map_perm
                &&& child.areas@[a].map_type == self.areas@[a].map_type
            }
        &&& forall|a: int, k: int|
            0 <= a < j && 0 <= k < child.areas@[a].data_frame@.len() ==> pool.mem()[(
            #[trigger] child.areas@[a].data_frame@[k]).1.ppn.0] == pool0.mem()[self.areas@[a].data_frame@[k].1.ppn.0]
        &&& child.page_table.lookup(pool, trampoline_vpn()) == Some(
            trampoline_entry((strampoline / 4096) as u64),
        )
        &&& forall|v: u64|
            (#[trigger] child.page_table.lookup(pool, v)).is_some() ==> key_of(v) == key_of(trampoline_vpn())
                || exists|a: int, w: u64|
                0 <= a < j && (#[trigger] self.areas@[a]).start() <= w < self.areas@[a].end() && key_of(v)
                    == #[trigger] key_of(w)
        &&& pool.allocator@.free_count() >= pool0.allocator@.free_count() - 3 - self.copy_cost(j)
        &&& pool.memory.base() == pool0.memory.base()
        &&& pool.memory.count() == pool0.memory.count()
        &&& forall|p: u64| pool0.is_allocated(p) ==> #[trigger] pool.mem()[p] == pool0.mem()[p]
        &&& forall|p: u64| child.owns(p) ==> !pool0.is_allocated(p)
        &&& forall|p: u64| pool0.is_allocated(p) ==> pool.is_allocated(p)
    }

    /// The cost of a copy grows with each area.
    pub proof fn lemma_copy_cost(&self, j: int, n: int)
        requires
            0 <= j <= n,
        ensures
            0 <= self.copy_cost(j) <= self.copy_cost(n),
        decreases n,
    {
        if n > 0 {
            lemma_map_cost_nonneg(self.areas@[n - 1].start() as int, self.areas@[n - 1].end() as int, true);
            if j < n {
                self.lemma_copy_cost(j, n - 1);
            } else {
                self.lemma_copy_cost(j - 1, n - 1);
            }
        }
    }
}


/// An address space stays in order where only pages of its areas are written.
pub proof fn lemma_space_data_written(ms: &MemorySet, p1: &FramePool, p2: &FramePool)
    requires
        ms.wf(p1),
        p2.wf(),
        p2.allocator@ == p1.allocator@,
        p2.memory.base() == p1.memory.base(),
        p2.memory.count() == p1.memory.count(),
        forall|p: u64| !ms.owns_data(p) ==> #[trigger] p2.mem()[p] == p1.mem()[p],
    ensures
        ms.wf(p2),
        forall|v: u64| #[trigger] ms.page_table.lookup(p2, v) == ms.page_table.lookup(p1, v),
{
    let t = ms.page_table.tables();
    assert forall|i: int| 0 <= i < t.frames.len() implies p2.mem()[#[trigger] t.frames[i]] == p1.mem()[t.frames[i]] by {
        let q = t.frames[i];
        assert(t.owns(q));
        if ms.owns_data(q) {
            let a = choose|a: int| 0 <= a < ms.areas@.len() && (#[trigger] ms.areas@[a]).owns(q);
            assert(ms.areas@[a].mapped_whole(&ms.page_table, p1));
            let k = choose|k: int|
                0 <= k < ms.areas@[a].data_frame@.len() && (#[trigger] ms.areas@[a].data_frame@[k]).1.ppn.0 == q;
            assert(!t.owns(ms.areas@[a].data_frame@[k].1.ppn.0));
        }
    }
    crate::mm::memory_set::lemma_pool_tables_untouched(&ms.page_table, p1, p2);
    assert forall|a: int| 0 <= a < ms.areas@.len() implies (#[trigger] ms.areas@[a]).mapped_whole(
        &ms.page_table,
        p2,
    ) by {
        assert(ms.areas@[a].mapped_whole(&ms.page_table, p1));
        crate::mm::memory_set::lemma_area_untouched(&ms.areas@[a], &ms.page_table, p1, p2);
    }
}

impl MemorySet {
    /// Whether the address space is one of a user program whose trampoline
    /// is the page at `strampoline`: every area is framed, and the
    /// trampoline is mapped to that page, which is no page of the pool.
    pub open spec fn is_user_space(&self, pool: &FramePool, strampoline: u64) -> bool {
        &&& self.wf(pool)
        &&& forall|a: int| 0 <= a < self.areas@.len() ==> (#[trigger] self.areas@[a]).map_type == MapType::Framed
        &&& self.page_table.lookup(pool, trampoline_vpn()) == Some(
            trampoline_entry((strampoline / 4096) as u64),
        )
        &&& strampoline % 4096 == 0
        &&& strampoline / 4096 < 0x1000_0000_0000
        &&& !pool.memory.has((strampoline / 4096) as u64)
    }

    /// A new address space in which only the trampoline is mapped, to begin a copy with.
    #[verifier::spinoff_prover]
    #[verifier::rlimit(100)]
    fn begin_copy(parent: &MemorySet, strampoline: PhysAddr, pool: &mut FramePool) -> (r: Self)
        requires
            parent.is_user_space(old(pool), strampoline.0),
            old(pool).allocator@.free_count() >= 3,
        ensures
            parent.copied_to(&r, final(pool), old(pool), strampoline.0, 0),
    {
        let ghost pool0 = *pool;
        proof {
            assert(pool.allocator@.can_alloc());
            lemma_alloc_fresh(pool.allocator@);
        }
        let mut memory_set = Self::new_bare(pool);
        let ghost pool1 = *pool;
        let ghost ms1 = memory_set;
        proof {
            assert forall|p: u64| ms1.owns(p) implies !pool0.is_allocated(p) by {
                if ms1.page_table.tables().owns(p) {
                    let k = choose|k: int|
                        0 <= k < ms1.page_table.tables().frames.len() && ms1.page_table.tables().frames[k]
                            == p;
                    assert(k == 0);
                }
            }
        }
        memory_set.map_trampoline(strampoline, pool);
        proof {
            assert forall|v: u64| (#[trigger] memory_set.page_table.lookup(pool, v)).is_some() implies key_of(v)
                == key_of(trampoline_vpn()) by {
                if key_of(v) != key_of(trampoline_vpn()) {
                    assert(ms1.page_table.lookup(&pool1, v).is_none());
                }
            }
            assert forall|p: u64| memory_set.owns(p) implies !pool0.is_allocated(p) by {
                if !ms1.owns(p) {
                    assert(!pool1.is_allocated(p));
                }
            }
            assert forall|p: u64| pool0.is_allocated(p) implies #[trigger] pool.mem()[p] == pool0.mem()[p] by {
                assert(pool1.is_allocated(p));
                assert(!ms1.page_table.tables().owns(p));
            }
            lemma_space_kept(parent, &pool0, pool);
        }
        memory_set
    }

    /// Copies the pages of area `j` of `parent` onto the pages of area `j`
    /// of this address space, its last.
    #[verifier::spinoff_prover]
    #[verifier::rlimit(100)]
    fn copy_pages(&self, parent: &MemorySet, j: usize, pool: &mut FramePool)
        requires
            old(pool).wf(),
            j + 1 == self.areas@.len(),
            j < parent.areas@.len(),
            self.areas@[j as int].data_frame@.len() == parent.areas@[j as int].data_frame@.len(),
            self.areas@[j as int].wf(),
            forall|i: int|
                0 <= i < self.areas@[j as int].data_frame@.len() ==> old(pool).memory.has(
                    (#[trigger] self.areas@[j as int].data_frame@[i]).1.ppn.0,
                ),
            forall|i: int|
                0 <= i < parent.areas@[j as int].data_frame@.len() ==> old(pool).memory.has(
                    (#[trigger] parent.areas@[j as int].data_frame@[i]).1.ppn.0,
                ) && !self.areas@[j as int].owns(parent.areas@[j as int].data_frame@[i].1.ppn.0),
        ensures
            final(pool).wf(),
            final(pool).allocator@ == old(pool).allocator@,
            final(pool).memory.base() == old(pool).memory.base(),
            final(pool).memory.count() == old(pool).memory.count(),
            forall|p: u64| !self.areas@[j as int].owns(p) ==> #[trigger] final(pool).mem()[p] == old(pool).mem()[p],
            forall|i: int|
                0 <= i < self.areas@[j as int].data_frame@.len() ==> final(pool).mem()[(
                #[trigger] self.areas@[j as int].data_frame@[i]).1.ppn.0] == old(pool).mem()[parent.areas@[j as int].data_frame@[i].1.ppn.0],
    {
        let ghost pool_b = *pool;
        let ghost dsts = self.areas@[j as int].data_frame@;
        let ghost srcs = parent.areas@[j as int].data_frame@;
        let pages = parent.areas[j].data_frame.len();
        let mut k: usize = 0;
        while k < pages
            invariant
                k <= pages,
                pages == srcs.len(),
                dsts.len() == pages,
                j + 1 == self.areas@.len(),
                j < parent.areas@.len(),
                dsts == self.areas@[j as int].data_frame@,
                srcs == parent.areas@[j as int].data_frame@,
                self.areas@[j as int].wf(),
                pool_b == *old(pool),
                forall|i: int| 0 <= i < pages ==> pool_b.memory.has((#[trigger] dsts[i]).1.ppn.0),
                forall|i: int|
                    0 <= i < pages ==> pool_b.memory.has((#[trigger] srcs[i]).1.ppn.0) && !self.areas@[j as int].owns(
                        srcs[i].1.ppn.0,
                    ),
                pool.wf(),
                pool.allocator@ == pool_b.allocator@,
                pool.memory.base() == pool_b.memory.base(),
                pool.memory.count() == pool_b.memory.count(),
                forall|p: u64| !self.areas@[j as int].owns(p) ==> #[trigger] pool.mem()[p] == pool_b.mem()[p],
                forall|i: int| 0 <= i < k ==> pool.mem()[(#[trigger] dsts[i]).1.ppn.0] == pool_b.mem()[srcs[i].1.ppn.0],
            decreases pages - k,
        {
            let src = parent.areas[j].data_frame[k].1.ppn;
            let dst = self.areas[j].data_frame[k].1.ppn;
            proof {
                assert(pool_b.memory.has(dsts[k as int].1.ppn.0));
                assert(pool_b.memory.has(srcs[k as int].1.ppn.0));
                assert(self.areas@[j as int].owns(dst.0));
            }
            let ghost before = pool.mem();
            proof {
                assert(!self.areas@[j as int].owns(srcs[k as int].1.ppn.0));
                assert(before[src.0] == pool_b.mem()[src.0]);
            }
            pool.memory.copy_page(dst.0, src.0);
            proof {
                assert(pool.mem() == before.insert(dst.0, before[src.0]));
                assert forall|p: u64| !self.areas@[j as int].owns(p) implies #[trigger] pool.mem()[p] == pool_b.mem()[p] by {
                    assert(p != dst.0);
                    assert(before[p] == pool_b.mem()[p]);
                }
                assert forall|i: int| 0 <= i < k + 1 implies pool.mem()[(#[trigger] dsts[i]).1.ppn.0] == pool_b.mem()[srcs[i].1.ppn.0] by {
                    if i < k {
                        assert(dsts[i].1.ppn != dsts[k as int].1.ppn);
                        assert(before[dsts[i].1.ppn.0] == pool_b.mem()[srcs[i].1.ppn.0]);
                    }
                }
            }
            k += 1;
        }
    }

    /// Adds to this address space a copy of the next area of `parent`, page by page.
    #[verifier::spinoff_prover]
    #[verifier::rlimit(100)]
    fn copy_area(&mut self, parent: &MemorySet, strampoline: Ghost<u64>, pool0: Ghost<FramePool>, pool: &mut FramePool)
        requires
            parent.copied_to(old(self), old(pool), &pool0@, strampoline@, old(self).areas@.len() as int),
            parent.is_user_space(&pool0@, strampoline@),
            old(self).areas@.len() < parent.areas@.len(),
            pool0@.allocator@.free_count() >= 3 + parent.copy_cost(parent.areas@.len() as int),
        ensures
            parent.copied_to(final(self), final(pool), &pool0@, strampoline@, old(self).areas@.len() as int + 1),
    {
        let ghost j = self.areas@.len() as int;
        let ghost child0 = *self;
        let ghost pool_a = *pool;
        let j_exec = self.areas.len();
        let area = &parent.areas[j_exec];
        let new_area = MapArea::from_another(area);
        proof {
            parent.lemma_copy_cost(j + 1, parent.areas@.len() as int);
            parent.lemma_copy_cost(j, j + 1);
            lemma_copy_unmapped(parent, &child0, &pool_a, &pool0@, strampoline@, j);
        }
        self.push(new_area, None, pool);
        let ghost child1 = *self;
        let ghost pool_b = *pool;
        proof {
            assert forall|p: u64| parent.owns(p) implies #[trigger] pool_b.mem()[p] == pool_a.mem()[p] by {
                lemma_owned_allocated(parent, &pool_a, p);
                if child0.page_table.tables().owns(p) {
                    assert(child0.owns(p));
                }
            }
            lemma_space_kept(parent, &pool_a, &pool_b);
            assert(child1.areas@[j] == child1.areas@.last());
            assert(child1.areas@[j].mapped_whole(&child1.page_table, &pool_b));
            assert(area.mapped_whole(&parent.page_table, &pool_b));
            assert forall|i: int| 0 <= i < area.data_frame@.len() implies pool_b.memory.has(
                (#[trigger] area.data_frame@[i]).1.ppn.0,
            ) && !child1.areas@[j].owns(area.data_frame@[i].1.ppn.0) by {
                let q = area.data_frame@[i].1.ppn.0;
                assert(pool_a.is_allocated(q)) by {
                    assert(area.mapped_whole(&parent.page_table, &pool_a));
                }
                if child1.areas@[j].owns(q) {
                    let x = choose|x: int|
                        0 <= x < child1.areas@[j].data_frame@.len() && (
                        #[trigger] child1.areas@[j].data_frame@[x]).1.ppn.0 == q;
                    assert(!pool_a.is_allocated(child1.areas@[j].data_frame@[x].1.ppn.0));
                }
            }
        }
        self.copy_pages(parent, j_exec, pool);
        proof {
            lemma_copy_done(parent, &child0, &child1, &pool_a, &pool_b, pool, &pool0@, strampoline@, j);
        }
    }

    /// A copy of the address space `user_space` of a user program: the same
    /// areas, each page with the same content on a page of its own, and the
    /// trampoline.
    pub fn from_existed_user(user_space: &MemorySet, strampoline: PhysAddr, pool: &mut FramePool) -> (r: Self)
        requires
            user_space.is_user_space(old(pool), strampoline.0),
            old(pool).allocator@.free_count() >= 3 + user_space.copy_cost(user_space.areas@.len() as int),
        ensures
            user_space.copied_to(&r, final(pool), old(pool), strampoline.0, user_space.areas@.len() as int),
    {
        let ghost pool0 = *pool;
        proof {
            user_space.lemma_copy_cost(0, user_space.areas@.len() as int);
        }
        let mut memory_set = Self::begin_copy(user_space, strampoline, pool);
        let n = user_space.areas.len();
        let mut j: usize = 0;
        while j < n
            invariant
                j <= n == user_space.areas@.len(),
                memory_set.areas@.len() == j,
                pool0 == *old(pool),
                user_space.is_user_space(&pool0, strampoline.0),
                pool0.allocator@.free_count() >= 3 + user_space.copy_cost(n as int),
                user_space.copied_to(&memory_set, pool, &pool0, strampoline.0, j as int),
            decreases n - j,
        {
            memory_set.copy_area(user_space, Ghost(strampoline.0), Ghost(pool0), pool);
            j += 1;
        }
        memory_set
    }
}


/// A page that an address space in order owns is in use.
pub proof fn lemma_owned_allocated(ms: &MemorySet, pool: &FramePool, p: u64)
    requires
        ms.wf(pool),
        ms.owns(p),
    ensures
        pool.is_allocated(p),
        pool.memory.has(p),
{
    pool.memory.lemma_view();
    if ms.page_table.tables().owns(p) {
        let i = choose|i: int| 0 <= i < ms.page_table.tables().frames.len() && ms.page_table.tables().frames[i] == p;
        assert(pool.is_allocated(ms.page_table.tables().frames[i]));
    } else {
        let a = choose|a: int| 0 <= a < ms.areas@.len() && (#[trigger] ms.areas@[a]).owns(p);
        assert(ms.areas@[a].mapped_whole(&ms.page_table, pool));
        let k = choose|k: int|
            0 <= k < ms.areas@[a].data_frame@.len() && (#[trigger] ms.areas@[a].data_frame@[k]).1.ppn.0 == p;
        assert(pool.is_allocated(ms.areas@[a].data_frame@[k].1.ppn.0));
    }
}

/// Before area `j` is copied, none of its pages is mapped in the copy.
pub proof fn lemma_copy_unmapped(
    parent: &MemorySet,
    child: &MemorySet,
    pool: &FramePool,
    pool0: &FramePool,
    strampoline: u64,
    j: int,
)
    requires
        parent.copied_to(child, pool, pool0, strampoline, j),
        parent.is_user_space(pool0, strampoline),
        j < parent.areas@.len(),
    ensures
        forall|v: u64|
            parent.areas@[j].start() <= v < parent.areas@[j].end() ==> (#[trigger] child.page_table.lookup(
                pool,
                v,
            )).is_none(),
        parent.areas@[j].wf(),
        parent.areas@[j].map_type == MapType::Framed,
{
    let area = parent.areas@[j];
    assert(area.mapped_whole(&parent.page_table, pool));
    assert forall|p: u64| parent.owns(p) implies #[trigger] pool.mem()[p] == pool0.mem()[p] by {
        lemma_owned_allocated(parent, pool0, p);
    }
    lemma_space_kept(parent, pool0, pool);
    assert forall|v: u64| area.start() <= v < area.end() implies (#[trigger] child.page_table.lookup(
        pool,
        v,
    )).is_none() by {
        if child.page_table.lookup(pool, v).is_some() {
            if key_of(v) == key_of(trampoline_vpn()) {
                lemma_areas_apart(parent, pool, j, v, trampoline_vpn());
                lemma_pte_bits((strampoline / 4096) as u64, 0x0b);
                let q = (strampoline / 4096) as u64;
                let k = choose|k: int| 0 <= k < area.data_frame@.len() && (#[trigger] area.data_frame@[k]).1.ppn.0 == q;
                assert(pool.memory.has(area.data_frame@[k].1.ppn.0));
            } else {
                let (a, w) = choose|a: int, w: u64|
                    0 <= a < j && (#[trigger] parent.areas@[a]).start() <= w < parent.areas@[a].end() && key_of(v)
                        == #[trigger] key_of(w);
                lemma_areas_apart(parent, pool, j, v, w);
            }
        }
    }
}

/// Once the pages of area `j` are copied, the copy has one area more.
#[verifier::spinoff_prover]
#[verifier::rlimit(100)]
pub proof fn lemma_copy_done(
    parent: &MemorySet,
    child0: &MemorySet,
    child1: &MemorySet,
    pool_a: &FramePool,
    pool_b: &FramePool,
    pool_c: &FramePool,
    pool0: &FramePool,
    strampoline: u64,
    j: int,
)
    requires
        parent.copied_to(child0, pool_a, pool0, strampoline, j),
        parent.is_user_space(pool0, strampoline),
        j < parent.areas@.len(),
        pool0.allocator@.free_count() >= 3 + parent.copy_cost(parent.areas@.len() as int),
        // the area was added
        child1.wf(pool_b),
        parent.wf(pool_b),
        child1.page_table.root_ppn == child0.page_table.root_ppn,
        child1.areas@.len() == j + 1,
        child1.areas@.drop_last() == child0.areas@,
        child1.areas@.last().vpn_range.l == parent.areas@[j].vpn_range.l,
        child1.areas@.last().vpn_range.r == parent.areas@[j].vpn_range.r,
        child1.areas@.last().map_type == parent.areas@[j].map_type,
        child1.areas@.last().map_perm == parent.areas@[j].map_perm,
        forall|i: int|
            0 <= i < child1.areas@.last().data_frame@.len() ==> !pool_a.is_allocated(
                (#[trigger] child1.areas@.last().data_frame@[i]).1.ppn.0,
            ),
        forall|v: u64|
            apart_from(v, parent.areas@[j].start(), parent.areas@[j].end()) ==> #[trigger] child1.page_table.lookup(
                pool_b,
                v,
            ) == child0.page_table.lookup(pool_a, v),
        pool_b.allocator@.free_count() >= pool_a.allocator@.free_count() - map_cost(
            parent.areas@[j].start() as int,
            parent.areas@[j].end() as int,
            true,
        ),
        pool_b.memory.base() == pool_a.memory.base(),
        pool_b.memory.count() == pool_a.memory.count(),
        forall|p: u64|
            pool_a.is_allocated(p) && !child0.page_table.tables().owns(p) ==> #[trigger] pool_b.mem()[p]
                == pool_a.mem()[p],
        forall|p: u64| child1.owns(p) && !child0.owns(p) ==> !pool_a.is_allocated(p),
        forall|p: u64| pool_a.is_allocated(p) ==> pool_b.is_allocated(p),
        // the pages were copied
        pool_c.wf(),
        pool_c.allocator@ == pool_b.allocator@,
        pool_c.memory.base() == pool_b.memory.base(),
        pool_c.memory.count() == pool_b.memory.count(),
        forall|p: u64| !child1.areas@[j].owns(p) ==> #[trigger] pool_c.mem()[p] == pool_b.mem()[p],
        forall|i: int|
            0 <= i < child1.areas@[j].data_frame@.len() ==> pool_c.mem()[(#[trigger] child1.areas@[j].data_frame@[i]).1.ppn.0]
                == pool_b.mem()[parent.areas@[j].data_frame@[i].1.ppn.0],
    ensures
        parent.copied_to(child1, pool_c, pool0, strampoline, j + 1),
{
    let area = parent.areas@[j];
    assert(child1.areas@[j] == child1.areas@.last());
    assert forall|a: int| 0 <= a < j implies #[trigger] child1.areas@[a] == child0.areas@[a] by {
        assert(child1.areas@.drop_last()[a] == child0.areas@[a]);
    }
    assert forall|p: u64| !child1.owns_data(p) implies #[trigger] pool_c.mem()[p] == pool_b.mem()[p] by {
        if child1.areas@[j].owns(p) {
            assert(child1.owns_data(p));
        }
    }
    lemma_space_data_written(child1, pool_b, pool_c);
    // a page of the new area was not in use before
    assert forall|p: u64| child1.areas@[j].owns(p) implies !pool_a.is_allocated(p) by {
        let i = choose|i: int|
            0 <= i < child1.areas@[j].data_frame@.len() && (#[trigger] child1.areas@[j].data_frame@[i]).1.ppn.0 == p;
        assert(!pool_a.is_allocated(child1.areas@.last().data_frame@[i].1.ppn.0));
    }
    assert forall|p: u64| pool0.is_allocated(p) implies #[trigger] pool_c.mem()[p] == pool0.mem()[p] by {
        assert(pool_a.is_allocated(p));
        assert(!child1.areas@[j].owns(p));
        if child0.page_table.tables().owns(p) {
            assert(child0.owns(p));
        }
    }
    assert forall|p: u64| parent.owns(p) implies #[trigger] pool_c.mem()[p] == pool_a.mem()[p] by {
        lemma_owned_allocated(parent, pool_a, p);
        assert(!child1.areas@[j].owns(p));
        if child0.page_table.tables().owns(p) {
            assert(child0.owns(p));
        }
    }
    lemma_space_kept(parent, pool_a, pool_c);
    assert forall|a: int, i: int|
        0 <= a < j + 1 && 0 <= i < child1.areas@[a].data_frame@.len() implies pool_c.mem()[(
    #[trigger] child1.areas@[a].data_frame@[i]).1.ppn.0] == pool0.mem()[parent.areas@[a].data_frame@[i].1.ppn.0] by {
        if a < j {
            let q = child0.areas@[a].data_frame@[i].1.ppn.0;
            assert(child0.areas@[a].mapped_whole(&child0.page_table, pool_a));
            assert(pool_a.is_allocated(q));
            assert(!child0.page_table.tables().owns(q));
            assert(child0.areas@[a].owns(q));
            assert(!child1.areas@[j].owns(q));
        } else {
            let q = area.data_frame@[i].1.ppn.0;
            assert(area.mapped_whole(&parent.page_table, pool0));
            assert(pool0.is_allocated(q));
            assert(pool_a.is_allocated(q));
            if child0.page_table.tables().owns(q) {
                assert(child0.owns(q));
            }
        }
    }
    assert forall|v: u64| (#[trigger] child1.page_table.lookup(pool_c, v)).is_some() implies key_of(v) == key_of(
        trampoline_vpn(),
    ) || exists|a: int, w: u64|
        0 <= a < j + 1 && (#[trigger] parent.areas@[a]).start() <= w < parent.areas@[a].end() && key_of(v)
            == #[trigger] key_of(w) by {
        if apart_from(v, area.start(), area.end()) {
            assert(child0.page_table.lookup(pool_a, v).is_some());
            if key_of(v) != key_of(trampoline_vpn()) {
                let (a, w) = choose|a: int, w: u64|
                    0 <= a < j && (#[trigger] parent.areas@[a]).start() <= w < parent.areas@[a].end() && key_of(v)
                        == #[trigger] key_of(w);
                assert(0 <= a < j + 1);
            }
        } else {
            let w = choose|w: u64| area.start() <= w < area.end() && key_of(v) == #[trigger] key_of(w);
            assert(parent.areas@[j].start() <= w < parent.areas@[j].end());
        }
    }
    assert(child1.page_table.lookup(pool_c, trampoline_vpn()) == Some(
        trampoline_entry((strampoline / 4096) as u64),
    )) by {
        lemma_copy_unmapped(parent, child0, pool_a, pool0, strampoline, j);
        assert(apart_from(trampoline_vpn(), area.start(), area.end())) by {
            assert forall|w: u64| area.start() <= w < area.end() implies key_of(trampoline_vpn()) != #[trigger] key_of(
                w,
            ) by {
                if key_of(trampoline_vpn()) == key_of(w) {
                    lemma_walk_key(pool_a.mem(), child0.page_table.root_ppn.0, trampoline_vpn(), w);
                    assert(child0.page_table.lookup(pool_a, w).is_none());
                }
            }
        }
    }
    assert forall|p: u64| child1.owns(p) implies !pool0.is_allocated(p) by {
        if !child0.owns(p) {
            assert(!pool_a.is_allocated(p));
        }
    }
    parent.lemma_copy_cost(j, j + 1);
}


/// An address space stays in order where its tables hold what they held
/// and the pages in use stay in use: what its other pages hold does not matter.
pub proof fn lemma_space_tables_kept(ms: &MemorySet, p0: &FramePool, p1: &FramePool)
    requires
        ms.wf(p0),
        p1.wf(),
        p1.memory.base() == p0.memory.base(),
        p1.memory.count() == p0.memory.count(),
        forall|p: u64| p0.is_allocated(p) ==> p1.is_allocated(p),
        forall|p: u64| ms.page_table.tables().owns(p) ==> #[trigger] p1.mem()[p] == p0.mem()[p],
    ensures
        ms.wf(p1),
        forall|v: u64| #[trigger] ms.page_table.lookup(p1, v) == ms.page_table.lookup(p0, v),
{
    let t = ms.page_table.tables();
    p0.memory.lemma_view();
    p1.memory.lemma_view();
    assert forall|i: int| 0 <= i < t.frames.len() implies p1.mem()[#[trigger] t.frames[i]] == p0.mem()[t.frames[i]] by {
        assert(t.frames.contains(t.frames[i]));
    }
    lemma_tables_untouched(t, p0.mem(), p1.mem());
    assert forall|i: int| 0 <= i < t.frames.len() implies p1.is_allocated(#[trigger] t.frames[i]) by {
        assert(p0.is_allocated(t.frames[i]));
    }
    assert forall|a: int| 0 <= a < ms.areas@.len() implies (#[trigger] ms.areas@[a]).mapped_whole(
        &ms.page_table,
        p1,
    ) by {
        assert(ms.areas@[a].mapped_whole(&ms.page_table, p0));
        lemma_area_kept(&ms.areas@[a], &ms.page_table, p0, &ms.page_table, p1);
    }
}

/// A page of an area is no table.
pub proof fn lemma_data_not_table(ms: &MemorySet, pool: &FramePool, p: u64)
    requires
        ms.wf(pool),
        ms.owns_data(p),
    ensures
        !ms.page_table.tables().owns(p),
{
    let a = choose|a: int| 0 <= a < ms.areas@.len() && (#[trigger] ms.areas@[a]).owns(p);
    assert(ms.areas@[a].mapped_whole(&ms.page_table, pool));
    let k = choose|k: int| 0 <= k < ms.areas@[a].data_frame@.len() && (#[trigger] ms.areas@[a].data_frame@[k]).1.ppn.0 == p;
    assert(!ms.page_table.tables().owns(ms.areas@[a].data_frame@[k].1.ppn.0));
}

impl ElfImage {
    /// The address space `ms` holds the program of this ELF file, loaded
    /// from `data`: its areas are the segments, the user stack and the trap
    /// context; each page of a segment and of the stack holds its content;
    /// the trampoline is mapped to the page at `strampoline`; and no other
    /// page below the trap context is mapped.
    #[verifier::opaque]
    pub open spec fn image_of(&self, ms: &MemorySet, pool: &FramePool, data: Seq<u8>, strampoline: u64) -> bool {
        &&& ms.wf(pool)
        &&& ms.areas@.len() == self.segments().len() + 2
        &&& ms.areas@[self.segments().len() as int + 1].data_frame@.len() == 1
        &&& forall|a: int|
            0 <= a < ms.areas@.len() ==> {
                &&& (#[trigger] ms.areas@[a]).start() == self.range(a).0
                &&& ms.areas@[a].end() == self.range(a).1
                &&& ms.areas@[a].map_perm.bits == self.perm(a)
                &&& ms.areas@[a].map_type == MapType::Framed
            }
        &&& ms.areas@[self.segments().len() as int].data_frame@.len() == 2
        &&& forall|a: int, k: int|
            0 <= a < ms.areas@.len() - 2 && 0 <= k < ms.areas@[a].data_frame@.len() ==> pool.mem()[(
            #[trigger] ms.areas@[a].data_frame@[k]).1.ppn.0] == self.content(data, a, k)
        &&& ms.page_table.lookup(pool, trampoline_vpn()) == Some(trampoline_entry((strampoline / 4096) as u64))
        &&& forall|v: u64|
            v < 0x7ff_fffe && !ms.in_area(v) ==> (#[trigger] ms.page_table.lookup(pool, v)).is_none()
    }

    /// Page `k` of the user stack in the address space `ms`.
    pub open spec fn stack_page(&self, ms: &MemorySet, k: int) -> u64 {
        ms.areas@[self.segments().len() as int].data_frame@[k].1.ppn.0
    }

    /// The page that holds the trap context in the address space `ms`.
    pub open spec fn trap_page(&self, ms: &MemorySet) -> u64 {
        ms.areas@[self.segments().len() as int + 1].data_frame@[0].1.ppn.0
    }

    /// A program that was loaded is in its address space, and the page of
    /// its trap context is a page of zero bytes.
    pub proof fn lemma_loaded_image(
        &self,
        ms: &MemorySet,
        pool: &FramePool,
        pool0: &FramePool,
        data: Seq<u8>,
        strampoline: u64,
    )
        requires
            self.loaded(ms, pool, pool0, data, strampoline, self.segments().len() as int + 2),
            self.loadable(data.len() as int),
        ensures
            self.image_of(ms, pool, data, strampoline),
            pool.mem()[self.trap_page(ms)] == zero_page(),
            pool.mem()[self.stack_page(ms, 0)] == zero_page(),
            pool.mem()[self.stack_page(ms, 1)] == zero_page(),
    {
        reveal(ElfImage::image_of);
        let n = self.segments().len() as int;
        let area = ms.areas@[n + 1];
        assert(area.mapped_whole(&ms.page_table, pool));
        assert(pool.mem()[area.data_frame@[0].1.ppn.0] == self.content(data, n + 1, 0));
        let stack = ms.areas@[n];
        assert(stack.mapped_whole(&ms.page_table, pool));
        self.lemma_loads_loadable(self.program_headers@.len() as int, data.len() as int);
        if n > 0 {
            assert(self.segments()[n - 1].loadable(data.len() as int));
        }
        assert(self.range(n).1 - self.range(n).0 == 2);
        assert(stack.data_frame@.len() == 2);
        assert(pool.mem()[stack.data_frame@[0].1.ppn.0] == self.content(data, n, 0));
        assert(pool.mem()[stack.data_frame@[1].1.ppn.0] == self.content(data, n, 1));
    }

    /// What follows from a program being in its address space: the address
    /// space is in order, and the page of the trap context is a page of an
    /// area, to which the page table maps the trap context.
    pub proof fn lemma_image_facts(&self, ms: &MemorySet, pool: &FramePool, data: Seq<u8>, strampoline: u64)
        requires
            self.image_of(ms, pool, data, strampoline),
        ensures
            ms.wf(pool),
            ms.areas@.len() == self.segments().len() + 2,
            ms.page_table.lookup(pool, trap_context_vpn()).is_some(),
            pte_ppn(ms.page_table.lookup(pool, trap_context_vpn()).unwrap()) == self.trap_page(ms),
            pool.memory.has(self.trap_page(ms)),
            pool.is_allocated(self.trap_page(ms)),
            ms.owns_data(self.trap_page(ms)),
            ms.owns(self.trap_page(ms)),
            !ms.page_table.tables().owns(self.trap_page(ms)),
            pool.memory.has(self.stack_page(ms, 0)),
            pool.memory.has(self.stack_page(ms, 1)),
            ms.owns_data(self.stack_page(ms, 0)),
            ms.owns_data(self.stack_page(ms, 1)),
            ms.areas@[self.segments().len() as int].data_frame@.len() == 2,
            self.stack_page(ms, 0) != self.stack_page(ms, 1),
            self.stack_page(ms, 0) != self.trap_page(ms),
            self.stack_page(ms, 1) != self.trap_page(ms),
            ms.page_table.lookup(pool, trampoline_vpn()) == Some(trampoline_entry((strampoline / 4096) as u64)),
            forall|a: int|
                0 <= a < ms.areas@.len() ==> (#[trigger] ms.areas@[a]).map_type == MapType::Framed,
    {
        reveal(ElfImage::image_of);
        let n = self.segments().len() as int;
        let area = ms.areas@[n + 1];
        assert(area.mapped_whole(&ms.page_table, pool));
        assert(area.start() == trap_context_vpn());
        assert(ms.page_table.lookup(pool, trap_context_vpn()) == Some(area.entry_for(area.target(trap_context_vpn()))));
        let f = area.data_frame@[0].1.ppn.0;
        assert(pool.memory.has(f));
        lemma_pte_bits(f, area.map_perm.bits | PTE_V);
        assert(area.owns(f));
        assert(ms.owns_data(f));
        lemma_data_not_table(ms, pool, f);
        let stack = ms.areas@[n];
        assert(stack.mapped_whole(&ms.page_table, pool));
        let s0 = stack.data_frame@[0].1.ppn.0;
        let s1 = stack.data_frame@[1].1.ppn.0;
        assert(pool.memory.has(s0) && pool.memory.has(s1));
        assert(stack.owns(s0) && stack.owns(s1));
        assert(stack.data_frame@[0].1.ppn != stack.data_frame@[1].1.ppn);
        if s0 == f {
            assert(ms.areas@[n].owns(f) && ms.areas@[n + 1].owns(f));
        }
        if s1 == f {
            assert(ms.areas@[n].owns(f) && ms.areas@[n + 1].owns(f));
        }
    }

    /// A program stays in its address space where the pool changes around
    /// it: the pages in use stay in use, and the pages of the address space
    /// hold what they held, but for the page of the trap context.
    pub proof fn lemma_image_kept(
        &self,
        ms: &MemorySet,
        p0: &FramePool,
        p1: &FramePool,
        data: Seq<u8>,
        strampoline: u64,
    )
        requires
            self.image_of(ms, p0, data, strampoline),
            p1.wf(),
            p1.memory.base() == p0.memory.base(),
            p1.memory.count() == p0.memory.count(),
            forall|p: u64| p0.is_allocated(p) ==> p1.is_allocated(p),
            forall|p: u64|
                ms.owns(p) && p != self.trap_page(ms) && p != self.stack_page(ms, 0) && p != self.stack_page(ms, 1)
                    ==> #[trigger] p1.mem()[p] == p0.mem()[p],
        ensures
            self.image_of(ms, p1, data, strampoline),
    {
        reveal(ElfImage::image_of);
        let n = self.segments().len() as int;
        assert(ms.areas@[n + 1].owns(self.trap_page(ms)));
        assert(ms.areas@[n].owns(self.stack_page(ms, 0)));
        assert(ms.areas@[n].owns(self.stack_page(ms, 1)));
        assert(ms.owns_data(self.trap_page(ms)));
        assert(ms.owns_data(self.stack_page(ms, 0)));
        assert(ms.owns_data(self.stack_page(ms, 1)));
        lemma_data_not_table(ms, p0, self.trap_page(ms));
        lemma_data_not_table(ms, p0, self.stack_page(ms, 0));
        lemma_data_not_table(ms, p0, self.stack_page(ms, 1));
        assert forall|p: u64| ms.page_table.tables().owns(p) implies #[trigger] p1.mem()[p] == p0.mem()[p] by {
            assert(ms.owns(p));
        }
        lemma_space_tables_kept(ms, p0, p1);
        assert forall|a: int, k: int|
            0 <= a < ms.areas@.len() - 2 && 0 <= k < ms.areas@[a].data_frame@.len() implies p1.mem()[(
        #[trigger] ms.areas@[a].data_frame@[k]).1.ppn.0] == self.content(data, a, k) by {
            let q = ms.areas@[a].data_frame@[k].1.ppn.0;
            assert(ms.areas@[a].owns(q));
            assert(ms.owns_data(q));
            if q == self.trap_page(ms) {
                assert(ms.areas@[a].owns(q) && ms.areas@[n + 1].owns(q));
            }
            if q == self.stack_page(ms, 0) || q == self.stack_page(ms, 1) {
                assert(ms.areas@[a].owns(q) && ms.areas@[n].owns(q));
            }
        }
    }
}


/// The page numbers of the tables `frames`, in their order.
pub open spec fn table_ppns(frames: Seq<crate::mm::frame_allocator::FrameTracker>) -> Seq<u64> {
    Seq::new(frames.len(), |i: int| frames[i].ppn.0)
}

impl MemorySet {
    /// Gives every page of the address space back to the pool: the pages
    /// of its areas, then its tables.
    #[verifier::spinoff_prover]
    pub fn release(self, pool: &mut FramePool)
        requires
            self.wf(old(pool)),
        ensures
            final(pool).wf(),
            final(pool).memory == old(pool).memory,
            final(pool).allocator@.free_count() == old(pool).allocator@.free_count() + data_pages(self.areas@)
                + self.page_table.frames@.len(),
            forall|p: u64| old(pool).is_allocated(p) && !self.owns(p) ==> #[trigger] final(pool).is_allocated(p),
            forall|p: u64| self.owns(p) ==> !(#[trigger] final(pool).is_allocated(p)),
            forall|p: u64| #[trigger] final(pool).is_allocated(p) ==> old(pool).is_allocated(p),
    {
        let mut ms = self;
        let ghost pool0 = *pool;
        let ghost t = ms.page_table.tables();
        ms.recycle_data_pages(pool);
        let ghost pool1 = *pool;
        let n = ms.page_table.frames.len();
        let mut i: usize = 0;
        proof {
            assert(table_ppns(ms.page_table.frames@).subrange(0, 0) =~= Seq::<u64>::empty());
            assert(pool1.allocator@.recycled + Seq::<u64>::empty() =~= pool1.allocator@.recycled);
        }
        while i < n
            invariant
                i <= n == ms.page_table.frames@.len(),
                ms.page_table == self.page_table,
                t == self.page_table.tables(),
                t.wf(pool0.mem()),
                pool.wf(),
                pool.memory == pool1.memory,
                pool.allocator@ == after_dealloc_all(
                    pool1.allocator@,
                    table_ppns(ms.page_table.frames@).subrange(0, i as int),
                ),
                forall|k: int| i <= k < n ==> pool.is_allocated(#[trigger] t.frames[k]),
            decreases n - i,
        {
            let ppn = ms.page_table.frames[i].ppn;
            let ghost a1 = pool.allocator@;
            proof {
                assert(t.frames[i as int] == ppn.0);
            }
            frame_dealloc(pool, ppn);
            proof {
                let all = table_ppns(ms.page_table.frames@);
                assert(all.subrange(0, i + 1) =~= all.subrange(0, i as int).push(ppn.0));
                assert(a1.recycled.push(ppn.0) =~= pool1.allocator@.recycled + all.subrange(0, i + 1));
                assert forall|k: int| i + 1 <= k < n implies pool.is_allocated(#[trigger] t.frames[k]) by {
                    assert(t.frames[k] != t.frames[i as int]);
                    lemma_dealloc_others(a1, ppn.0, t.frames[k]);
                }
            }
            i += 1;
        }
        proof {
            let all = table_ppns(ms.page_table.frames@);
            assert(all.subrange(0, n as int) =~= all);
            lemma_release_effect(pool1.allocator@, all);
            assert forall|p: u64| pool0.is_allocated(p) && !self.owns(p) implies #[trigger] pool.is_allocated(p) by {
                assert(pool1.is_allocated(p));
                lemma_kept_after_release(pool1.allocator@, all, p);
                assert(!all.contains(p)) by {
                    if all.contains(p) {
                        let k = choose|k: int| 0 <= k < all.len() && all[k] == p;
                        assert(t.frames[k] == p);
                        assert(t.frames.contains(p));
                    }
                }
            }
            assert forall|p: u64| self.owns(p) implies !(#[trigger] pool.is_allocated(p)) by {
                if self.owns_data(p) {
                    assert(!pool1.is_allocated(p));
                } else {
                    let k = choose|k: int| 0 <= k < t.frames.len() && t.frames[k] == p;
                    assert(all[k] == p);
                }
            }
            assert forall|p: u64| #[trigger] pool.is_allocated(p) implies pool0.is_allocated(p) by {
                assert(pool1.is_allocated(p));
            }
        }
    }
}

/// A page in use that is not among the pages that came back is still in use.
pub proof fn lemma_kept_after_release(a: crate::mm::frame_allocator::AllocView, ppns: Seq<u64>, p: u64)
    requires
        a.is_allocated(p),
    ensures
        !ppns.contains(p) ==> after_dealloc_all(a, ppns).is_allocated(p),
{
    let b = after_dealloc_all(a, ppns);
    if !ppns.contains(p) && b.recycled.contains(p) {
        let i = choose|i: int| 0 <= i < b.recycled.len() && b.recycled[i] == p;
        if i < a.recycled.len() {
            assert(a.recycled[i] == p);
        } else {
            assert(ppns[i - a.recycled.len()] == p);
        }
    }
}


impl MemorySet {
    /// Whether the address space is one of a user task: every area is
    /// framed, the trampoline is mapped to the page at `strampoline`, and
    /// the last area is the page of the trap context, which is page `trap_ppn`.
    #[verifier::opaque]
    pub open spec fn is_task_space(&self, pool: &FramePool, strampoline: u64, trap_ppn: u64) -> bool {
        &&& self.is_user_space(pool, strampoline)
        &&& self.areas@.len() >= 1
        &&& self.areas@.last().start() == trap_context_vpn()
        &&& self.areas@.last().end() == trap_context_vpn() + 1
        &&& self.areas@.last().data_frame@.len() == 1
        &&& self.areas@.last().data_frame@[0].1.ppn.0 == trap_ppn
    }

    /// Whether the address space `child` is a copy of this one: it has the
    /// same areas, and each of its pages, but for page `child_trap`, holds
    /// what the page of this address space held in the pool `pool0`.
    #[verifier::opaque]
    pub open spec fn is_copied_to(&self, child: &MemorySet, pool: &FramePool, pool0: &FramePool, child_trap: u64) -> bool {
        &&& child.areas@.len() == self.areas@.len()
        &&& forall|a: int|
            0 <= a < self.areas@.len() ==> {
                &&& (#[trigger] child.areas@[a]).vpn_range.l == self.areas@[a].vpn_range.l
                &&& child.areas@[a].vpn_range.r == self.areas@[a].vpn_range.r
                &&& child.areas@[a].map_perm == self.areas@[a].map_perm
                &&& child.areas@[a].map_type == self.areas@[a].map_type
                &&& child.areas@[a].data_frame@.len() == self.areas@[a].data_frame@.len()
            }
        &&& forall|a: int, k: int|
            0 <= a < self.areas@.len() && 0 <= k < child.areas@[a].data_frame@.len() && (
            #[trigger] child.areas@[a].data_frame@[k]).1.ppn.0 != child_trap ==> pool.mem()[child.areas@[a].data_frame@[k].1.ppn.0]
                == pool0.mem()[self.areas@[a].data_frame@[k].1.ppn.0]
    }

    /// What follows from an address space being one of a user task.
    pub proof fn lemma_task_space_facts(&self, pool: &FramePool, strampoline: u64, trap_ppn: u64)
        requires
            self.is_task_space(pool, strampoline, trap_ppn),
        ensures
            self.is_user_space(pool, strampoline),
            self.wf(pool),
            self.page_table.lookup(pool, trap_context_vpn()).is_some(),
            pte_ppn(self.page_table.lookup(pool, trap_context_vpn()).unwrap()) == trap_ppn,
            pool.memory.has(trap_ppn),
            self.owns_data(trap_ppn),
            self.owns(trap_ppn),
    {
        reveal(MemorySet::is_task_space);
        let n = self.areas@.len() as int;
        let area = self.areas@[n - 1];
        assert(area == self.areas@.last());
        assert(area.mapped_whole(&self.page_table, pool));
        assert(self.page_table.lookup(pool, trap_context_vpn()) == Some(area.entry_for(area.target(trap_context_vpn()))));
        assert(pool.memory.has(area.data_frame@[0].1.ppn.0));
        lemma_pte_bits(trap_ppn, area.map_perm.bits | PTE_V);
        assert(area.owns(trap_ppn));
    }

    /// The address space of a user task stays one where the pool changes
    /// around it: the pages in use stay in use, and its tables hold what
    /// they held.
    pub proof fn lemma_task_space_kept(&self, p0: &FramePool, p1: &FramePool, strampoline: u64, trap_ppn: u64)
        requires
            self.is_task_space(p0, strampoline, trap_ppn),
            p1.wf(),
            p1.memory.base() == p0.memory.base(),
            p1.memory.count() == p0.memory.count(),
            forall|p: u64| p0.is_allocated(p) ==> p1.is_allocated(p),
            forall|p: u64| self.page_table.tables().owns(p) ==> #[trigger] p1.mem()[p] == p0.mem()[p],
        ensures
            self.is_task_space(p1, strampoline, trap_ppn),
    {
        reveal(MemorySet::is_task_space);
        lemma_space_tables_kept(self, p0, p1);
    }

    /// The address space of a user task stays one where the pool changes
    /// around it, as long as its own pages stay in use and its tables hold
    /// what they held.
    pub proof fn lemma_task_space_survives(&self, p0: &FramePool, p1: &FramePool, strampoline: u64, trap_ppn: u64)
        requires
            self.is_task_space(p0, strampoline, trap_ppn),
            p1.wf(),
            p1.memory.base() == p0.memory.base(),
            p1.memory.count() == p0.memory.count(),
            forall|p: u64| self.owns(p) ==> p1.is_allocated(p),
            forall|p: u64| self.page_table.tables().owns(p) ==> #[trigger] p1.mem()[p] == p0.mem()[p],
        ensures
            self.is_task_space(p1, strampoline, trap_ppn),
    {
        reveal(MemorySet::is_task_space);
        lemma_space_survives(self, p0, p1);
    }

    /// A copy stays a copy where the pool changes around it, as long as
    /// the pages of the copy hold what they held, but for page `child_trap`.
    pub proof fn lemma_copy_kept(&self, child: &MemorySet, p1: &FramePool, p2: &FramePool, pool0: &FramePool, child_trap: u64)
        requires
            self.is_copied_to(child, p1, pool0, child_trap),
            forall|p: u64| child.owns_data(p) && p != child_trap ==> #[trigger] p2.mem()[p] == p1.mem()[p],
        ensures
            self.is_copied_to(child, p2, pool0, child_trap),
    {
        reveal(MemorySet::is_copied_to);
        assert forall|a: int, k: int|
            0 <= a < self.areas@.len() && 0 <= k < child.areas@[a].data_frame@.len() && (
            #[trigger] child.areas@[a].data_frame@[k]).1.ppn.0 != child_trap implies p2.mem()[child.areas@[a].data_frame@[k].1.ppn.0]
            == pool0.mem()[self.areas@[a].data_frame@[k].1.ppn.0] by {
            let q = child.areas@[a].data_frame@[k].1.ppn.0;
            assert(child.areas@[a].owns(q));
            assert(child.owns_data(q));
        }
    }

    /// What a copy made by `from_existed_user` is.
    pub proof fn lemma_copied(
        &self,
        child: &MemorySet,
        pool: &FramePool,
        pool0: &FramePool,
        strampoline: u64,
        trap_ppn: u64,
    )
        requires
            self.copied_to(child, pool, pool0, strampoline, self.areas@.len() as int),
            self.is_task_space(pool0, strampoline, trap_ppn),
        ensures
            child.is_task_space(pool, strampoline, child.areas@.last().data_frame@[0].1.ppn.0),
            self.is_task_space(pool, strampoline, trap_ppn),
            self.is_copied_to(child, pool, pool0, child.areas@.last().data_frame@[0].1.ppn.0),
            pool.mem()[child.areas@.last().data_frame@[0].1.ppn.0] == pool0.mem()[trap_ppn],
    {
        reveal(MemorySet::is_task_space);
        reveal(MemorySet::is_copied_to);
        let n = self.areas@.len() as int;
        assert forall|p: u64| self.owns(p) implies #[trigger] pool.mem()[p] == pool0.mem()[p] by {
            lemma_owned_allocated(self, pool0, p);
        }
        lemma_space_kept(self, pool0, pool);
        assert(child.areas@.last() == child.areas@[n - 1]);
        assert(self.areas@.last() == self.areas@[n - 1]);
        assert forall|a: int| 0 <= a < n implies (#[trigger] child.areas@[a]).data_frame@.len() == self.areas@[a].data_frame@.len() && child.areas@[a].map_type == MapType::Framed by {
            assert(child.areas@[a].mapped_whole(&child.page_table, pool));
            assert(self.areas@[a].mapped_whole(&self.page_table, pool));
        }
        assert(child.areas@[n - 1].start() == self.areas@[n - 1].start());
    }
}


impl ElfImage {
    /// The address space of a program is one of a user task.
    pub proof fn lemma_image_task_space(&self, ms: &MemorySet, pool: &FramePool, data: Seq<u8>, strampoline: u64)
        requires
            self.image_of(ms, pool, data, strampoline),
            strampoline % 4096 == 0,
            strampoline / 4096 < 0x1000_0000_0000,
            !pool.memory.has((strampoline / 4096) as u64),
        ensures
            ms.is_task_space(pool, strampoline, self.trap_page(ms)),
    {
        reveal(ElfImage::image_of);
        reveal(MemorySet::is_task_space);
        let n = self.segments().len() as int;
        assert(ms.areas@.last() == ms.areas@[n + 1]);
    }
}


/// An address space stays in order where the pool changes around it, as
/// long as its own pages stay in use and its tables hold what they held.
pub proof fn lemma_space_survives(ms: &MemorySet, p0: &FramePool, p1: &FramePool)
    requires
        ms.wf(p0),
        p1.wf(),
        p1.memory.base() == p0.memory.base(),
        p1.memory.count() == p0.memory.count(),
        forall|p: u64| ms.owns(p) ==> p1.is_allocated(p),
        forall|p: u64| ms.page_table.tables().owns(p) ==> #[trigger] p1.mem()[p] == p0.mem()[p],
    ensures
        ms.wf(p1),
        forall|v: u64| #[trigger] ms.page_table.lookup(p1, v) == ms.page_table.lookup(p0, v),
{
    let t = ms.page_table.tables();
    p0.memory.lemma_view();
    p1.memory.lemma_view();
    assert forall|i: int| 0 <= i < t.frames.len() implies p1.mem()[#[trigger] t.frames[i]] == p0.mem()[t.frames[i]] by {
        assert(t.frames.contains(t.frames[i]));
    }
    lemma_tables_untouched(t, p0.mem(), p1.mem());
    assert forall|i: int| 0 <= i < t.frames.len() implies p1.is_allocated(#[trigger] t.frames[i]) by {
        assert(t.frames.contains(t.frames[i]));
        assert(ms.owns(t.frames[i]));
    }
    assert forall|a: int| 0 <= a < ms.areas@.len() implies (#[trigger] ms.areas@[a]).mapped_whole(
        &ms.page_table,
        p1,
    ) by {
        let area = ms.areas@[a];
        assert(area.mapped_whole(&ms.page_table, p0));
        assert forall|i: int| 0 <= i < area.data_frame@.len() implies {
            let ppn = (#[trigger] area.data_frame@[i]).1.ppn.0;
            &&& p1.is_allocated(ppn)
            &&& p1.memory.has(ppn)
            &&& !ms.page_table.tables().owns(ppn)
            &&& ms.page_table.lookup(p1, area.data_frame@[i].0.0) == Some(area.entry_for(ppn))
        } by {
            let ppn = area.data_frame@[i].1.ppn.0;
            assert(area.owns(ppn));
            assert(ms.owns_data(ppn));
            assert(ms.page_table.lookup(p0, area.data_frame@[i].0.0) == Some(area.entry_for(ppn)));
        }
        assert forall|v: u64| area.start() <= v < area.end() implies #[trigger] ms.page_table.lookup(p1, v) == Some(
            area.entry_for(area.target(v)),
        ) by {
            assert(ms.page_table.lookup(p0, v) == Some(area.entry_for(area.target(v))));
        }
    }
}

impl ElfImage {
    /// A program stays in its address space where the pool changes around
    /// it, as long as the pages of the address space stay in use and hold
    /// what they held, but for the pages of the user stack and of the trap context.
    pub proof fn lemma_image_survives(
        &self,
        ms: &MemorySet,
        p0: &FramePool,
        p1: &FramePool,
        data: Seq<u8>,
        strampoline: u64,
    )
        requires
            self.image_of(ms, p0, data, strampoline),
            p1.wf(),
            p1.memory.base() == p0.memory.base(),
            p1.memory.count() == p0.memory.count(),
            forall|p: u64| ms.owns(p) ==> p1.is_allocated(p),
            forall|p: u64|
                ms.owns(p) && p != self.trap_page(ms) && p != self.stack_page(ms, 0) && p != self.stack_page(ms, 1)
                    ==> #[trigger] p1.mem()[p] == p0.mem()[p],
        ensures
            self.image_of(ms, p1, data, strampoline),
    {
        reveal(ElfImage::image_of);
        let n = self.segments().len() as int;
        assert(ms.areas@[n + 1].owns(self.trap_page(ms)));
        assert(ms.areas@[n].owns(self.stack_page(ms, 0)));
        assert(ms.areas@[n].owns(self.stack_page(ms, 1)));
        assert(ms.owns_data(self.trap_page(ms)));
        assert(ms.owns_data(self.stack_page(ms, 0)));
        assert(ms.owns_data(self.stack_page(ms, 1)));
        lemma_data_not_table(ms, p0, self.trap_page(ms));
        lemma_data_not_table(ms, p0, self.stack_page(ms, 0));
        lemma_data_not_table(ms, p0, self.stack_page(ms, 1));
        assert forall|p: u64| ms.page_table.tables().owns(p) implies #[trigger] p1.mem()[p] == p0.mem()[p] by {
            assert(ms.owns(p));
        }
        lemma_space_survives(ms, p0, p1);
        assert forall|a: int, k: int|
            0 <= a < ms.areas@.len() - 2 && 0 <= k < ms.areas@[a].data_frame@.len() implies p1.mem()[(
        #[trigger] ms.areas@[a].data_frame@[k]).1.ppn.0] == self.content(data, a, k) by {
            let q = ms.areas@[a].data_frame@[k].1.ppn.0;
            assert(ms.areas@[a].owns(q));
            assert(ms.owns_data(q));
            if q == self.trap_page(ms) {
                assert(ms.areas@[a].owns(q) && ms.areas@[n + 1].owns(q));
            }
            if q == self.stack_page(ms, 0) || q == self.stack_page(ms, 1) {
                assert(ms.areas@[a].owns(q) && ms.areas@[n].owns(q));
            }
        }
    }
}


impl ElfImage {
    /// The user stack of a program that can be loaded ends at a page, far
    /// enough from the beginning of the address space for the stack to lie below it.
    pub proof fn lemma_stack_top(&self, data_len: int)
        requires
            self.loadable(data_len),
        ensures
            self.stack_top() % 4096 == 0,
            self.stack_top() >= 12288,
            self.stack_top() == self.last_end() * 4096 + 12288,
    {
        self.lemma_loads_loadable(self.program_headers@.len() as int, data_len);
        if self.segments().len() > 0 {
            assert(self.segments().last().loadable(data_len));
        }
    }
}

} // verus!
