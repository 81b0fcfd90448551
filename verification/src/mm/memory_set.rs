use vstd::prelude::*;
use crate::codec::splice;
use crate::config::{MEMORY_END, TRAMPOLINE, TRAP_CONTEXT, USER_STACK_SIZE};
use crate::mm::address::{
    key_of, lemma_key_indexes, PhysPageNum, SimpleRange, StepByOne, VPNRange, VirtAddr, VirtPageNum,
};
use crate::mm::frame_allocator::{frame_alloc, frame_dealloc, lemma_alloc_fresh, FramePool, FrameTracker};
use crate::mm::page_table::{
    is_valid, lemma_tables_untouched, missing_tables, pte_bits, pte_flags, pte_ppn, walk, PTEFlags,
    PageTable, PageTableEntry, PTE_V,
};
use crate::mm::phys_mem::zero_page;
use crate::mm::Memory;

verus! {

/// The page can be read.
pub const MAP_R: u8 = 0x02;

/// The page can be written.
pub const MAP_W: u8 = 0x04;

/// The page can be executed.
pub const MAP_X: u8 = 0x08;

/// The page can be used in user mode.
pub const MAP_U: u8 = 0x10;

/// The rights on the pages of an area: a set of R, W, X and U.
#[derive(Copy, Clone, Debug, PartialEq, Eq, Structural)]
pub struct MapPermission {
    pub bits: u8,
}

impl MapPermission {
    /// The set of the rights whose bits are set in `bits`.
    pub fn from_bits(bits: u8) -> (r: Self)
        ensures
            r.bits == bits,
    {
        Self { bits }
    }

    /// The rights of either set.
    pub fn union(self, other: Self) -> (r: Self)
        ensures
            r.bits == self.bits | other.bits,
    {
        Self { bits: self.bits | other.bits }
    }

    /// Whether every right of `other` is in this set.
    pub fn contains(self, other: Self) -> (r: bool)
        ensures
            r == (self.bits & other.bits == other.bits),
    {
        self.bits & other.bits == other.bits
    }
}

/// How the pages of an area are mapped.
#[derive(Copy, Clone, Debug, PartialEq, Eq, Structural)]
pub enum MapType {
    /// Each page is mapped to the physical page of the same number.
    Identical,
    /// Each page is mapped to a page of its own, taken from the pool.
    Framed,
}

/// A run of virtual pages that are mapped in the same way and with the same
/// rights. A framed area owns the pages that its virtual pages are mapped to.
pub struct MapArea {
    pub vpn_range: VPNRange,
    pub data_frame: Vec<(VirtPageNum, FrameTracker)>,
    pub map_type: MapType,
    pub map_perm: MapPermission,
}

impl MapArea {
    /// The first page of the area.
    pub open spec fn start(&self) -> u64 {
        self.vpn_range.l.0
    }

    /// The page at which the area ends.
    pub open spec fn end(&self) -> u64 {
        self.vpn_range.r.0
    }

    /// Whether the area owns a page for the virtual page `vpn`.
    pub open spec fn has_frame(&self, vpn: u64) -> bool {
        exists|i: int| 0 <= i < self.data_frame@.len() && (#[trigger] self.data_frame@[i]).0.0 == vpn
    }

    /// Whether the area owns the physical page `ppn`.
    pub open spec fn owns(&self, ppn: u64) -> bool {
        exists|i: int| 0 <= i < self.data_frame@.len() && (#[trigger] self.data_frame@[i]).1.ppn.0 == ppn
    }

    /// The entry that maps a page of the area to the physical page `ppn`.
    pub open spec fn entry_for(&self, ppn: u64) -> u64 {
        pte_bits(ppn, self.map_perm.bits | PTE_V)
    }

    /// The area is a run of at most 2^27 pages; the pages it owns are for
    /// virtual pages of the run, one for each at most; an area that maps
    /// each page to the page of the same number owns none.
    pub open spec fn wf(&self) -> bool {
        &&& self.start() <= self.end()
        &&& self.end() - self.start() <= 0x800_0000
        &&& forall|i: int|
            0 <= i < self.data_frame@.len() ==> self.start() <= (#[trigger] self.data_frame@[i]).0.0
                < self.end()
        &&& forall|i: int, j: int|
            0 <= i < self.data_frame@.len() && 0 <= j < self.data_frame@.len() && (
            #[trigger] self.data_frame@[i]).0.0 == (#[trigger] self.data_frame@[j]).0.0 ==> i == j
        &&& forall|i: int, j: int|
            0 <= i < self.data_frame@.len() && 0 <= j < self.data_frame@.len() && (
            #[trigger] self.data_frame@[i]).1.ppn == (#[trigger] self.data_frame@[j]).1.ppn ==> i == j
        &&& self.map_type == MapType::Identical ==> self.data_frame@.len() == 0 && self.end()
            <= 0x1000_0000_0000
    }

    /// Each page that the area owns is in use, is no table of `page_table`,
    /// and is what `page_table` maps its virtual page to.
    pub open spec fn mapped_in(&self, page_table: &PageTable, pool: &FramePool) -> bool {
        forall|i: int|
            0 <= i < self.data_frame@.len() ==> {
                let ppn = (#[trigger] self.data_frame@[i]).1.ppn.0;
                &&& pool.is_allocated(ppn)
                &&& pool.memory.has(ppn)
                &&& !page_table.tables().owns(ppn)
                &&& page_table.lookup(pool, self.data_frame@[i].0.0) == Some(self.entry_for(ppn))
            }
    }

    /// The area of the pages that hold the addresses from `start_va` up to `end_va`.
    pub fn new(start_va: VirtAddr, end_va: VirtAddr, map_type: MapType, map_perm: MapPermission) -> (r: Self)
        ensures
            r.start() == start_va.0 / 4096,
            r.end() == (end_va.0 + 4095) / 4096,
            r.data_frame@.len() == 0,
            r.map_type == map_type,
            r.map_perm == map_perm,
    {
        let start_vpn = start_va.floor();
        let end_vpn = end_va.ceil();
        Self { vpn_range: SimpleRange::new(start_vpn, end_vpn), data_frame: Vec::new(), map_type, map_perm }
    }

    /// Maps the virtual page `vpn` in `page_table`: to the page of the same
    /// number, or to a fresh page of zero bytes that the area then owns.
    pub fn map_one(&mut self, page_table: &mut PageTable, vpn: VirtPageNum, pool: &mut FramePool)
        requires
            old(page_table).wf(old(pool)),
            old(page_table).lookup(old(pool), vpn.0).is_none(),
            old(self).map_type == MapType::Identical ==> vpn.0 < 0x1000_0000_0000,
            old(pool).allocator@.free_count() >= missing_tables(
                old(pool).mem(),
                old(page_table).root_ppn.0,
                vpn.0,
            ) + if old(self).map_type == MapType::Framed {
                1int
            } else {
                0int
            },
        ensures
            final(page_table).wf(final(pool)),
            final(page_table).root_ppn == old(page_table).root_ppn,
            final(self).vpn_range == old(self).vpn_range,
            final(self).map_type == old(self).map_type,
            final(self).map_perm == old(self).map_perm,
            old(self).map_type == MapType::Identical ==> final(self).data_frame@ == old(self).data_frame@
                && final(page_table).lookup(final(pool), vpn.0) == Some(old(self).entry_for(vpn.0)),
            old(self).map_type == MapType::Framed ==> {
                let f = old(pool).allocator@.next();
                &&& final(self).data_frame@.len() == old(self).data_frame@.len() + 1
                &&& final(self).data_frame@.drop_last() == old(self).data_frame@
                &&& final(self).data_frame@.last().0 == vpn
                &&& final(self).data_frame@.last().1.ppn.0 == f
                &&& final(page_table).lookup(final(pool), vpn.0) == Some(old(self).entry_for(f))
                &&& final(pool).mem()[f] == zero_page()
                &&& !old(pool).is_allocated(f)
                &&& final(pool).is_allocated(f)
                &&& final(pool).memory.has(f)
                &&& !final(page_table).tables().owns(f)
            },
            forall|v: u64|
                key_of(v) != key_of(vpn.0) ==> #[trigger] final(page_table).lookup(final(pool), v) == old(
                    page_table,
                ).lookup(old(pool), v),
            final(pool).allocator@.free_count() == old(pool).allocator@.free_count() - missing_tables(
                old(pool).mem(),
                old(page_table).root_ppn.0,
                vpn.0,
            ) - if old(self).map_type == MapType::Framed {
                1int
            } else {
                0int
            },
            final(pool).memory.base() == old(pool).memory.base(),
            final(pool).memory.count() == old(pool).memory.count(),
            old(page_table).tables().frames.is_prefix_of(final(page_table).tables().frames),
            forall|p: u64|
                old(pool).is_allocated(p) && !old(page_table).tables().owns(p)
                    ==> #[trigger] final(pool).mem()[p] == old(pool).mem()[p],
            forall|p: u64|
                final(page_table).tables().owns(p) && !old(page_table).tables().owns(p)
                    ==> !old(pool).is_allocated(p),
            forall|p: u64| old(pool).is_allocated(p) ==> final(pool).is_allocated(p),
    {
        let ppn: PhysPageNum;
        let ghost t0 = page_table.tables();
        let ghost mem0 = pool.mem();
        match self.map_type {
            MapType::Identical => {
                ppn = PhysPageNum(vpn.0);
            },
            MapType::Framed => {
                proof {
                    lemma_alloc_fresh(pool.allocator@);
                    pool.memory.lemma_view();
                }
                let frame = frame_alloc(pool).unwrap();
                ppn = frame.ppn;
                proof {
                    pool.memory.lemma_view();
                    assert(!t0.owns(ppn.0)) by {
                        if t0.frames.contains(ppn.0) {
                            let k = choose|k: int| 0 <= k < t0.frames.len() && t0.frames[k] == ppn.0;
                            assert(old(pool).is_allocated(t0.frames[k]));
                        }
                    }
                    assert forall|i: int| 0 <= i < t0.frames.len() implies pool.mem()[#[trigger] t0.frames[i]]
                        == mem0[t0.frames[i]] by {
                        assert(t0.frames.contains(t0.frames[i]));
                    }
                    lemma_tables_untouched(t0, mem0, pool.mem());
                    assert forall|i: int| 0 <= i < t0.frames.len() implies pool.is_allocated(
                        #[trigger] t0.frames[i],
                    ) by {
                        assert(old(pool).is_allocated(t0.frames[i]));
                        assert(t0.frames.contains(t0.frames[i]));
                    }
                }
                self.data_frame.push((vpn, frame));
            },
        }
        let pte_flags = PTEFlags::from_bits(self.map_perm.bits);
        let ghost pool1 = *pool;
        page_table.map(vpn, ppn, pte_flags, pool);
        proof {
            if self.map_type == MapType::Framed {
                assert(pool1.is_allocated(ppn.0));
                assert(!page_table.tables().owns(ppn.0));
                assert(self.data_frame@.drop_last() =~= old(self).data_frame@);
            }
            assert forall|p: u64| old(pool).is_allocated(p) implies pool1.is_allocated(p) by {
                if self.map_type == MapType::Framed {
                    assert(p != ppn.0);
                }
            }
            assert forall|p: u64| page_table.tables().owns(p) && !t0.owns(p) implies !old(
                pool,
            ).is_allocated(p) by {
                assert(!pool1.is_allocated(p));
            }
            assert forall|p: u64| old(pool).is_allocated(p) && !t0.owns(p) implies #[trigger] pool.mem()[p]
                == mem0[p] by {
                assert(pool1.is_allocated(p));
                if page_table.tables().owns(p) {
                    assert(!pool1.is_allocated(p));
                }
                assert(pool.mem()[p] == pool1.mem()[p]);
                if self.map_type == MapType::Framed {
                    assert(p != ppn.0);
                }
            }
        }
    }
}


/// Two pages less than 2^27 apart are told apart by a page table.
pub proof fn lemma_keys_apart(w: u64, v: u64)
    requires
        w < v,
        v - w < 0x800_0000,
    ensures
        key_of(w) != key_of(v),
{
    assert(w < v && v - w < 0x800_0000 ==> (w & 0x7ff_ffff) != (v & 0x7ff_ffff)) by (bit_vector);
}

/// Number of groups of `d` pages that the pages from `start` up to `end` touch.
pub open spec fn groups(start: int, end: int, d: int) -> int {
    if end <= start {
        0
    } else {
        (end - 1) / d - start / d + 1
    }
}

/// Number of pages that mapping the pages from `start` up to `end` takes
/// from the pool at most: one for each page if the area is framed, and a
/// table for each group of 512 pages and of 512 times 512 pages touched.
#[verifier::opaque]
pub open spec fn map_cost(start: int, end: int, framed: bool) -> int {
    (if framed && end > start {
        end - start
    } else {
        0
    }) + groups(start, end, 512) + groups(start, end, 262144)
}

/// Mapping one page more costs what that page takes, and never more than
/// mapping the whole run.
pub proof fn lemma_cost_step(start: int, cur: int, end: int, framed: bool, missing: int)
    requires
        0 <= start <= cur < end,
        0 <= missing <= 2,
        cur > start && (cur - 1) / 512 == cur / 512 ==> missing == 0,
        cur > start && (cur - 1) / 262144 == cur / 262144 ==> missing <= 1,
    ensures
        map_cost(start, cur + 1, framed) >= map_cost(start, cur, framed) + missing + if framed {
            1int
        } else {
            0int
        },
        map_cost(start, cur + 1, framed) <= map_cost(start, end, framed),
        map_cost(start, start, framed) == 0,
{
    reveal(map_cost);
}

/// Mapping costs nothing less than nothing.
pub proof fn lemma_map_cost_nonneg(start: int, end: int, framed: bool)
    requires
        0 <= start,
    ensures
        map_cost(start, end, framed) >= 0,
{
    reveal(map_cost);
}

/// Once a page is mapped, a page of the same group needs no table, and a
/// page of the same larger group needs one at most.
pub proof fn lemma_next_page_tables(mem: Memory, root: u64, u: u64, v: u64)
    requires
        walk(mem, root, u).is_some(),
    ensures
        u / 512 == v / 512 ==> missing_tables(mem, root, v) == 0,
        u / 262144 == v / 262144 ==> missing_tables(mem, root, v) <= 1,
        missing_tables(mem, root, v) <= 2,
{
    assert(u / 512 == v / 512 ==> ((u >> 9) & 511) == ((v >> 9) & 511) && ((u >> 18) & 511) == ((v >> 18)
        & 511)) by (bit_vector);
    assert(u / 262144 == v / 262144 ==> ((u >> 18) & 511) == ((v >> 18) & 511)) by (bit_vector);
}

/// Whether a page table tells page number `v` apart from every page from `start` up to `end`.
pub open spec fn apart_from(v: u64, start: u64, end: u64) -> bool {
    forall|w: u64| start <= w < end ==> key_of(v) != #[trigger] key_of(w)
}

impl MapArea {
    /// The physical page that page `v` of the area is mapped to, once the
    /// area is mapped: the page of the same number, or the page that the
    /// area owns for it.
    pub open spec fn target(&self, v: u64) -> u64 {
        if self.map_type == MapType::Identical {
            v
        } else {
            self.data_frame@[v - self.start()].1.ppn.0
        }
    }

    /// The area is mapped as a whole: it owns a page for each of its pages,
    /// in their order, if it is framed, and `page_table` maps each page of
    /// the area to its target with the rights of the area.
    pub open spec fn mapped_whole(&self, page_table: &PageTable, pool: &FramePool) -> bool {
        &&& self.wf()
        &&& self.mapped_in(page_table, pool)
        &&& self.map_type == MapType::Framed ==> self.data_frame@.len() == self.end() - self.start()
        &&& forall|i: int|
            0 <= i < self.data_frame@.len() ==> (#[trigger] self.data_frame@[i]).0.0 == self.start() + i
        &&& forall|v: u64|
            self.start() <= v < self.end() ==> #[trigger] page_table.lookup(pool, v) == Some(
                self.entry_for(self.target(v)),
            )
    }

    /// Maps every page of the area in `page_table`, in their order.
    #[verifier::spinoff_prover]
    #[verifier::rlimit(100)]
    pub fn map(&mut self, page_table: &mut PageTable, pool: &mut FramePool)
        requires
            old(self).wf(),
            old(self).data_frame@.len() == 0,
            old(page_table).wf(old(pool)),
            forall|v: u64|
                old(self).start() <= v < old(self).end() ==> (#[trigger] old(page_table).lookup(
                    old(pool),
                    v,
                )).is_none(),
            old(self).map_type == MapType::Identical ==> old(self).end() <= 0x1000_0000_0000,
            old(pool).allocator@.free_count() >= map_cost(
                old(self).start() as int,
                old(self).end() as int,
                old(self).map_type == MapType::Framed,
            ),
        ensures
            final(page_table).wf(final(pool)),
            final(page_table).root_ppn == old(page_table).root_ppn,
            final(self).vpn_range == old(self).vpn_range,
            final(self).map_type == old(self).map_type,
            final(self).map_perm == old(self).map_perm,
            final(self).mapped_whole(final(page_table), final(pool)),
            forall|i: int|
                0 <= i < final(self).data_frame@.len() ==> {
                    &&& final(pool).mem()[(#[trigger] final(self).data_frame@[i]).1.ppn.0] == zero_page()
                    &&& !old(pool).is_allocated(final(self).data_frame@[i].1.ppn.0)
                },
            forall|i: int, j: int|
                0 <= i < final(self).data_frame@.len() && 0 <= j < final(self).data_frame@.len() && (
                #[trigger] final(self).data_frame@[i]).1.ppn
                    == (#[trigger] final(self).data_frame@[j]).1.ppn ==> i == j,
            forall|v: u64|
                apart_from(v, old(self).start(), old(self).end())
                    ==> #[trigger] final(page_table).lookup(final(pool), v)
                    == old(page_table).lookup(old(pool), v),
            final(pool).allocator@.free_count() >= old(pool).allocator@.free_count() - map_cost(
                old(self).start() as int,
                old(self).end() as int,
                old(self).map_type == MapType::Framed,
            ),
            final(pool).memory.base() == old(pool).memory.base(),
            final(pool).memory.count() == old(pool).memory.count(),
            old(page_table).tables().frames.is_prefix_of(final(page_table).tables().frames),
            forall|p: u64|
                old(pool).is_allocated(p) && !old(page_table).tables().owns(p)
                    ==> #[trigger] final(pool).mem()[p] == old(pool).mem()[p],
            forall|p: u64|
                final(page_table).tables().owns(p) && !old(page_table).tables().owns(p)
                    ==> !old(pool).is_allocated(p),
            forall|p: u64| old(pool).is_allocated(p) ==> final(pool).is_allocated(p),
    {
        let ghost start = self.start();
        let ghost end = self.end();
        let ghost t0 = page_table.tables();
        let ghost mem0 = pool.mem();
        let ghost free0 = pool.allocator@.free_count();
        let stop = self.vpn_range.get_end();
        let mut vpn = self.vpn_range.get_start();
        proof {
            reveal(map_cost);
        }
        while vpn.0 < stop.0
            invariant
                start <= vpn.0 <= end,
                stop.0 == end,
                self.vpn_range == old(self).vpn_range,
                self.map_type == old(self).map_type,
                self.map_perm == old(self).map_perm,
                start == self.start(),
                end == self.end(),
                end - start <= 0x800_0000,
                self.map_type == MapType::Identical ==> end <= 0x1000_0000_0000,
                page_table.wf(pool),
                page_table.root_ppn == old(page_table).root_ppn,
                t0 == old(page_table).tables(),
                mem0 == old(pool).mem(),
                free0 == old(pool).allocator@.free_count(),
                self.map_type == MapType::Identical ==> self.data_frame@.len() == 0,
                self.map_type == MapType::Framed ==> self.data_frame@.len() == vpn.0 - start,
                forall|i: int|
                    0 <= i < self.data_frame@.len() ==> (#[trigger] self.data_frame@[i]).0.0 == start + i,
                self.mapped_in(page_table, pool),
                forall|i: int|
                    0 <= i < self.data_frame@.len() ==> {
                        &&& pool.mem()[(#[trigger] self.data_frame@[i]).1.ppn.0] == zero_page()
                        &&& !old(pool).is_allocated(self.data_frame@[i].1.ppn.0)
                    },
                forall|i: int, j: int|
                    0 <= i < self.data_frame@.len() && 0 <= j < self.data_frame@.len() && (
                    #[trigger] self.data_frame@[i]).1.ppn == (#[trigger] self.data_frame@[j]).1.ppn ==> i == j,
                forall|v: u64|
                    start <= v < vpn.0 ==> #[trigger] page_table.lookup(pool, v) == Some(
                        self.entry_for(self.target(v)),
                    ),
                forall|v: u64|
                    vpn.0 <= v < end ==> (#[trigger] page_table.lookup(pool, v)).is_none(),
                forall|v: u64|
                    apart_from(v, start, end) ==> #[trigger] page_table.lookup(pool, v) == old(
                        page_table,
                    ).lookup(old(pool), v),
                pool.allocator@.free_count() >= free0 - map_cost(
                    start as int,
                    vpn.0 as int,
                    self.map_type == MapType::Framed,
                ),
                free0 >= map_cost(start as int, end as int, self.map_type == MapType::Framed),
                vpn.0 > start ==> page_table.lookup(pool, (vpn.0 - 1) as u64).is_some(),
                pool.memory.base() == old(pool).memory.base(),
                pool.memory.count() == old(pool).memory.count(),
                t0.frames.is_prefix_of(page_table.tables().frames),
                forall|p: u64| old(pool).is_allocated(p) && !t0.owns(p) ==> #[trigger] pool.mem()[p] == mem0[p],
                forall|p: u64| page_table.tables().owns(p) && !t0.owns(p) ==> !old(pool).is_allocated(p),
                forall|p: u64| old(pool).is_allocated(p) ==> pool.is_allocated(p),
            decreases end - vpn.0,
        {
            let ghost pool1 = *pool;
            let ghost pt1 = *page_table;
            let ghost frames1 = self.data_frame@;
            let ghost me1 = *self;
            proof {
                let cur = vpn.0 as int;
                if cur > start {
                    lemma_next_page_tables(pool.mem(), page_table.root_ppn.0, (cur - 1) as u64, vpn.0);
                }
                lemma_cost_step(
                    start as int,
                    cur,
                    end as int,
                    self.map_type == MapType::Framed,
                    missing_tables(pool.mem(), page_table.root_ppn.0, vpn.0),
                );
            }
            self.map_one(page_table, vpn, pool);
            proof {
                let cur = vpn.0;
                let t1 = pt1.tables();
                let t2 = page_table.tables();
                // the pages mapped before, and those still to map, are told apart from this one
                assert forall|v: u64| start <= v < end && v != cur implies key_of(v) != key_of(cur) by {
                    if v < cur {
                        lemma_keys_apart(v, cur);
                    } else {
                        lemma_keys_apart(cur, v);
                    }
                }
                assert forall|v: u64| apart_from(v, start, end) implies #[trigger] page_table.lookup(pool, v)
                    == old(page_table).lookup(old(pool), v) by {
                    assert(key_of(v) != key_of(cur));
                }
                assert(t0.frames.is_prefix_of(t2.frames));
                assert forall|p: u64| t2.owns(p) && !t0.owns(p) implies !old(pool).is_allocated(p) by {
                    if t1.owns(p) {
                    } else {
                        assert(!pool1.is_allocated(p));
                    }
                }
                assert forall|p: u64| old(pool).is_allocated(p) && !t0.owns(p) implies #[trigger] pool.mem()[p]
                    == mem0[p] by {
                    assert(pool1.is_allocated(p));
                    if t1.owns(p) {
                        assert(!old(pool).is_allocated(p));
                    }
                }
                // what the area owned before is as it was
                assert forall|i: int| 0 <= i < frames1.len() implies {
                    let q = (#[trigger] self.data_frame@[i]).1.ppn.0;
                    &&& self.data_frame@[i] == frames1[i]
                    &&& pool.is_allocated(q)
                    &&& pool.memory.has(q)
                    &&& !t2.owns(q)
                    &&& pool.mem()[q] == zero_page()
                    &&& page_table.lookup(pool, self.data_frame@[i].0.0) == Some(self.entry_for(q))
                } by {
                    assert(self.data_frame@.drop_last()[i] == frames1[i]);
                    let q = frames1[i].1.ppn.0;
                    assert(pool1.is_allocated(q));
                    assert(!t1.owns(q));
                    if t2.owns(q) {
                        assert(!pool1.is_allocated(q));
                    }
                    assert(pool.mem()[q] == pool1.mem()[q]);
                    assert(frames1[i].0.0 == start + i);
                    assert(key_of(frames1[i].0.0) != key_of(cur));
                    assert(me1.entry_for(q) == self.entry_for(q));
                }
                if self.map_type == MapType::Framed {
                    let n = frames1.len() as int;
                    let f = self.data_frame@[n].1.ppn.0;
                    assert(self.data_frame@.last() == self.data_frame@[n]);
                    assert(pool.mem()[f] == zero_page());
                    assert(!old(pool).is_allocated(f)) by {
                        if old(pool).is_allocated(f) {
                            assert(pool1.is_allocated(f));
                        }
                    }
                    assert forall|i: int, j: int|
                        0 <= i < self.data_frame@.len() && 0 <= j < self.data_frame@.len() && (
                        #[trigger] self.data_frame@[i]).1.ppn == (#[trigger] self.data_frame@[j]).1.ppn implies i
                        == j by {
                        if i < n && j < n {
                            assert(frames1[i].1.ppn == frames1[j].1.ppn);
                        } else if i < n {
                            assert(pool1.is_allocated(frames1[i].1.ppn.0));
                        } else if j < n {
                            assert(pool1.is_allocated(frames1[j].1.ppn.0));
                        }
                    }
                }
                assert forall|v: u64| start <= v < cur + 1 implies #[trigger] page_table.lookup(pool, v) == Some(
                    self.entry_for(self.target(v)),
                ) by {
                    if v < cur {
                        assert(key_of(v) != key_of(cur));
                        assert(pt1.lookup(&pool1, v) == Some(me1.entry_for(me1.target(v))));
                        if self.map_type == MapType::Framed {
                            assert(self.data_frame@[v - start] == frames1[v - start]);
                        }
                    }
                }
                assert forall|v: u64| cur + 1 <= v < end implies (#[trigger] page_table.lookup(
                    pool,
                    v,
                )).is_none() by {
                    assert(key_of(v) != key_of(cur));
                    assert(pt1.lookup(&pool1, v).is_none());
                }
                assert(missing_tables(pool1.mem(), pt1.root_ppn.0, cur) <= 2);
                assert(page_table.lookup(pool, cur).is_some());
            }
            vpn.step();
        }
    }
}


/// The page numbers of the pages owned, in their order.
pub open spec fn ppns_of(frames: Seq<(VirtPageNum, FrameTracker)>) -> Seq<u64> {
    Seq::new(frames.len(), |i: int| frames[i].1.ppn.0)
}

impl MapArea {
    /// The place in the list of the page owned for the virtual page `vpn`.
    pub fn find_frame(&self, vpn: VirtPageNum) -> (r: Option<usize>)
        ensures
            r.is_some() == self.has_frame(vpn.0),
            r.is_some() ==> r.unwrap() < self.data_frame@.len() && self.data_frame@[r.unwrap() as int].0.0
                == vpn.0,
    {
        let mut i: usize = 0;
        while i < self.data_frame.len()
            invariant
                i <= self.data_frame@.len(),
                forall|j: int| 0 <= j < i ==> (#[trigger] self.data_frame@[j]).0.0 != vpn.0,
            decreases self.data_frame@.len() - i,
        {
            if self.data_frame[i].0.0 == vpn.0 {
                return Some(i);
            }
            i += 1;
        }
        None
    }

    /// Takes away the mapping of the virtual page `vpn`; the page that the
    /// area owns for it goes back to the pool.
    #[verifier::spinoff_prover]
    #[verifier::rlimit(50)]
    pub fn unmap_one(&mut self, page_table: &mut PageTable, vpn: VirtPageNum, pool: &mut FramePool)
        requires
            old(self).wf(),
            old(self).mapped_in(old(page_table), old(pool)),
            old(page_table).wf(old(pool)),
            old(page_table).lookup(old(pool), vpn.0).is_some(),
            old(self).start() <= vpn.0 < old(self).end(),
        ensures
            final(self).wf(),
            final(self).mapped_in(final(page_table), final(pool)),
            final(page_table).wf(final(pool)),
            *final(page_table) == *old(page_table),
            final(self).vpn_range == old(self).vpn_range,
            final(self).map_type == old(self).map_type,
            final(self).map_perm == old(self).map_perm,
            final(page_table).lookup(final(pool), vpn.0).is_none(),
            forall|v: u64|
                key_of(v) != key_of(vpn.0) ==> #[trigger] final(page_table).lookup(final(pool), v)
                    == old(page_table).lookup(old(pool), v),
            !old(self).has_frame(vpn.0) ==> final(self).data_frame@ == old(self).data_frame@ && final(pool).allocator@ == old(pool).allocator@,
            old(self).has_frame(vpn.0) ==> exists|k: int|
                0 <= k < old(self).data_frame@.len() && (#[trigger] old(self).data_frame@[k]).0.0 == vpn.0
                    && final(self).data_frame@ == old(self).data_frame@.remove(k) && final(pool).allocator@ == old(pool).allocator@.after_dealloc(old(self).data_frame@[k].1.ppn.0),
            final(pool).memory.base() == old(pool).memory.base(),
            final(pool).memory.count() == old(pool).memory.count(),
            forall|p: u64|
                !old(page_table).tables().owns(p) ==> #[trigger] final(pool).mem()[p] == old(pool).mem()[p],
    {
        let ghost frames0 = self.data_frame@;
        let ghost t = page_table.tables();
        match self.find_frame(vpn) {
            Some(k) => {
                let (_, frame) = self.data_frame.remove(k);
                proof {
                    assert(frames0[k as int].1.ppn == frame.ppn);
                    assert(old(pool).is_allocated(frame.ppn.0));
                    crate::mm::frame_allocator::lemma_reuse_last_freed(pool.allocator@, frame.ppn.0);
                }
                frame_dealloc(pool, frame.ppn);
                proof {
                    let f = frame.ppn.0;
                    assert forall|p: u64| p != f && old(pool).is_allocated(p) implies pool.is_allocated(p) by {
                        lemma_dealloc_others(old(pool).allocator@, f, p);
                    }
                    assert forall|i: int| 0 <= i < t.frames.len() implies pool.is_allocated(
                        #[trigger] t.frames[i],
                    ) by {
                        assert(old(pool).is_allocated(t.frames[i]));
                        assert(t.frames.contains(t.frames[i]));
                    }
                    assert forall|i: int| 0 <= i < self.data_frame@.len() implies {
                        let q = (#[trigger] self.data_frame@[i]).1.ppn.0;
                        &&& pool.is_allocated(q)
                        &&& q != f
                    } by {
                        let j = if i < k {
                            i
                        } else {
                            i + 1
                        };
                        assert(self.data_frame@[i] == frames0[j]);
                        assert(old(pool).is_allocated(frames0[j].1.ppn.0));
                    }
                }
            },
            None => {},
        }
        let ghost pool1 = *pool;
        let ghost frames1 = self.data_frame@;
        proof {
            assert forall|i: int| 0 <= i < frames1.len() implies exists|j: int|
                0 <= j < frames0.len() && frames0[j] == #[trigger] frames1[i] by {
                if frames1.len() == frames0.len() {
                    assert(frames0[i] == frames1[i]);
                } else {
                    let k = choose|k: int| 0 <= k < frames0.len() && frames1 == frames0.remove(k);
                    let j = if i < k {
                        i
                    } else {
                        i + 1
                    };
                    assert(frames0[j] == frames1[i]);
                }
            }
        }
        page_table.unmap(vpn, pool);
        proof {
            assert forall|i: int| 0 <= i < self.data_frame@.len() implies {
                let q = (#[trigger] self.data_frame@[i]).1.ppn.0;
                &&& pool.is_allocated(q)
                &&& pool.memory.has(q)
                &&& !page_table.tables().owns(q)
                &&& page_table.lookup(pool, self.data_frame@[i].0.0) == Some(self.entry_for(q))
            } by {
                let j = choose|j: int| 0 <= j < frames0.len() && frames0[j] == frames1[i];
                assert(old(self).entry_for(frames0[j].1.ppn.0) == self.entry_for(frames0[j].1.ppn.0));
                if key_of(frames0[j].0.0) == key_of(vpn.0) {
                    // the page would be the one that was just given back
                    if frames0[j].0.0 != vpn.0 {
                        if frames0[j].0.0 < vpn.0 {
                            lemma_keys_apart(frames0[j].0.0, vpn.0);
                        } else {
                            lemma_keys_apart(vpn.0, frames0[j].0.0);
                        }
                    }
                }
            }
        }
    }
}

/// The allocator after the pages `ppns` came back, one after the other.
pub open spec fn after_dealloc_all(
    a: crate::mm::frame_allocator::AllocView,
    ppns: Seq<u64>,
) -> crate::mm::frame_allocator::AllocView {
    crate::mm::frame_allocator::AllocView { recycled: a.recycled + ppns, ..a }
}

/// Piece `k` of `data`, cut into pieces of 4096 bytes.
pub open spec fn chunk(data: Seq<u8>, k: int) -> Seq<u8> {
    let from = if 4096 * k < data.len() {
        4096 * k
    } else {
        data.len() as int
    };
    let to = if 4096 * k + 4096 < data.len() {
        4096 * k + 4096
    } else {
        data.len() as int
    };
    data.subrange(from, to)
}

impl MapArea {
    /// Gives every page that the area owns back to the pool, in the order
    /// in which they are listed. The page table is left as it is.
    pub fn release_frames(&mut self, pool: &mut FramePool)
        requires
            old(self).wf(),
            old(pool).wf(),
            forall|i: int|
                0 <= i < old(self).data_frame@.len() ==> old(pool).is_allocated(
                    (#[trigger] old(self).data_frame@[i]).1.ppn.0,
                ),
        ensures
            final(pool).wf(),
            final(self).data_frame@.len() == 0,
            final(self).vpn_range == old(self).vpn_range,
            final(self).map_type == old(self).map_type,
            final(self).map_perm == old(self).map_perm,
            final(pool).allocator@ == after_dealloc_all(old(pool).allocator@, ppns_of(old(self).data_frame@)),
            final(pool).memory == old(pool).memory,
            forall|p: u64|
                old(pool).is_allocated(p) && !old(self).owns(p) ==> #[trigger] final(pool).is_allocated(p),
    {
        let ghost frames0 = self.data_frame@;
        let ghost a0 = pool.allocator@;
        let n = self.data_frame.len();
        let mut i: usize = 0;
        assert(a0.recycled + ppns_of(frames0).subrange(0, 0) =~= a0.recycled);
        while i < n
            invariant
                i <= n == frames0.len(),
                self.data_frame@ == frames0,
                old(self).data_frame@ == frames0,
                old(self).wf(),
                a0 == old(pool).allocator@,
                self.vpn_range == old(self).vpn_range,
                self.map_type == old(self).map_type,
                self.map_perm == old(self).map_perm,
                pool.wf(),
                pool.memory == old(pool).memory,
                pool.allocator@ == after_dealloc_all(a0, ppns_of(frames0).subrange(0, i as int)),
                forall|k: int| i <= k < n ==> pool.is_allocated((#[trigger] frames0[k]).1.ppn.0),
                forall|p: u64|
                    old(pool).is_allocated(p) && !old(self).owns(p) ==> #[trigger] pool.is_allocated(p),
            decreases n - i,
        {
            let ppn = self.data_frame[i].1.ppn;
            let ghost a1 = pool.allocator@;
            frame_dealloc(pool, ppn);
            proof {
                assert(ppns_of(frames0).subrange(0, i + 1) =~= ppns_of(frames0).subrange(0, i as int).push(
                    ppn.0,
                ));
                assert(a1.recycled.push(ppn.0) =~= a0.recycled + ppns_of(frames0).subrange(0, i + 1));
                assert forall|k: int| i + 1 <= k < n implies pool.is_allocated(
                    (#[trigger] frames0[k]).1.ppn.0,
                ) by {
                    assert(frames0[k].1.ppn != frames0[i as int].1.ppn);
                    lemma_dealloc_others(a1, ppn.0, frames0[k].1.ppn.0);
                }
                assert forall|p: u64| old(pool).is_allocated(p) && !old(self).owns(p) implies #[trigger] pool.is_allocated(
                    p,
                ) by {
                    assert(p != ppn.0);
                    lemma_dealloc_others(a1, ppn.0, p);
                }
            }
            i += 1;
        }
        assert(ppns_of(frames0).subrange(0, n as int) =~= ppns_of(frames0));
        self.data_frame = Vec::new();
    }

    /// Copies `data` into the pages of the area, from its first page on.
    #[verifier::spinoff_prover]
    #[verifier::rlimit(100)]
    pub fn copy_data(&self, page_table: &PageTable, data: &[u8], pool: &mut FramePool)
        requires
            self.map_type == MapType::Framed,
            self.mapped_whole(page_table, old(pool)),
            page_table.wf(old(pool)),
            self.start() < self.end(),
            data@.len() <= 4096 * (self.end() - self.start()),
        ensures
            page_table.wf(final(pool)),
            self.mapped_whole(page_table, final(pool)),
            final(pool).allocator == old(pool).allocator,
            final(pool).memory.base() == old(pool).memory.base(),
            final(pool).memory.count() == old(pool).memory.count(),
            forall|v: u64| #[trigger] page_table.lookup(final(pool), v) == page_table.lookup(old(pool), v),
            forall|k: int|
                0 <= k < self.data_frame@.len() ==> final(pool).mem()[(#[trigger] self.data_frame@[k]).1.ppn.0] == splice(
                    old(pool).mem()[self.data_frame@[k].1.ppn.0],
                    0,
                    chunk(data@, k),
                ),
            forall|p: u64| !self.owns(p) ==> #[trigger] final(pool).mem()[p] == old(pool).mem()[p],
    {
        let ghost mem0 = pool.mem();
        let ghost t = page_table.tables();
        let ghost frames = self.data_frame@;
        let len = data.len();
        let pages = self.data_frame.len();
        let mut start: usize = 0;
        let mut k: usize = 0;
        let mut current_vpn = self.vpn_range.get_start();
        proof {
            pool.memory.lemma_view();
        }
        loop
            invariant_except_break
                k < pages,
                start == 4096 * k,
                start <= len,
                forall|j: int|
                    0 <= j < k ==> pool.mem()[(#[trigger] frames[j]).1.ppn.0] == splice(
                        mem0[frames[j].1.ppn.0],
                        0,
                        chunk(data@, j),
                    ),
                forall|j: int| k <= j < pages ==> pool.mem()[(#[trigger] frames[j]).1.ppn.0] == mem0[frames[j].1.ppn.0],
            invariant
                len == data@.len(),
                pages == frames.len(),
                frames == self.data_frame@,
                        t == page_table.tables(),
                mem0 == old(pool).mem(),
                current_vpn.0 == self.start() + k,
                self.map_type == MapType::Framed,
                self.mapped_whole(page_table, pool),
                page_table.wf(pool),
                len <= 4096 * pages,
                pool.allocator == old(pool).allocator,
                pool.memory.base() == old(pool).memory.base(),
                pool.memory.count() == old(pool).memory.count(),
                forall|v: u64| #[trigger] page_table.lookup(pool, v) == page_table.lookup(old(pool), v),
                forall|p: u64| !self.owns(p) ==> #[trigger] pool.mem()[p] == mem0[p],
            ensures
                forall|j: int|
                    0 <= j < pages ==> pool.mem()[(#[trigger] frames[j]).1.ppn.0] == splice(
                        mem0[frames[j].1.ppn.0],
                        0,
                        chunk(data@, j),
                    ),
            decreases pages - k,
        {
            let stop = if len - start < 4096 {
                len
            } else {
                start + 4096
            };
            let src = vstd::slice::slice_subrange(data, start, stop);
            let found = page_table.translate(current_vpn, pool);
            proof {
                assert(page_table.lookup(pool, current_vpn.0) == Some(
                    self.entry_for(self.target(current_vpn.0)),
                ));
                assert(pool.memory.has(frames[k as int].1.ppn.0));
                crate::mm::page_table::lemma_pte_bits(frames[k as int].1.ppn.0, self.map_perm.bits | PTE_V);
            }
            let ppn = found.unwrap().ppn();
            assert(ppn == frames[k as int].1.ppn);
            let ghost pool1 = *pool;
            pool.memory.write_bytes(ppn.0, 0, src);
            proof {
                pool.memory.lemma_view();
                assert(src@ =~= chunk(data@, k as int));
                assert(!t.owns(ppn.0));
                assert forall|i: int| 0 <= i < t.frames.len() implies pool.mem()[#[trigger] t.frames[i]]
                    == pool1.mem()[t.frames[i]] by {
                    assert(t.frames.contains(t.frames[i]));
                }
                lemma_pool_tables_untouched(page_table, &pool1, pool);
                lemma_area_untouched(self, page_table, &pool1, pool);
                assert(self.owns(ppn.0));
                assert forall|j: int| 0 <= j < pages && j != k implies pool.mem()[(#[trigger] frames[j]).1.ppn.0]
                    == pool1.mem()[frames[j].1.ppn.0] by {
                    assert(frames[j].1.ppn != frames[k as int].1.ppn);
                }
            }
            if len - start <= 4096 {
                proof {
                    assert forall|j: int| k < j < pages implies #[trigger] chunk(data@, j) =~= Seq::<u8>::empty() by {}
                    assert forall|j: int| k < j < pages implies pool.mem()[(#[trigger] frames[j]).1.ppn.0]
                        == splice(mem0[frames[j].1.ppn.0], 0, chunk(data@, j)) by {
                        assert(chunk(data@, j) =~= Seq::<u8>::empty());
                        assert(splice(mem0[frames[j].1.ppn.0], 0, Seq::<u8>::empty()) =~= mem0[frames[j].1.ppn.0]);
                    }
                }
                break;
            }
            start += 4096;
            k += 1;
            current_vpn.step();
        }
    }
}

/// Where the pool differs only in pages that are no tables, the page table
/// is in order as before and maps what it mapped.
pub proof fn lemma_pool_tables_untouched(pt: &PageTable, p1: &FramePool, p2: &FramePool)
    requires
        pt.wf(p1),
        p2.wf(),
        p2.allocator@ == p1.allocator@,
        p2.memory.base() == p1.memory.base(),
        p2.memory.count() == p1.memory.count(),
        forall|i: int|
            0 <= i < pt.tables().frames.len() ==> p2.mem()[#[trigger] pt.tables().frames[i]] == p1.mem()[pt.tables().frames[i]],
    ensures
        pt.wf(p2),
        forall|v: u64| #[trigger] pt.lookup(p2, v) == pt.lookup(p1, v),
        forall|v: u64|
            #[trigger] missing_tables(p2.mem(), pt.root_ppn.0, v) == missing_tables(
                p1.mem(),
                pt.root_ppn.0,
                v,
            ),
{
    p1.memory.lemma_view();
    p2.memory.lemma_view();
    lemma_tables_untouched(pt.tables(), p1.mem(), p2.mem());
}

/// Where the page table maps what it mapped and the allocator is the same,
/// an area that was mapped is mapped.
pub proof fn lemma_area_untouched(area: &MapArea, pt: &PageTable, p1: &FramePool, p2: &FramePool)
    requires
        area.mapped_whole(pt, p1),
        p2.allocator@ == p1.allocator@,
        p2.memory.base() == p1.memory.base(),
        p2.memory.count() == p1.memory.count(),
        forall|v: u64| #[trigger] pt.lookup(p2, v) == pt.lookup(p1, v),
    ensures
        area.mapped_whole(pt, p2),
{
    assert forall|i: int| 0 <= i < area.data_frame@.len() implies {
        let ppn = (#[trigger] area.data_frame@[i]).1.ppn.0;
        &&& p2.is_allocated(ppn)
        &&& p2.memory.has(ppn)
        &&& !pt.tables().owns(ppn)
        &&& pt.lookup(p2, area.data_frame@[i].0.0) == Some(area.entry_for(ppn))
    } by {
        let ppn = area.data_frame@[i].1.ppn.0;
        assert(p1.is_allocated(ppn));
        assert(pt.lookup(p1, area.data_frame@[i].0.0) == Some(area.entry_for(ppn)));
    }
    assert forall|v: u64| area.start() <= v < area.end() implies #[trigger] pt.lookup(p2, v) == Some(
        area.entry_for(area.target(v)),
    ) by {
        assert(pt.lookup(p1, v) == Some(area.entry_for(area.target(v))));
    }
}

/// Taking back a page leaves every other page that is in use in use.
pub proof fn lemma_dealloc_others(a: crate::mm::frame_allocator::AllocView, f: u64, p: u64)
    requires
        a.is_allocated(p),
        p != f,
    ensures
        a.after_dealloc(f).is_allocated(p),
{
    let b = a.after_dealloc(f);
    if b.recycled.contains(p) {
        let i = choose|i: int| 0 <= i < b.recycled.len() && b.recycled[i] == p;
        if i < a.recycled.len() {
            assert(a.recycled[i] == p);
        }
    }
}


/// Page numbers with the same key are mapped alike.
pub proof fn lemma_walk_key(mem: Memory, root: u64, a: u64, b: u64)
    requires
        key_of(a) == key_of(b),
    ensures
        walk(mem, root, a) == walk(mem, root, b),
        missing_tables(mem, root, a) == missing_tables(mem, root, b),
{
    lemma_key_indexes(a, b);
}

/// Mapping a page number and unmapping it again leaves every translation
/// as it was: `before` is the page table with its pool before the page
/// number `vpn`, which was not mapped, is mapped; `mapped` is what `map`
/// leaves, and `after` what `unmap` then leaves.
pub proof fn lemma_map_then_unmap(
    before: (&PageTable, &FramePool),
    mapped: (&PageTable, &FramePool),
    after: (&PageTable, &FramePool),
    vpn: u64,
)
    requires
        before.0.lookup(before.1, vpn).is_none(),
        mapped.0.root_ppn == before.0.root_ppn,
        forall|v: u64|
            key_of(v) != key_of(vpn) ==> #[trigger] mapped.0.lookup(mapped.1, v) == before.0.lookup(before.1, v),
        after.0.root_ppn == mapped.0.root_ppn,
        after.0.lookup(after.1, vpn).is_none(),
        forall|v: u64|
            key_of(v) != key_of(vpn) ==> #[trigger] after.0.lookup(after.1, v) == mapped.0.lookup(mapped.1, v),
    ensures
        after.0.lookup(after.1, vpn).is_none(),
        forall|v: u64| #[trigger] after.0.lookup(after.1, v) == before.0.lookup(before.1, v),
{
    assert forall|v: u64| #[trigger] after.0.lookup(after.1, v) == before.0.lookup(before.1, v) by {
        if key_of(v) == key_of(vpn) {
            lemma_walk_key(after.1.mem(), after.0.root_ppn.0, v, vpn);
            lemma_walk_key(before.1.mem(), before.0.root_ppn.0, v, vpn);
        } else {
            assert(mapped.0.lookup(mapped.1, v) == before.0.lookup(before.1, v));
        }
    }
}

/// An area stays mapped where the pool and the page table change around it:
/// the pages in use stay in use, no page in use became a table, and the page
/// table maps the pages of the area as before.
pub proof fn lemma_area_kept(area: &MapArea, pt0: &PageTable, p0: &FramePool, pt1: &PageTable, p1: &FramePool)
    requires
        area.mapped_whole(pt0, p0),
        p1.memory.base() == p0.memory.base(),
        p1.memory.count() == p0.memory.count(),
        forall|p: u64| p0.is_allocated(p) ==> p1.is_allocated(p),
        forall|p: u64| pt1.tables().owns(p) && !pt0.tables().owns(p) ==> !p0.is_allocated(p),
        forall|v: u64| area.start() <= v < area.end() ==> #[trigger] pt1.lookup(p1, v) == pt0.lookup(p0, v),
    ensures
        area.mapped_whole(pt1, p1),
{
    assert forall|i: int| 0 <= i < area.data_frame@.len() implies {
        let ppn = (#[trigger] area.data_frame@[i]).1.ppn.0;
        &&& p1.is_allocated(ppn)
        &&& p1.memory.has(ppn)
        &&& !pt1.tables().owns(ppn)
        &&& pt1.lookup(p1, area.data_frame@[i].0.0) == Some(area.entry_for(ppn))
    } by {
        let ppn = area.data_frame@[i].1.ppn.0;
        let v = area.data_frame@[i].0.0;
        assert(p0.is_allocated(ppn));
        assert(!pt0.tables().owns(ppn));
        assert(pt0.lookup(p0, v) == Some(area.entry_for(ppn)));
        assert(pt1.lookup(p1, v) == pt0.lookup(p0, v));
    }
    assert forall|v: u64| area.start() <= v < area.end() implies #[trigger] pt1.lookup(p1, v) == Some(
        area.entry_for(area.target(v)),
    ) by {
        assert(pt0.lookup(p0, v) == Some(area.entry_for(area.target(v))));
    }
}

/// An address space: a page table and the areas that are mapped in it.
pub struct MemorySet {
    pub page_table: PageTable,
    pub areas: Vec<MapArea>,
}

impl MemorySet {
    /// Page `i` that area `a` owns.
    pub open spec fn frame(&self, a: int, i: int) -> u64 {
        self.areas@[a].data_frame@[i].1.ppn.0
    }

    /// Whether one of the areas owns page `ppn`.
    pub open spec fn owns_data(&self, ppn: u64) -> bool {
        exists|a: int| 0 <= a < self.areas@.len() && (#[trigger] self.areas@[a]).owns(ppn)
    }

    /// Whether page `ppn` belongs to the address space, as a table or as a page of an area.
    pub open spec fn owns(&self, ppn: u64) -> bool {
        self.page_table.tables().owns(ppn) || self.owns_data(ppn)
    }

    /// The page table is in order, every area is mapped in it as a whole,
    /// and no page belongs to two areas.
    pub open spec fn wf(&self, pool: &FramePool) -> bool {
        &&& self.page_table.wf(pool)
        &&& forall|a: int|
            0 <= a < self.areas@.len() ==> (#[trigger] self.areas@[a]).mapped_whole(&self.page_table, pool)
        &&& forall|a: int, b: int, p: u64|
            0 <= a < self.areas@.len() && 0 <= b < self.areas@.len() && #[trigger] self.areas@[a].owns(p)
                && #[trigger] self.areas@[b].owns(p) ==> a == b
    }

    /// The entry to which page number `vpn` is mapped.
    pub open spec fn lookup(&self, pool: &FramePool, vpn: u64) -> Option<u64> {
        self.page_table.lookup(pool, vpn)
    }

    /// An address space without areas, whose page table maps nothing.
    pub fn new_bare(pool: &mut FramePool) -> (r: Self)
        requires
            old(pool).wf(),
            old(pool).allocator@.can_alloc(),
        ensures
            r.wf(final(pool)),
            r.areas@.len() == 0,
            r.page_table.root_ppn.0 == old(pool).allocator@.next(),
            r.page_table.tables().frames == seq![r.page_table.root_ppn.0],
            final(pool).allocator@ == old(pool).allocator@.after_alloc(),
            final(pool).mem() == old(pool).mem().insert(r.page_table.root_ppn.0, zero_page()),
            final(pool).memory.base() == old(pool).memory.base(),
            final(pool).memory.count() == old(pool).memory.count(),
            forall|v: u64| r.page_table.lookup(final(pool), v).is_none(),
    {
        Self { page_table: PageTable::new(pool), areas: Vec::new() }
    }

    /// The value that names the page table of the address space.
    pub fn token(&self) -> (r: u64)
        ensures
            r == (8u64 << 60) | self.page_table.root_ppn.0,
    {
        self.page_table.token()
    }

    /// The entry to which page number `vpn` is mapped, if it is mapped.
    pub fn translate(&self, vpn: VirtPageNum, pool: &FramePool) -> (r: Option<PageTableEntry>)
        requires
            pool.memory.wf(),
        ensures
            r.is_some() == self.page_table.lookup(pool, vpn.0).is_some(),
            r.is_some() ==> r.unwrap().bits == self.page_table.lookup(pool, vpn.0).unwrap(),
    {
        self.page_table.translate(vpn, pool)
    }

    /// Adds the area `map_area`: its pages are mapped, and `data`, if given,
    /// is copied into them.
    #[verifier::spinoff_prover]
    #[verifier::rlimit(50)]
    pub fn push(&mut self, map_area: MapArea, data: Option<&[u8]>, pool: &mut FramePool)
        requires
            old(self).wf(old(pool)),
            map_area.wf(),
            map_area.data_frame@.len() == 0,
            forall|v: u64|
                map_area.start() <= v < map_area.end() ==> (#[trigger] old(self).page_table.lookup(old(pool), v)).is_none(),
            old(pool).allocator@.free_count() >= map_cost(
                map_area.start() as int,
                map_area.end() as int,
                map_area.map_type == MapType::Framed,
            ),
            data.is_some() ==> map_area.map_type == MapType::Framed && map_area.start() < map_area.end()
                && data.unwrap()@.len() <= 4096 * (map_area.end() - map_area.start()),
        ensures
            final(self).wf(final(pool)),
            final(self).page_table.root_ppn == old(self).page_table.root_ppn,
            final(self).areas@.len() == old(self).areas@.len() + 1,
            final(self).areas@.drop_last() == old(self).areas@,
            final(self).areas@.last().vpn_range == map_area.vpn_range,
            final(self).areas@.last().map_type == map_area.map_type,
            final(self).areas@.last().map_perm == map_area.map_perm,
            forall|i: int|
                0 <= i < final(self).areas@.last().data_frame@.len() ==> {
                    let f = (#[trigger] final(self).areas@.last().data_frame@[i]).1.ppn.0;
                    &&& !old(pool).is_allocated(f)
                    &&& final(pool).mem()[f] == splice(
                        zero_page(),
                        0,
                        match data {
                            Some(d) => chunk(d@, i),
                            None => Seq::<u8>::empty(),
                        },
                    )
                },
            forall|v: u64|
                apart_from(v, map_area.start(), map_area.end()) ==> #[trigger] final(self).page_table.lookup(
                    final(pool),
                    v,
                ) == old(self).page_table.lookup(old(pool), v),
            final(pool).allocator@.free_count() >= old(pool).allocator@.free_count() - map_cost(
                map_area.start() as int,
                map_area.end() as int,
                map_area.map_type == MapType::Framed,
            ),
            final(pool).memory.base() == old(pool).memory.base(),
            final(pool).memory.count() == old(pool).memory.count(),
            old(self).page_table.tables().frames.is_prefix_of(final(self).page_table.tables().frames),
            forall|p: u64|
                old(pool).is_allocated(p) && !old(self).page_table.tables().owns(p)
                    ==> #[trigger] final(pool).mem()[p] == old(pool).mem()[p],
            forall|p: u64| final(self).owns(p) && !old(self).owns(p) ==> !old(pool).is_allocated(p),
            forall|p: u64| old(pool).is_allocated(p) ==> final(pool).is_allocated(p),
    {
        let mut map_area = map_area;
        let ghost pt0 = self.page_table;
        let ghost pool0 = *pool;
        let ghost areas0 = self.areas@;
        let ghost start = map_area.start();
        let ghost end = map_area.end();
        map_area.map(&mut self.page_table, pool);
        let ghost pt1 = self.page_table;
        let ghost pool1 = *pool;
        proof {
            assert forall|b: int| 0 <= b < areas0.len() implies (#[trigger] areas0[b]).mapped_whole(
                &pt1,
                &pool1,
            ) by {
                assert(areas0[b].mapped_whole(&pt0, &pool0));
                assert forall|v: u64| areas0[b].start() <= v < areas0[b].end() implies #[trigger] pt1.lookup(
                    &pool1,
                    v,
                ) == pt0.lookup(&pool0, v) by {
                    assert(pt0.lookup(&pool0, v).is_some());
                    assert forall|w: u64| start <= w < end implies key_of(v) != #[trigger] key_of(w) by {
                        if key_of(v) == key_of(w) {
                            lemma_walk_key(pool0.mem(), pt0.root_ppn.0, v, w);
                            assert(pt0.lookup(&pool0, w).is_none());
                        }
                    }
                    assert(apart_from(v, start, end));
                }
                lemma_area_kept(&areas0[b], &pt0, &pool0, &pt1, &pool1);
            }
        }
        if let Some(data) = data {
            map_area.copy_data(&self.page_table, data, pool);
            proof {
                assert forall|b: int| 0 <= b < areas0.len() implies (#[trigger] areas0[b]).mapped_whole(
                    &self.page_table,
                    pool,
                ) by {
                    lemma_area_untouched(&areas0[b], &pt1, &pool1, pool);
                }
            }
        }
        proof {
            assert forall|i: int| 0 <= i < map_area.data_frame@.len() implies {
                let f = (#[trigger] map_area.data_frame@[i]).1.ppn.0;
                &&& !old(pool).is_allocated(f)
                &&& pool.mem()[f] == splice(
                    zero_page(),
                    0,
                    match data {
                        Some(d) => chunk(d@, i),
                        None => Seq::<u8>::empty(),
                    },
                )
            } by {
                let f = map_area.data_frame@[i].1.ppn.0;
                assert(pool1.mem()[f] == zero_page());
                if data.is_none() {
                    assert(splice(zero_page(), 0, Seq::<u8>::empty()) =~= zero_page());
                }
            }
            assert forall|p: u64| old(pool).is_allocated(p) && !pt0.tables().owns(p) implies #[trigger] pool.mem()[p]
                == pool0.mem()[p] by {
                assert(pool1.mem()[p] == pool0.mem()[p]);
                if map_area.owns(p) {
                    let i = choose|i: int|
                        0 <= i < map_area.data_frame@.len() && (#[trigger] map_area.data_frame@[i]).1.ppn.0
                            == p;
                    assert(!old(pool).is_allocated(map_area.data_frame@[i].1.ppn.0));
                }
            }
        }
        self.areas.push(map_area);
        proof {
            let n = areas0.len() as int;
            assert(self.areas@.drop_last() =~= areas0);
            assert forall|a: int| 0 <= a < self.areas@.len() implies (#[trigger] self.areas@[a]).mapped_whole(
                &self.page_table,
                pool,
            ) by {
                if a < n {
                    assert(self.areas@[a] == areas0[a]);
                }
            }
            assert forall|a: int, b: int, p: u64|
                0 <= a < self.areas@.len() && 0 <= b < self.areas@.len() && #[trigger] self.areas@[a].owns(p)
                    && #[trigger] self.areas@[b].owns(p) implies a == b by {
                if a < n && b < n {
                    assert(areas0[a].owns(p) && areas0[b].owns(p));
                } else if a < n || b < n {
                    let c = if a < n {
                        a
                    } else {
                        b
                    };
                    assert(self.areas@[c] == areas0[c]);
                    let i = choose|i: int|
                        0 <= i < areas0[c].data_frame@.len() && (#[trigger] areas0[c].data_frame@[i]).1.ppn.0
                            == p;
                    assert(pool0.is_allocated(areas0[c].data_frame@[i].1.ppn.0));
                    let j = choose|j: int|
                        0 <= j < map_area.data_frame@.len() && (#[trigger] map_area.data_frame@[j]).1.ppn.0
                            == p;
                    assert(!pool0.is_allocated(map_area.data_frame@[j].1.ppn.0));
                }
            }
            assert forall|p: u64| self.owns(p) && !old(self).owns(p) implies !old(pool).is_allocated(p) by {
                if self.page_table.tables().owns(p) {
                } else {
                    let a = choose|a: int| 0 <= a < self.areas@.len() && (#[trigger] self.areas@[a]).owns(p);
                    if a < n {
                        assert(self.areas@[a] == areas0[a]);
                        assert(old(self).owns_data(p));
                    } else {
                        let j = choose|j: int|
                            0 <= j < map_area.data_frame@.len() && (#[trigger] map_area.data_frame@[j]).1.ppn.0
                                == p;
                        assert(!pool0.is_allocated(map_area.data_frame@[j].1.ppn.0));
                    }
                }
            }
        }
    }
}


/// The page number of the trampoline.
pub open spec fn trampoline_vpn() -> u64 {
    0xF_FFFF_FFFF_FFFF
}

/// The entry that maps the trampoline to the physical page `ppn`: it can be
/// read and executed, and not used in user mode.
pub open spec fn trampoline_entry(ppn: u64) -> u64 {
    pte_bits(ppn, 0x0b)
}

impl MemorySet {
    /// Adds a framed area for the addresses from `start_va` up to `end_va`.
    pub fn insert_framed_area(
        &mut self,
        start_va: VirtAddr,
        end_va: VirtAddr,
        permission: MapPermission,
        pool: &mut FramePool,
    )
        requires
            old(self).wf(old(pool)),
            start_va.0 / 4096 <= (end_va.0 + 4095) / 4096,
            (end_va.0 + 4095) / 4096 - start_va.0 / 4096 <= 0x800_0000,
            forall|v: u64|
                start_va.0 / 4096 <= v < (end_va.0 + 4095) / 4096 ==> (#[trigger] old(self).page_table.lookup(
                    old(pool),
                    v,
                )).is_none(),
            old(pool).allocator@.free_count() >= map_cost(
                start_va.0 as int / 4096,
                (end_va.0 + 4095) / 4096,
                true,
            ),
        ensures
            final(self).wf(final(pool)),
            final(self).page_table.root_ppn == old(self).page_table.root_ppn,
            final(self).areas@.len() == old(self).areas@.len() + 1,
            final(self).areas@.drop_last() == old(self).areas@,
            final(self).areas@.last().start() == start_va.0 / 4096,
            final(self).areas@.last().end() == (end_va.0 + 4095) / 4096,
            final(self).areas@.last().map_type == MapType::Framed,
            final(self).areas@.last().map_perm == permission,
            forall|i: int|
                0 <= i < final(self).areas@.last().data_frame@.len() ==> {
                    let f = (#[trigger] final(self).areas@.last().data_frame@[i]).1.ppn.0;
                    &&& !old(pool).is_allocated(f)
                    &&& final(pool).mem()[f] == zero_page()
                },
            forall|v: u64|
                apart_from(v, (start_va.0 / 4096) as u64, ((end_va.0 + 4095) / 4096) as u64)
                    ==> #[trigger] final(self).page_table.lookup(final(pool), v) == old(
                    self,
                ).page_table.lookup(old(pool), v),
            final(pool).allocator@.free_count() >= old(pool).allocator@.free_count() - map_cost(
                start_va.0 as int / 4096,
                (end_va.0 + 4095) / 4096,
                true,
            ),
            final(pool).memory.base() == old(pool).memory.base(),
            final(pool).memory.count() == old(pool).memory.count(),
            forall|p: u64|
                old(pool).is_allocated(p) && !old(self).page_table.tables().owns(p)
                    ==> #[trigger] final(pool).mem()[p] == old(pool).mem()[p],
            forall|p: u64| final(self).owns(p) && !old(self).owns(p) ==> !old(pool).is_allocated(p),
            forall|p: u64| old(pool).is_allocated(p) ==> final(pool).is_allocated(p),
    {
        let area = MapArea::new(start_va, end_va, MapType::Framed, permission);
        self.push(area, None, pool);
        proof {
            assert(splice(zero_page(), 0, Seq::<u8>::empty()) =~= zero_page());
        }
    }

    /// Maps the trampoline, the highest page of the address space, to the
    /// physical page at `strampoline`. The page belongs to no area.
    pub fn map_trampoline(&mut self, strampoline: crate::mm::address::PhysAddr, pool: &mut FramePool)
        requires
            old(self).wf(old(pool)),
            strampoline.0 % 4096 == 0,
            strampoline.0 / 4096 < 0x1000_0000_0000,
            old(self).page_table.lookup(old(pool), trampoline_vpn()).is_none(),
            old(pool).allocator@.free_count() >= missing_tables(
                old(pool).mem(),
                old(self).page_table.root_ppn.0,
                trampoline_vpn(),
            ),
        ensures
            final(self).wf(final(pool)),
            final(self).page_table.root_ppn == old(self).page_table.root_ppn,
            final(self).areas@ == old(self).areas@,
            final(self).page_table.lookup(final(pool), trampoline_vpn()) == Some(
                trampoline_entry((strampoline.0 / 4096) as u64),
            ),
            forall|v: u64|
                key_of(v) != key_of(trampoline_vpn()) ==> #[trigger] final(self).page_table.lookup(
                    final(pool),
                    v,
                ) == old(self).page_table.lookup(old(pool), v),
            final(pool).allocator@.free_count() == old(pool).allocator@.free_count() - missing_tables(
                old(pool).mem(),
                old(self).page_table.root_ppn.0,
                trampoline_vpn(),
            ),
            final(pool).memory.base() == old(pool).memory.base(),
            final(pool).memory.count() == old(pool).memory.count(),
            forall|p: u64|
                old(pool).is_allocated(p) && !old(self).page_table.tables().owns(p)
                    ==> #[trigger] final(pool).mem()[p] == old(pool).mem()[p],
            forall|p: u64| final(self).owns(p) && !old(self).owns(p) ==> !old(pool).is_allocated(p),
            forall|p: u64| old(pool).is_allocated(p) ==> final(pool).is_allocated(p),
    {
        let ghost pt0 = self.page_table;
        let ghost pool0 = *pool;
        let vpn = VirtAddr(TRAMPOLINE).floor();
        let ppn = strampoline.floor();
        self.page_table.map(vpn, ppn, PTEFlags::from_bits(0x0a), pool);
        proof {
            assert(0x0au8 | 0x01u8 == 0x0bu8) by (bit_vector);
            assert forall|p: u64| old(pool).is_allocated(p) && !pt0.tables().owns(p) implies #[trigger] pool.mem()[p]
                == pool0.mem()[p] by {
                if self.page_table.tables().owns(p) {
                    assert(!pool0.is_allocated(p));
                }
            }
            assert forall|b: int| 0 <= b < self.areas@.len() implies (#[trigger] self.areas@[b]).mapped_whole(
                &self.page_table,
                pool,
            ) by {
                let area = self.areas@[b];
                assert(area.mapped_whole(&pt0, &pool0));
                assert forall|v: u64| area.start() <= v < area.end() implies #[trigger] self.page_table.lookup(
                    pool,
                    v,
                ) == pt0.lookup(&pool0, v) by {
                    assert(pt0.lookup(&pool0, v).is_some());
                    if key_of(v) == key_of(trampoline_vpn()) {
                        lemma_walk_key(pool0.mem(), pt0.root_ppn.0, v, trampoline_vpn());
                    }
                }
                lemma_area_kept(&area, &pt0, &pool0, &self.page_table, pool);
            }
            assert forall|p: u64| self.owns(p) && !old(self).owns(p) implies !old(pool).is_allocated(p) by {
                if self.owns_data(p) {
                    assert(old(self).owns_data(p));
                }
            }
        }
    }

    /// Gives every page of every area back to the pool and forgets the
    /// areas. The page table is left as it is, with its tables.
    #[verifier::spinoff_prover]
    #[verifier::rlimit(50)]
    pub fn recycle_data_pages(&mut self, pool: &mut FramePool)
        requires
            old(self).wf(old(pool)),
        ensures
            final(self).page_table == old(self).page_table,
            final(self).areas@.len() == 0,
            final(self).wf(final(pool)),
            final(pool).memory == old(pool).memory,
            final(pool).allocator@.free_count() == old(pool).allocator@.free_count() + data_pages(
                old(self).areas@,
            ),
            forall|p: u64|
                old(pool).is_allocated(p) && !old(self).owns_data(p) ==> #[trigger] final(pool).is_allocated(p),
            forall|p: u64| old(self).owns_data(p) ==> !(#[trigger] final(pool).is_allocated(p)),
            forall|p: u64| #[trigger] final(pool).is_allocated(p) ==> old(pool).is_allocated(p),
    {
        let ghost areas0 = self.areas@;
        let ghost pool0 = *pool;
        let n = self.areas.len();
        let mut a: usize = 0;
        proof {
            assert(areas0.subrange(0, 0) =~= Seq::<MapArea>::empty());
        }
        while a < n
            invariant
                a <= n == areas0.len(),
                self.areas@.len() == n,
                self.page_table == old(self).page_table,
                areas0 == old(self).areas@,
                pool0 == *old(pool),
                old(self).wf(old(pool)),
                pool.wf(),
                pool.memory == old(pool).memory,
                forall|b: int| a <= b < n ==> #[trigger] self.areas@[b] == areas0[b],
                forall|b: int| 0 <= b < a ==> (#[trigger] self.areas@[b]).data_frame@.len() == 0,
                pool.allocator@.free_count() == pool0.allocator@.free_count() + data_pages(
                    areas0.subrange(0, a as int),
                ),
                forall|p: u64|
                    pool0.is_allocated(p) && !(exists|b: int| 0 <= b < a && (#[trigger] areas0[b]).owns(p))
                        ==> #[trigger] pool.is_allocated(p),
                forall|p: u64, b: int| 0 <= b < a && (#[trigger] areas0[b]).owns(p) ==> !(#[trigger] pool.is_allocated(p)),
                forall|p: u64| #[trigger] pool.is_allocated(p) ==> pool0.is_allocated(p),
            decreases n - a,
        {
            let ghost pool1 = *pool;
            proof {
                let area = areas0[a as int];
                assert(area.mapped_whole(&old(self).page_table, &pool0));
                assert forall|i: int| 0 <= i < area.data_frame@.len() implies pool.is_allocated(
                    (#[trigger] area.data_frame@[i]).1.ppn.0,
                ) by {
                    let q = area.data_frame@[i].1.ppn.0;
                    assert(pool0.is_allocated(q));
                    assert(area.owns(q));
                    if exists|b: int| 0 <= b < a && (#[trigger] areas0[b]).owns(q) {
                        let b = choose|b: int| 0 <= b < a && (#[trigger] areas0[b]).owns(q);
                        assert(areas0[b].owns(q) && areas0[a as int].owns(q));
                    }
                }
            }
            let area = &mut self.areas[a];
            area.release_frames(pool);
            proof {
                let area0 = areas0[a as int];
                assert(areas0.subrange(0, a + 1).drop_last() =~= areas0.subrange(0, a as int));
                lemma_release_effect(pool1.allocator@, ppns_of(area0.data_frame@));
                assert forall|p: u64| #[trigger] pool.is_allocated(p) implies pool0.is_allocated(p) by {
                    assert(after_dealloc_all(pool1.allocator@, ppns_of(area0.data_frame@)).is_allocated(p));
                    assert(pool1.is_allocated(p));
                }
                assert forall|p: u64|
                    pool0.is_allocated(p) && !(exists|b: int| 0 <= b < a + 1 && (#[trigger] areas0[b]).owns(p))
                    implies #[trigger] pool.is_allocated(p) by {
                    assert(!areas0[a as int].owns(p));
                    assert(!(exists|b: int| 0 <= b < a && (#[trigger] areas0[b]).owns(p))) by {
                        if exists|b: int| 0 <= b < a && (#[trigger] areas0[b]).owns(p) {
                            let b = choose|b: int| 0 <= b < a && (#[trigger] areas0[b]).owns(p);
                            assert(0 <= b < a + 1 && areas0[b].owns(p));
                        }
                    }
                    assert(pool1.is_allocated(p));
                }
                assert forall|p: u64, b: int| 0 <= b < a + 1 && (#[trigger] areas0[b]).owns(p) implies !(
                #[trigger] pool.is_allocated(p)) by {
                    if b == a {
                        let i = choose|i: int|
                            0 <= i < area0.data_frame@.len() && (#[trigger] area0.data_frame@[i]).1.ppn.0 == p;
                        assert(ppns_of(area0.data_frame@)[i] == p);
                    } else {
                        assert(!pool1.is_allocated(p));
                    }
                }
            }
            a += 1;
        }
        proof {
            assert(areas0.subrange(0, n as int) =~= areas0);
            assert forall|p: u64| pool0.is_allocated(p) && !old(self).owns_data(p) implies #[trigger] pool.is_allocated(
                p,
            ) by {
                if exists|b: int| 0 <= b < n && (#[trigger] areas0[b]).owns(p) {
                    let b = choose|b: int| 0 <= b < n && (#[trigger] areas0[b]).owns(p);
                    assert(old(self).owns_data(p));
                }
            }
            assert forall|p: u64| old(self).owns_data(p) implies !(#[trigger] pool.is_allocated(p)) by {
                let b = choose|b: int| 0 <= b < old(self).areas@.len() && (#[trigger] old(self).areas@[b]).owns(p);
                assert(areas0[b].owns(p));
            }
            let t = self.page_table.tables();
            assert forall|i: int| 0 <= i < t.frames.len() implies pool.is_allocated(#[trigger] t.frames[i]) by {
                let q = t.frames[i];
                assert(pool0.is_allocated(q));
                assert(t.owns(q));
                if old(self).owns_data(q) {
                    let b = choose|b: int|
                        0 <= b < old(self).areas@.len() && (#[trigger] old(self).areas@[b]).owns(q);
                    assert(areas0[b].mapped_whole(&old(self).page_table, &pool0));
                    let k = choose|k: int|
                        0 <= k < areas0[b].data_frame@.len() && (#[trigger] areas0[b].data_frame@[k]).1.ppn.0
                            == q;
                    assert(!t.owns(areas0[b].data_frame@[k].1.ppn.0));
                }
            }
            lemma_pool_tables_free(&self.page_table, &pool0, pool);
        }
        self.areas = Vec::new();
    }
}

/// Pages owned by the areas `areas`, all together.
pub open spec fn data_pages(areas: Seq<MapArea>) -> int
    decreases areas.len(),
{
    if areas.len() == 0 {
        0
    } else {
        data_pages(areas.drop_last()) + areas.last().data_frame@.len()
    }
}

/// After pages came back, they are not in use, and one more page can be
/// handed out for each of them.
pub proof fn lemma_release_effect(a: crate::mm::frame_allocator::AllocView, ppns: Seq<u64>)
    ensures
        after_dealloc_all(a, ppns).free_count() == a.free_count() + ppns.len(),
        forall|i: int| 0 <= i < ppns.len() ==> !after_dealloc_all(a, ppns).is_allocated(#[trigger] ppns[i]),
        forall|p: u64| after_dealloc_all(a, ppns).is_allocated(p) ==> a.is_allocated(p),
{
    let b = after_dealloc_all(a, ppns);
    assert forall|i: int| 0 <= i < ppns.len() implies !b.is_allocated(#[trigger] ppns[i]) by {
        assert(b.recycled[a.recycled.len() + i] == ppns[i]);
    }
    assert forall|p: u64| b.is_allocated(p) implies a.is_allocated(p) by {
        if a.recycled.contains(p) {
            let i = choose|i: int| 0 <= i < a.recycled.len() && a.recycled[i] == p;
            assert(b.recycled[i] == p);
        }
    }
}

/// Where the memory is the same and the tables are still in use, the page
/// table is in order as before.
pub proof fn lemma_pool_tables_free(pt: &PageTable, p1: &FramePool, p2: &FramePool)
    requires
        pt.wf(p1),
        p2.wf(),
        p2.memory == p1.memory,
        forall|i: int| 0 <= i < pt.tables().frames.len() ==> p2.is_allocated(#[trigger] pt.tables().frames[i]),
    ensures
        pt.wf(p2),
{
}


/// Where the kernel lies in memory: the addresses at which its sections
/// begin and end, the address at which it ends, and the address of the
/// trampoline code.
pub struct KernelLayout {
    pub stext: u64,
    pub etext: u64,
    pub srodata: u64,
    pub erodata: u64,
    pub sdata: u64,
    pub edata: u64,
    pub sbss_with_stack: u64,
    pub ebss: u64,
    pub ekernel: u64,
    pub strampoline: u64,
}

/// The first page that begins at or after the address `a`.
pub open spec fn page_up(a: u64) -> u64 {
    ((a + 4095) / 4096) as u64
}

/// The page that holds the address `a`.
pub open spec fn page_down(a: u64) -> u64 {
    a / 4096
}

impl KernelLayout {
    /// The sections follow each other in memory, none shares a page with
    /// the next, and the trampoline code begins at a page.
    pub open spec fn wf(&self) -> bool {
        &&& self.stext <= self.etext
        &&& page_up(self.etext) <= page_down(self.srodata)
        &&& self.srodata <= self.erodata
        &&& page_up(self.erodata) <= page_down(self.sdata)
        &&& self.sdata <= self.edata
        &&& page_up(self.edata) <= page_down(self.sbss_with_stack)
        &&& self.sbss_with_stack <= self.ebss
        &&& page_up(self.ebss) <= page_down(self.ekernel)
        &&& self.ekernel <= MEMORY_END
        &&& self.strampoline % 4096 == 0
        &&& self.strampoline <= MEMORY_END
    }

    /// Number of pages that the address space of the kernel takes from the
    /// pool at most: the root table, the tables for the trampoline, and the
    /// tables for the five areas.
    pub open spec fn cost(&self) -> int {
        3 + map_cost(page_down(self.stext) as int, page_up(self.etext) as int, false) + map_cost(
            page_down(self.srodata) as int,
            page_up(self.erodata) as int,
            false,
        ) + map_cost(page_down(self.sdata) as int, page_up(self.edata) as int, false) + map_cost(
            page_down(self.sbss_with_stack) as int,
            page_up(self.ebss) as int,
            false,
        ) + map_cost(page_down(self.ekernel) as int, page_up(MEMORY_END) as int, false)
    }
}

/// A page table tells a page below 2^27 apart from every page of a run
/// below 2^27 that does not hold it.
pub proof fn lemma_low_apart(v: u64, start: u64, end: u64)
    requires
        v < 0x800_0000 || v == trampoline_vpn(),
        end < 0x800_0000,
        v < start || v >= end,
    ensures
        apart_from(v, start, end),
        key_of(trampoline_vpn()) == 0x7ff_ffff,
        v < 0x800_0000 ==> key_of(v) == v,
{
    assert(key_of(trampoline_vpn()) == 0x7ff_ffff) by {
        assert(0xF_FFFF_FFFF_FFFFu64 & 0x7ff_ffff == 0x7ff_ffff) by (bit_vector);
    }
    assert(v < 0x800_0000 ==> v & 0x7ff_ffff == v) by (bit_vector);
    assert forall|w: u64| start <= w < end implies key_of(v) != #[trigger] key_of(w) by {
        assert(w < 0x800_0000 ==> w & 0x7ff_ffff == w) by (bit_vector);
    }
}

impl MemorySet {
    /// Adds an area that maps the pages of the addresses from `start` up to
    /// `end` each to the physical page of the same number.
    fn push_identical(&mut self, start: u64, end: u64, perm: u8, pool: &mut FramePool)
        requires
            old(self).wf(old(pool)),
            start <= end,
            page_up(end) < 0x800_0000,
            forall|v: u64|
                page_down(start) <= v < page_up(end) ==> (#[trigger] old(self).page_table.lookup(
                    old(pool),
                    v,
                )).is_none(),
            old(pool).allocator@.free_count() >= map_cost(
                page_down(start) as int,
                page_up(end) as int,
                false,
            ),
        ensures
            final(self).wf(final(pool)),
            final(self).page_table.root_ppn == old(self).page_table.root_ppn,
            final(self).areas@.len() == old(self).areas@.len() + 1,
            final(self).areas@.drop_last() == old(self).areas@,
            final(self).areas@.last().start() == page_down(start),
            final(self).areas@.last().end() == page_up(end),
            final(self).areas@.last().map_type == MapType::Identical,
            final(self).areas@.last().map_perm.bits == perm,
            forall|v: u64|
                page_down(start) <= v < page_up(end) ==> #[trigger] final(self).page_table.lookup(
                    final(pool),
                    v,
                ) == Some(pte_bits(v, perm | PTE_V)),
            forall|v: u64|
                apart_from(v, page_down(start), page_up(end)) ==> #[trigger] final(self).page_table.lookup(
                    final(pool),
                    v,
                ) == old(self).page_table.lookup(old(pool), v),
            final(pool).allocator@.free_count() >= old(pool).allocator@.free_count() - map_cost(
                page_down(start) as int,
                page_up(end) as int,
                false,
            ),
            final(pool).memory.base() == old(pool).memory.base(),
            final(pool).memory.count() == old(pool).memory.count(),
            forall|p: u64|
                old(pool).is_allocated(p) && !old(self).page_table.tables().owns(p)
                    ==> #[trigger] final(pool).mem()[p] == old(pool).mem()[p],
            forall|p: u64| final(self).owns(p) && !old(self).owns(p) ==> !old(pool).is_allocated(p),
            forall|p: u64| old(pool).is_allocated(p) ==> final(pool).is_allocated(p),
    {
        let area = MapArea::new(VirtAddr(start), VirtAddr(end), MapType::Identical, MapPermission::from_bits(perm));
        self.push(area, None, pool);
        proof {
            let last = self.areas@.last();
            assert(self.areas@[self.areas@.len() - 1] == last);
            assert(last.mapped_whole(&self.page_table, pool));
            assert forall|v: u64| page_down(start) <= v < page_up(end) implies #[trigger] self.page_table.lookup(
                pool,
                v,
            ) == Some(pte_bits(v, perm | PTE_V)) by {
                assert(self.page_table.lookup(pool, v) == Some(last.entry_for(last.target(v))));
            }
        }
    }

    /// Whether page `v` lies in one of the areas.
    pub open spec fn in_area(&self, v: u64) -> bool {
        exists|a: int| 0 <= a < self.areas@.len() && (#[trigger] self.areas@[a]).start() <= v < self.areas@[a].end()
    }

    /// The address space of the kernel: each section of the kernel and the
    /// memory after it is mapped page by page to itself, the code to be read
    /// and executed, the constants to be read, the rest to be read and
    /// written; and the trampoline is mapped.
    #[verifier::spinoff_prover]
    #[verifier::rlimit(100)]
    pub fn new_kernel(layout: &KernelLayout, pool: &mut FramePool) -> (r: Self)
        requires
            old(pool).wf(),
            layout.wf(),
            old(pool).allocator@.free_count() >= layout.cost(),
        ensures
            r.wf(final(pool)),
            r.areas@.len() == 5,
            forall|a: int|
                0 <= a < 5 ==> {
                    &&& (#[trigger] r.areas@[a]).start() == page_down(layout.sections()[a].0)
                    &&& r.areas@[a].end() == page_up(layout.sections()[a].1)
                    &&& r.areas@[a].map_perm.bits == layout.sections()[a].2
                    &&& r.areas@[a].map_type == MapType::Identical
                },
            r.page_table.lookup(final(pool), trampoline_vpn()) == Some(
                trampoline_entry((layout.strampoline / 4096) as u64),
            ),
            forall|v: u64|
                v < 0x7ff_ffff && !r.in_area(v) ==> (#[trigger] r.page_table.lookup(final(pool), v)).is_none(),
            final(pool).allocator@.free_count() >= old(pool).allocator@.free_count() - layout.cost(),
            final(pool).memory.base() == old(pool).memory.base(),
            final(pool).memory.count() == old(pool).memory.count(),
            forall|p: u64| old(pool).is_allocated(p) ==> #[trigger] final(pool).mem()[p] == old(pool).mem()[p],
            forall|p: u64| r.owns(p) ==> !old(pool).is_allocated(p),
            forall|p: u64| old(pool).is_allocated(p) ==> final(pool).is_allocated(p),
    {
        let ghost pool0 = *pool;
        let ghost secs = layout.sections();
        proof {
            layout.lemma_costs(0);
            assert(pool.allocator@.can_alloc());
            lemma_alloc_fresh(pool.allocator@);
        }
        let mut memory_set = Self::new_bare(pool);
        let ghost pool1 = *pool;
        let ghost ms1 = memory_set;
        proof {
            assert forall|p: u64| ms1.owns(p) implies !pool0.is_allocated(p) by {
                if ms1.page_table.tables().owns(p) {
                    let k = choose|k: int|
                        0 <= k < ms1.page_table.tables().frames.len() && ms1.page_table.tables().frames[k]
                            == p;
                    assert(k == 0);
                }
            }
        }
        memory_set.map_trampoline(crate::mm::address::PhysAddr(layout.strampoline), pool);
        proof {
            lemma_low_apart(0, 0, 0);
            assert forall|v: u64| v < 0x800_0000 && v != 0x7ff_ffff implies (#[trigger] memory_set.page_table.lookup(
                pool,
                v,
            )).is_none() by {
                lemma_low_apart(v, 0, 0);
            }
            assert forall|p: u64| memory_set.owns(p) implies !pool0.is_allocated(p) by {
                if !ms1.owns(p) {
                    assert(!pool1.is_allocated(p));
                }
            }
            assert forall|p: u64| pool0.is_allocated(p) implies #[trigger] pool.mem()[p] == pool0.mem()[p] by {
                assert(pool1.is_allocated(p));
                assert(!ms1.page_table.tables().owns(p));
            }
        }
        let sections: [(u64, u64, u8); 5] = [
            (layout.stext, layout.etext, 0x0a),
            (layout.srodata, layout.erodata, 0x02),
            (layout.sdata, layout.edata, 0x06),
            (layout.sbss_with_stack, layout.ebss, 0x06),
            (layout.ekernel, MEMORY_END, 0x06),
        ];
        assert(sections@ =~= secs);
        let mut i: usize = 0;
        while i < 5
            invariant
                i <= 5,
                sections@ == secs,
                secs == layout.sections(),
                layout.wf(),
                pool0 == *old(pool),
                pool0.allocator@.free_count() >= layout.cost(),
                memory_set.wf(pool),
                memory_set.areas@.len() == i,
                forall|a: int|
                    0 <= a < i ==> {
                        &&& (#[trigger] memory_set.areas@[a]).start() == page_down(secs[a].0)
                        &&& memory_set.areas@[a].end() == page_up(secs[a].1)
                        &&& memory_set.areas@[a].map_perm.bits == secs[a].2
                        &&& memory_set.areas@[a].map_type == MapType::Identical
                    },
                memory_set.page_table.lookup(pool, trampoline_vpn()) == Some(
                    trampoline_entry((layout.strampoline / 4096) as u64),
                ),
                forall|v: u64|
                    v < 0x7ff_ffff && !memory_set.in_area(v) ==> (#[trigger] memory_set.page_table.lookup(
                        pool,
                        v,
                    )).is_none(),
                forall|a: int|
                    0 <= a < i && i < 5 ==> (#[trigger] memory_set.areas@[a]).end() <= page_down(secs[i as int].0),
                pool.allocator@.free_count() >= pool0.allocator@.free_count() - layout.cost() + layout.cost_from(
                    i as int,
                ),
                pool.memory.base() == pool0.memory.base(),
                pool.memory.count() == pool0.memory.count(),
                forall|p: u64| pool0.is_allocated(p) ==> #[trigger] pool.mem()[p] == pool0.mem()[p],
                forall|p: u64| memory_set.owns(p) ==> !pool0.is_allocated(p),
                forall|p: u64| pool0.is_allocated(p) ==> pool.is_allocated(p),
            decreases 5 - i,
        {
            let (start, end, perm) = sections[i];
            let ghost ms_prev = memory_set;
            let ghost pool_prev = *pool;
            proof {
                layout.lemma_costs(i as int);
                layout.lemma_costs(i + 1);
                layout.lemma_sections(i as int);
                assert forall|v: u64| page_down(start) <= v < page_up(end) implies (
                #[trigger] memory_set.page_table.lookup(pool, v)).is_none() by {
                    if memory_set.in_area(v) {
                        let a = choose|a: int|
                            0 <= a < memory_set.areas@.len() && (#[trigger] memory_set.areas@[a]).start() <= v
                                < memory_set.areas@[a].end();
                        assert(memory_set.areas@[a].end() <= page_down(secs[i as int].0));
                    }
                }
            }
            memory_set.push_identical(start, end, perm, pool);
            proof {
                let n = i as int;
                let s = page_down(start);
                let e = page_up(end);
                lemma_low_apart(trampoline_vpn(), s, e);
                assert forall|a: int| 0 <= a < n implies #[trigger] memory_set.areas@[a] == ms_prev.areas@[a] by {
                    assert(memory_set.areas@.drop_last()[a] == ms_prev.areas@[a]);
                }
                assert(memory_set.areas@[n] == memory_set.areas@.last());
                assert forall|v: u64| v < 0x7ff_ffff && !memory_set.in_area(v) implies (
                #[trigger] memory_set.page_table.lookup(pool, v)).is_none() by {
                    assert(!(memory_set.areas@[n].start() <= v < memory_set.areas@[n].end()));
                    lemma_low_apart(v, s, e);
                    if ms_prev.in_area(v) {
                        let a = choose|a: int|
                            0 <= a < ms_prev.areas@.len() && (#[trigger] ms_prev.areas@[a]).start() <= v
                                < ms_prev.areas@[a].end();
                        assert(memory_set.areas@[a] == ms_prev.areas@[a]);
                    }
                }
                if n + 1 < 5 {
                    layout.lemma_sections(n + 1);
                }
                assert forall|a: int| 0 <= a < n + 1 && n + 1 < 5 implies (#[trigger] memory_set.areas@[a]).end()
                    <= page_down(secs[n + 1].0) by {
                    if a < n {
                        assert(ms_prev.areas@[a].end() <= page_down(secs[n].0));
                    }
                }
                assert forall|p: u64| memory_set.owns(p) implies !pool0.is_allocated(p) by {
                    if !ms_prev.owns(p) {
                        assert(!pool_prev.is_allocated(p));
                    }
                }
                assert forall|p: u64| pool0.is_allocated(p) implies #[trigger] pool.mem()[p] == pool0.mem()[p] by {
                    assert(pool_prev.is_allocated(p));
                    assert(!ms_prev.owns(p));
                }
            }
            i += 1;
        }
        proof {
            layout.lemma_costs(5);
        }
        memory_set
    }
}

impl KernelLayout {
    /// The five areas of the kernel: where each begins and ends, and the
    /// rights on it.
    pub open spec fn sections(&self) -> Seq<(u64, u64, u8)> {
        seq![
            (self.stext, self.etext, 0x0au8),
            (self.srodata, self.erodata, 0x02u8),
            (self.sdata, self.edata, 0x06u8),
            (self.sbss_with_stack, self.ebss, 0x06u8),
            (self.ekernel, MEMORY_END, 0x06u8),
        ]
    }

    /// Number of pages that the areas from number `i` on take from the pool at most.
    pub open spec fn cost_from(&self, i: int) -> int
        decreases 5 - i,
    {
        if i < 0 || i >= 5 {
            0
        } else {
            map_cost(
                page_down(self.sections()[i].0) as int,
                page_up(self.sections()[i].1) as int,
                false,
            ) + self.cost_from(i + 1)
        }
    }

    /// The cost of the whole is the cost of the parts.
    pub proof fn lemma_costs(&self, i: int)
        requires
            0 <= i <= 5,
        ensures
            self.cost() == 3 + self.cost_from(0),
            self.cost_from(i) >= 0,
            i < 5 ==> self.cost_from(i) == map_cost(
                page_down(self.sections()[i].0) as int,
                page_up(self.sections()[i].1) as int,
                false,
            ) + self.cost_from(i + 1),
        decreases 5 - i,
    {
        reveal_with_fuel(KernelLayout::cost_from, 6);
        if i < 5 {
            self.lemma_costs(i + 1);
            lemma_map_cost_nonneg(
                page_down(self.sections()[i].0) as int,
                page_up(self.sections()[i].1) as int,
                false,
            );
        }
    }

    /// Each area ends before the next begins, and all lie below the trampoline.
    pub proof fn lemma_sections(&self, i: int)
        requires
            self.wf(),
            0 <= i < 5,
        ensures
            self.sections()[i].0 <= self.sections()[i].1,
            page_up(self.sections()[i].1) < 0x7ff_ffff,
            i < 4 ==> page_up(self.sections()[i].1) <= page_down(self.sections()[i + 1].0),
    {
    }
}

} // verus!
