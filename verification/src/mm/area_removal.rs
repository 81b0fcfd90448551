use vstd::prelude::*;
use crate::mm::address::{key_of, VirtPageNum};
use crate::mm::frame_allocator::FramePool;
use crate::mm::memory_set::{apart_from, lemma_keys_apart, MapArea, MapType, MemorySet};
use crate::mm::page_table::PageTable;

verus! {

impl MapArea {
    /// Takes away the mapping of every page of the area, in their order;
    /// the pages that the area owns go back to the pool.
    #[verifier::spinoff_prover]
    pub fn unmap(&mut self, page_table: &mut PageTable, pool: &mut FramePool)
        requires
            old(self).wf(),
            old(self).mapped_in(old(page_table), old(pool)),
            old(page_table).wf(old(pool)),
            forall|v: u64|
                old(self).start() <= v < old(self).end() ==> (#[trigger] old(page_table).lookup(
                    old(pool),
                    v,
                )).is_some(),
        ensures
            final(self).wf(),
            final(self).data_frame@.len() == 0,
            final(self).vpn_range == old(self).vpn_range,
            final(self).map_type == old(self).map_type,
            final(self).map_perm == old(self).map_perm,
            final(page_table).wf(final(pool)),
            *final(page_table) == *old(page_table),
            forall|v: u64|
                old(self).start() <= v < old(self).end() ==> (#[trigger] final(page_table).lookup(
                    final(pool),
                    v,
                )).is_none(),
            forall|v: u64|
                apart_from(v, old(self).start(), old(self).end()) ==> #[trigger] final(page_table).lookup(
                    final(pool),
                    v,
                ) == old(page_table).lookup(old(pool), v),
            final(pool).memory.base() == old(pool).memory.base(),
            final(pool).memory.count() == old(pool).memory.count(),
            forall|p: u64|
                !old(page_table).tables().owns(p) ==> #[trigger] final(pool).mem()[p] == old(pool).mem()[p],
            forall|p: u64|
                old(pool).is_allocated(p) && !old(self).owns(p) ==> #[trigger] final(pool).is_allocated(p),
    {
        let start = self.vpn_range.get_start().0;
        let end = self.vpn_range.get_end().0;
        let mut vpn: u64 = start;
        while vpn < end
            invariant
                start == old(self).start(),
                end == old(self).end(),
                start <= vpn <= end,
                self.wf(),
                self.mapped_in(page_table, pool),
                self.vpn_range == old(self).vpn_range,
                self.map_type == old(self).map_type,
                self.map_perm == old(self).map_perm,
                page_table.wf(pool),
                *page_table == *old(page_table),
                forall|v: u64| vpn <= v < end ==> (#[trigger] page_table.lookup(pool, v)).is_some(),
                forall|v: u64| start <= v < vpn ==> (#[trigger] page_table.lookup(pool, v)).is_none(),
                forall|i: int| 0 <= i < self.data_frame@.len() ==> (#[trigger] self.data_frame@[i]).0.0 >= vpn,
                forall|i: int| 0 <= i < self.data_frame@.len() ==> old(self).owns((#[trigger] self.data_frame@[i]).1.ppn.0),
                forall|v: u64|
                    apart_from(v, start, end) ==> #[trigger] page_table.lookup(pool, v) == old(
                        page_table,
                    ).lookup(old(pool), v),
                pool.memory.base() == old(pool).memory.base(),
                pool.memory.count() == old(pool).memory.count(),
                forall|p: u64| !old(page_table).tables().owns(p) ==> #[trigger] pool.mem()[p] == old(pool).mem()[p],
                forall|p: u64| old(pool).is_allocated(p) && !old(self).owns(p) ==> #[trigger] pool.is_allocated(p),
            decreases end - vpn,
        {
            let ghost before = *self;
            let ghost pool1 = *pool;
            let ghost pt1 = *page_table;
            self.unmap_one(page_table, VirtPageNum(vpn), pool);
            proof {
                assert forall|v: u64| start <= v < end && v != vpn implies key_of(v) != key_of(vpn) by {
                    if v < vpn {
                        lemma_keys_apart(v, vpn);
                    } else {
                        lemma_keys_apart(vpn, v);
                    }
                }
                assert forall|v: u64| vpn + 1 <= v < end implies (#[trigger] page_table.lookup(pool, v)).is_some() by {
                    assert(pt1.lookup(&pool1, v).is_some());
                }
                assert forall|v: u64| start <= v < vpn + 1 implies (#[trigger] page_table.lookup(pool, v)).is_none() by {
                    if v < vpn {
                        assert(pt1.lookup(&pool1, v).is_none());
                    }
                }
                assert forall|v: u64| apart_from(v, start, end) implies #[trigger] page_table.lookup(pool, v) == old(
                    page_table,
                ).lookup(old(pool), v) by {
                    assert(key_of(v) != key_of(vpn));
                    assert(pt1.lookup(&pool1, v) == old(page_table).lookup(old(pool), v));
                }
                if before.has_frame(vpn) {
                    let k = choose|k: int|
                        0 <= k < before.data_frame@.len() && (#[trigger] before.data_frame@[k]).0.0 == vpn
                            && self.data_frame@ == before.data_frame@.remove(k) && pool.allocator@
                            == pool1.allocator@.after_dealloc(before.data_frame@[k].1.ppn.0);
                    let f = before.data_frame@[k].1.ppn.0;
                    assert(before.owns(f));
                    assert(old(self).owns(f));
                    assert forall|i: int| 0 <= i < self.data_frame@.len() implies (#[trigger] self.data_frame@[i]).0.0
                        >= vpn + 1 && old(self).owns(self.data_frame@[i].1.ppn.0) by {
                        let j = if i < k {
                            i
                        } else {
                            i + 1
                        };
                        assert(self.data_frame@[i] == before.data_frame@[j]);
                        assert(before.data_frame@[j].0.0 >= vpn);
                    }
                    assert forall|p: u64| old(pool).is_allocated(p) && !old(self).owns(p) implies #[trigger] pool.is_allocated(
                        p,
                    ) by {
                        assert(pool1.is_allocated(p));
                        crate::mm::memory_set::lemma_dealloc_others(pool1.allocator@, f, p);
                    }
                } else {
                    assert forall|i: int| 0 <= i < self.data_frame@.len() implies (#[trigger] self.data_frame@[i]).0.0
                        >= vpn + 1 by {
                        assert(before.data_frame@[i].0.0 >= vpn);
                    }
                    assert forall|p: u64| old(pool).is_allocated(p) && !old(self).owns(p) implies #[trigger] pool.is_allocated(
                        p,
                    ) by {
                        assert(pool1.is_allocated(p));
                    }
                }
            }
            vpn += 1;
        }
        proof {
            if self.data_frame@.len() > 0 {
                assert(self.data_frame@[0].0.0 >= end);
            }
        }
    }
}

} // verus!

verus! {

/// An area stays mapped where pages of others go back to the pool: the pages
/// it owns stay in use and the page table maps its pages as before.
pub proof fn lemma_area_stays(area: &MapArea, pt: &PageTable, p0: &FramePool, p1: &FramePool)
    requires
        area.mapped_whole(pt, p0),
        p1.memory.base() == p0.memory.base(),
        p1.memory.count() == p0.memory.count(),
        forall|p: u64| area.owns(p) ==> p1.is_allocated(p),
        forall|v: u64| area.start() <= v < area.end() ==> #[trigger] pt.lookup(p1, v) == pt.lookup(p0, v),
    ensures
        area.mapped_whole(pt, p1),
{
    assert forall|i: int| 0 <= i < area.data_frame@.len() implies {
        let ppn = (#[trigger] area.data_frame@[i]).1.ppn.0;
        &&& p1.is_allocated(ppn)
        &&& p1.memory.has(ppn)
        &&& !pt.tables().owns(ppn)
        &&& pt.lookup(p1, area.data_frame@[i].0.0) == Some(area.entry_for(ppn))
    } by {
        let ppn = area.data_frame@[i].1.ppn.0;
        let v = area.data_frame@[i].0.0;
        assert(area.owns(ppn));
        assert(pt.lookup(p0, v) == Some(area.entry_for(ppn)));
        assert(pt.lookup(p1, v) == pt.lookup(p0, v));
    }
    assert forall|v: u64| area.start() <= v < area.end() implies #[trigger] pt.lookup(p1, v) == Some(
        area.entry_for(area.target(v)),
    ) by {
        assert(pt.lookup(p0, v) == Some(area.entry_for(area.target(v))));
    }
}

/// Whether each page number that the page table tells apart from the
/// pages from `start` up to `end` is mapped in the address space `ks` with
/// the pool `p` as it is in `ks0` with the pool `p0`.
#[verifier::opaque]
pub open spec fn mapped_alike(ks0: &MemorySet, p0: &FramePool, ks: &MemorySet, p: &FramePool, start: u64, end: u64) -> bool {
    forall|v: u64| apart_from(v, start, end) ==> #[trigger] ks.lookup(p, v) == ks0.lookup(p0, v)
}

/// Whether no page number from `start` up to `end` is mapped in the
/// address space `ks`.
#[verifier::opaque]
pub open spec fn range_unmapped(ks: &MemorySet, p: &FramePool, start: u64, end: u64) -> bool {
    forall|v: u64| start <= v < end ==> (#[trigger] ks.lookup(p, v)).is_none()
}

/// What is not mapped stays so where the pool holds the same bytes.
pub proof fn lemma_unmapped_same_memory(ks: &MemorySet, p1: &FramePool, p2: &FramePool, start: u64, end: u64)
    requires
        range_unmapped(ks, p1, start, end),
        forall|v: u64| #[trigger] ks.lookup(p2, v) == ks.lookup(p1, v),
    ensures
        range_unmapped(ks, p2, start, end),
{
    reveal(range_unmapped);
}

/// What being mapped alike says of one page number.
pub proof fn lemma_alike_at(ks0: &MemorySet, p0: &FramePool, ks: &MemorySet, p: &FramePool, start: u64, end: u64, v: u64)
    requires
        mapped_alike(ks0, p0, ks, p, start, end),
        apart_from(v, start, end),
    ensures
        ks.lookup(p, v) == ks0.lookup(p0, v),
{
    reveal(mapped_alike);
}

/// What a range being unmapped says of one page number.
pub proof fn lemma_unmapped_at(ks: &MemorySet, p: &FramePool, start: u64, end: u64, v: u64)
    requires
        range_unmapped(ks, p, start, end),
        start <= v < end,
    ensures
        ks.lookup(p, v).is_none(),
{
    reveal(range_unmapped);
}

/// What is mapped alike stays so where the pool holds the same bytes.
pub proof fn lemma_alike_same_memory(
    ks0: &MemorySet,
    p0: &FramePool,
    ks: &MemorySet,
    p1: &FramePool,
    p2: &FramePool,
    start: u64,
    end: u64,
)
    requires
        mapped_alike(ks0, p0, ks, p1, start, end),
        forall|v: u64| #[trigger] ks.lookup(p2, v) == ks.lookup(p1, v),
    ensures
        mapped_alike(ks0, p0, ks, p2, start, end),
{
    reveal(mapped_alike);
}

impl MemorySet {
    /// Whether an area begins at page `vpn`.
    pub open spec fn has_area_at(&self, vpn: u64) -> bool {
        exists|a: int| 0 <= a < self.areas@.len() && (#[trigger] self.areas@[a]).start() == vpn
    }

    /// The place of the first area that begins at page `vpn`.
    pub open spec fn area_at(&self, vpn: u64) -> int {
        choose|a: int|
            0 <= a < self.areas@.len() && (#[trigger] self.areas@[a]).start() == vpn && forall|b: int|
                0 <= b < a ==> (#[trigger] self.areas@[b]).start() != vpn
    }

    /// The place of the first area that begins at page `vpn`, if there is one.
    pub fn find_area(&self, vpn: VirtPageNum) -> (r: Option<usize>)
        ensures
            r.is_some() == self.has_area_at(vpn.0),
            r.is_some() ==> r.unwrap() == self.area_at(vpn.0) && r.unwrap() < self.areas@.len()
                && self.areas@[r.unwrap() as int].start() == vpn.0,
    {
        let mut i: usize = 0;
        while i < self.areas.len()
            invariant
                i <= self.areas@.len(),
                forall|b: int| 0 <= b < i ==> (#[trigger] self.areas@[b]).start() != vpn.0,
            decreases self.areas@.len() - i,
        {
            if self.areas[i].vpn_range.get_start().0 == vpn.0 {
                proof {
                    let a = self.area_at(vpn.0);
                    assert(0 <= a < self.areas@.len() && self.areas@[a].start() == vpn.0 && forall|b: int|
                        0 <= b < a ==> (#[trigger] self.areas@[b]).start() != vpn.0) by {
                        assert(self.areas@[i as int].start() == vpn.0);
                    }
                    if a < i {
                        assert(self.areas@[a].start() != vpn.0);
                    } else if i < a {
                        assert(self.areas@[i as int].start() != vpn.0);
                    }
                }
                return Some(i);
            }
            i += 1;
        }
        None
    }

    /// Whether the page table tells each page of the other areas apart
    /// from every page of area `a`.
    pub open spec fn stands_apart(&self, a: int) -> bool {
        forall|b: int, w: u64|
            0 <= b < self.areas@.len() && b != a && (#[trigger] self.areas@[b]).start() <= w < self.areas@[b].end()
                ==> #[trigger] apart_from(w, self.areas@[a].start(), self.areas@[a].end())
    }

    /// The address space is in order after area `idx` was unmapped and
    /// taken out of it.
    pub proof fn lemma_area_removed(&self, before: &MemorySet, idx: int, pool: &FramePool, pool0: &FramePool)
        requires
            before.wf(pool0),
            0 <= idx < before.areas@.len(),
            before.stands_apart(idx),
            self.areas@ == before.areas@.remove(idx),
            self.page_table == before.page_table,
            self.page_table.wf(pool),
            pool.memory.base() == pool0.memory.base(),
            pool.memory.count() == pool0.memory.count(),
            forall|v: u64|
                apart_from(v, before.areas@[idx].start(), before.areas@[idx].end()) ==> #[trigger] self.page_table.lookup(
                    pool,
                    v,
                ) == self.page_table.lookup(pool0, v),
            forall|p: u64| pool0.is_allocated(p) && !before.areas@[idx].owns(p) ==> #[trigger] pool.is_allocated(p),
        ensures
            self.wf(pool),
    {
        let gone = before.areas@[idx];
        assert forall|b: int| 0 <= b < self.areas@.len() implies (#[trigger] self.areas@[b]).mapped_whole(
            &self.page_table,
            pool,
        ) by {
            let c = if b < idx {
                b
            } else {
                b + 1
            };
            let other = before.areas@[c];
            assert(self.areas@[b] == other);
            assert(other.mapped_whole(&before.page_table, pool0));
            assert forall|p: u64| other.owns(p) implies pool.is_allocated(p) by {
                let k = choose|k: int| 0 <= k < other.data_frame@.len() && (#[trigger] other.data_frame@[k]).1.ppn.0 == p;
                assert(pool0.is_allocated(other.data_frame@[k].1.ppn.0));
                if gone.owns(p) {
                    assert(before.areas@[idx].owns(p) && before.areas@[c].owns(p));
                }
            }
            assert forall|v: u64| other.start() <= v < other.end() implies #[trigger] self.page_table.lookup(pool, v)
                == self.page_table.lookup(pool0, v) by {
                assert(before.areas@[c].start() <= v < before.areas@[c].end());
                assert(apart_from(v, before.areas@[idx].start(), before.areas@[idx].end()));
            }
            lemma_area_stays(&other, &self.page_table, pool0, pool);
        }
        assert forall|a: int, b: int, p: u64|
            0 <= a < self.areas@.len() && 0 <= b < self.areas@.len() && #[trigger] self.areas@[a].owns(p)
                && #[trigger] self.areas@[b].owns(p) implies a == b by {
            let a1 = if a < idx {
                a
            } else {
                a + 1
            };
            let b1 = if b < idx {
                b
            } else {
                b + 1
            };
            assert(before.areas@[a1].owns(p) && before.areas@[b1].owns(p));
        }
    }

    /// Takes the first area that begins at page `start_vpn` out of the
    /// address space: its pages are unmapped, and the pages that it owns go
    /// back to the pool. Without such an area nothing changes.
    pub fn remove_area_with_start_vpn(&mut self, start_vpn: VirtPageNum, pool: &mut FramePool)
        requires
            old(self).wf(old(pool)),
            old(self).has_area_at(start_vpn.0) ==> old(self).stands_apart(old(self).area_at(start_vpn.0)),
        ensures
            final(self).wf(final(pool)),
            final(self).page_table == old(self).page_table,
            !old(self).has_area_at(start_vpn.0) ==> *final(self) == *old(self) && *final(pool) == *old(pool),
            old(self).has_area_at(start_vpn.0) ==> {
                let a = old(self).area_at(start_vpn.0);
                let area = old(self).areas@[a];
                &&& final(self).areas@ == old(self).areas@.remove(a)
                &&& forall|v: u64|
                    area.start() <= v < area.end() ==> (#[trigger] final(self).lookup(final(pool), v)).is_none()
                &&& forall|v: u64|
                    apart_from(v, area.start(), area.end()) ==> #[trigger] final(self).lookup(final(pool), v)
                        == old(self).lookup(old(pool), v)
                &&& forall|p: u64|
                    old(pool).is_allocated(p) && !area.owns(p) ==> #[trigger] final(pool).is_allocated(p)
            },
            final(pool).wf(),
            final(pool).memory.base() == old(pool).memory.base(),
            final(pool).memory.count() == old(pool).memory.count(),
            forall|p: u64|
                !old(self).page_table.tables().owns(p) ==> #[trigger] final(pool).mem()[p] == old(pool).mem()[p],
            forall|p: u64|
                old(pool).is_allocated(p) && !old(self).owns_data(p) ==> #[trigger] final(pool).is_allocated(p),
            forall|p: u64| #[trigger] final(self).owns(p) ==> old(self).owns(p),
            old(self).has_area_at(start_vpn.0) ==> mapped_alike(
                old(self),
                old(pool),
                final(self),
                final(pool),
                old(self).areas@[old(self).area_at(start_vpn.0)].start(),
                old(self).areas@[old(self).area_at(start_vpn.0)].end(),
            ) && range_unmapped(
                final(self),
                final(pool),
                old(self).areas@[old(self).area_at(start_vpn.0)].start(),
                old(self).areas@[old(self).area_at(start_vpn.0)].end(),
            ),
    {
        let ghost ms0 = *self;
        match self.find_area(start_vpn) {
            None => {},
            Some(idx) => {
                let mut area = self.areas.remove(idx);
                proof {
                    assert(area == ms0.areas@[idx as int]);
                    assert(area.mapped_whole(&ms0.page_table, old(pool)));
                }
                area.unmap(&mut self.page_table, pool);
                proof {
                    self.lemma_area_removed(&ms0, idx as int, pool, old(pool));
                    lemma_removed_owns(&ms0, self, idx as int);
                    reveal(mapped_alike);
                    reveal(range_unmapped);
                }
            },
        }
    }
}

/// An address space from which an area was taken out owns no page that
/// it did not own before, and the area that was taken out was one of its areas.
pub proof fn lemma_removed_owns(before: &MemorySet, after: &MemorySet, a: int)
    requires
        0 <= a < before.areas@.len(),
        after.areas@ == before.areas@.remove(a),
        after.page_table == before.page_table,
    ensures
        forall|p: u64| #[trigger] after.owns(p) ==> before.owns(p),
        forall|p: u64| before.areas@[a].owns(p) ==> #[trigger] before.owns_data(p),
{
    assert forall|p: u64| after.owns(p) implies before.owns(p) by {
        if !after.page_table.tables().owns(p) {
            let b = choose|b: int| 0 <= b < after.areas@.len() && (#[trigger] after.areas@[b]).owns(p);
            let c = if b < a {
                b
            } else {
                b + 1
            };
            assert(after.areas@[b] == before.areas@[c]);
            assert(before.areas@[c].owns(p));
        }
    }
}

} // verus!
