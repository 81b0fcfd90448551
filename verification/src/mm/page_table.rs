use vstd::prelude::*;
use crate::codec::{le_u64, with_u64, lemma_with_u64_other, lemma_with_u64_same, lemma_le_u64_of_bytes};
use crate::mm::address::{index_of, key_of, lemma_key_indexes, PhysAddr, PhysPageNum, VirtAddr, VirtPageNum};
use crate::mm::frame_allocator::{frame_alloc, lemma_alloc_fresh, FramePool, FrameTracker};
use crate::mm::phys_mem::zero_page;
use crate::mm::Memory;

verus! {

/// The entry is in use.
pub const PTE_V: u8 = 0x01;

/// The page can be read.
pub const PTE_R: u8 = 0x02;

/// The page can be written.
pub const PTE_W: u8 = 0x04;

/// The page can be executed.
pub const PTE_X: u8 = 0x08;

/// The page can be used in user mode.
pub const PTE_U: u8 = 0x10;

/// The mapping is global.
pub const PTE_G: u8 = 0x20;

/// The page was accessed.
pub const PTE_A: u8 = 0x40;

/// The page was written.
pub const PTE_D: u8 = 0x80;

/// The flags of a page-table entry: a set of the eight bits V, R, W, X, U, G, A, D.
#[derive(Copy, Clone, Debug, PartialEq, Eq, Structural)]
pub struct PTEFlags {
    pub bits: u8,
}

impl PTEFlags {
    /// The set of the flags whose bits are set in `bits`.
    pub fn from_bits(bits: u8) -> (r: Self)
        ensures
            r.bits == bits,
    {
        Self { bits }
    }

    /// The empty set.
    pub fn empty() -> (r: Self)
        ensures
            r.bits == 0,
    {
        Self { bits: 0 }
    }

    /// The flags of either set.
    pub fn union(self, other: Self) -> (r: Self)
        ensures
            r.bits == self.bits | other.bits,
    {
        Self { bits: self.bits | other.bits }
    }

    /// Whether every flag of `other` is in this set.
    pub fn contains(self, other: Self) -> (r: bool)
        ensures
            r == (self.bits & other.bits == other.bits),
    {
        self.bits & other.bits == other.bits
    }

    /// Whether the set is empty.
    pub fn is_empty(self) -> (r: bool)
        ensures
            r == (self.bits == 0),
    {
        self.bits == 0
    }
}

/// The page number held in an entry: bits 10 to 53.
pub open spec fn pte_ppn(bits: u64) -> u64 {
    (bits >> 10) & 0xfff_ffff_ffff
}

/// The flags held in an entry: bits 0 to 7.
pub open spec fn pte_flags(bits: u64) -> u8 {
    (bits & 0xff) as u8
}

/// Whether an entry is in use.
pub open spec fn is_valid(bits: u64) -> bool {
    bits & 1 == 1
}

/// The entry for page `ppn` with the flags `flags`.
pub open spec fn pte_bits(ppn: u64, flags: u8) -> u64 {
    (ppn << 10) | (flags as u64)
}

/// An entry holds the page number and the flags it was made of.
pub proof fn lemma_pte_bits(ppn: u64, flags: u8)
    requires
        ppn < 0x1000_0000_0000,
    ensures
        pte_ppn(pte_bits(ppn, flags)) == ppn,
        pte_flags(pte_bits(ppn, flags)) == flags,
        is_valid(pte_bits(ppn, flags)) == (flags & 1 == 1),
        is_valid(pte_bits(ppn, flags | 1)),
        !is_valid(0),
{
    assert(ppn < 0x1000_0000_0000 ==> (((ppn << 10) | (flags as u64)) >> 10) & 0xfff_ffff_ffff == ppn)
        by (bit_vector);
    assert(ppn < 0x1000_0000_0000 ==> ((((ppn << 10) | (flags as u64)) & 0xff) as u8) == flags)
        by (bit_vector);
    assert((((ppn << 10) | (flags as u64)) & 1 == 1) == (flags & 1 == 1)) by (bit_vector);
    assert((flags | 1) & 1 == 1) by (bit_vector);
    assert((((ppn << 10) | ((flags | 1) as u64)) & 1 == 1)) by (bit_vector);
    assert(0u64 & 1 != 1) by (bit_vector);
}

/// An entry of a page table: 64 bits that hold a page number and flags.
#[derive(Copy, Clone, Debug, PartialEq, Eq, Structural)]
pub struct PageTableEntry {
    pub bits: u64,
}

impl PageTableEntry {
    /// The entry for page `ppn` with the flags `flags`.
    pub fn new(ppn: PhysPageNum, flags: PTEFlags) -> (r: Self)
        ensures
            r.bits == pte_bits(ppn.0, flags.bits),
    {
        Self { bits: (ppn.0 << 10) | (flags.bits as u64) }
    }

    /// The entry that is not in use.
    pub fn empty() -> (r: Self)
        ensures
            r.bits == 0,
    {
        Self { bits: 0 }
    }

    /// The page number held in the entry.
    pub fn ppn(&self) -> (r: PhysPageNum)
        ensures
            r.0 == pte_ppn(self.bits),
            r.0 < 0x1000_0000_0000,
    {
        let b = self.bits;
        assert((b >> 10) & 0xfff_ffff_ffff < 0x1000_0000_0000) by (bit_vector);
        PhysPageNum((self.bits >> 10) & 0xfff_ffff_ffff)
    }

    /// The flags held in the entry.
    pub fn flags(&self) -> (r: PTEFlags)
        ensures
            r.bits == pte_flags(self.bits),
    {
        PTEFlags::from_bits((self.bits & 0xff) as u8)
    }

    /// Whether the entry is in use.
    pub fn is_valid(&self) -> (r: bool)
        ensures
            r == is_valid(self.bits),
    {
        self.bits & 1 == 1
    }

    /// Whether the page can be executed.
    pub fn executable(&self) -> (r: bool)
        ensures
            r == (pte_flags(self.bits) & PTE_X != 0),
    {
        let b = self.bits;
        assert((b & 8 != 0) == ((b & 0xff) as u8 & 8u8 != 0)) by (bit_vector);
        self.bits & 8 != 0
    }

    /// Whether the page can be read.
    pub fn readable(&self) -> (r: bool)
        ensures
            r == (pte_flags(self.bits) & PTE_R != 0),
    {
        let b = self.bits;
        assert((b & 2 != 0) == ((b & 0xff) as u8 & 2u8 != 0)) by (bit_vector);
        self.bits & 2 != 0
    }

    /// Whether the page can be written.
    pub fn writable(&self) -> (r: bool)
        ensures
            r == (pte_flags(self.bits) & PTE_W != 0),
    {
        let b = self.bits;
        assert((b & 4 != 0) == ((b & 0xff) as u8 & 4u8 != 0)) by (bit_vector);
        self.bits & 4 != 0
    }
}

/// Entry `idx` of the table in page `ppn`.
pub open spec fn entry(mem: Memory, ppn: u64, idx: int) -> u64 {
    le_u64(mem[ppn], 8 * idx)
}

/// The page and the index in it of the leaf entry for page number `vpn`, in
/// the table rooted at page `root`; `None` where the way to it is not laid.
pub open spec fn leaf_slot(mem: Memory, root: u64, vpn: u64) -> Option<(u64, int)> {
    if !mem.dom().contains(root) {
        None
    } else {
        let e0 = entry(mem, root, index_of(vpn, 0) as int);
        if !is_valid(e0) || !mem.dom().contains(pte_ppn(e0)) {
            None
        } else {
            let e1 = entry(mem, pte_ppn(e0), index_of(vpn, 1) as int);
            if !is_valid(e1) || !mem.dom().contains(pte_ppn(e1)) {
                None
            } else {
                Some((pte_ppn(e1), index_of(vpn, 2) as int))
            }
        }
    }
}

/// The entry to which the table rooted at page `root` maps page number
/// `vpn`; `None` where it maps it to nothing.
pub open spec fn walk(mem: Memory, root: u64, vpn: u64) -> Option<u64> {
    match leaf_slot(mem, root, vpn) {
        Some((p, i)) => if is_valid(entry(mem, p, i)) {
            Some(entry(mem, p, i))
        } else {
            None
        },
        None => None,
    }
}

/// Number of tables that have to be added before page number `vpn` can be mapped.
pub open spec fn missing_tables(mem: Memory, root: u64, vpn: u64) -> int {
    let e0 = entry(mem, root, index_of(vpn, 0) as int);
    if !is_valid(e0) {
        2
    } else if !is_valid(entry(mem, pte_ppn(e0), index_of(vpn, 1) as int)) {
        1
    } else {
        0
    }
}

/// The tables of a page table: their pages, and the level of each (0 for
/// the root, 2 for the tables that hold leaf entries).
pub struct TableView {
    pub root: u64,
    pub frames: Seq<u64>,
    pub levels: Seq<nat>,
}

impl TableView {
    /// Whether page `ppn` is a table of level `level`.
    pub open spec fn is_table(self, ppn: u64, level: nat) -> bool {
        exists|j: int| 0 <= j < self.frames.len() && #[trigger] self.frames[j] == ppn && self.levels[j] == level
    }

    /// The table that page `ppn` holds.
    pub open spec fn table_of(self, ppn: u64, level: nat) -> int {
        choose|j: int| 0 <= j < self.frames.len() && #[trigger] self.frames[j] == ppn && self.levels[j] == level
    }

    /// Entry `idx` of table `i`.
    pub open spec fn slot(self, mem: Memory, i: int, idx: int) -> u64 {
        entry(mem, self.frames[i], idx)
    }

    /// The tables form a tree below the root: each entry in use of a table
    /// of level 0 or 1 names a table of the next level, and no table is
    /// named twice.
    pub open spec fn wf(self, mem: Memory) -> bool {
        &&& self.frames.len() >= 1
        &&& self.levels.len() == self.frames.len()
        &&& self.frames[0] == self.root
        &&& self.levels[0] == 0
        &&& forall|i: int| 0 < i < self.frames.len() ==> 1 <= #[trigger] self.levels[i] <= 2
        &&& forall|i: int|
            0 <= i < self.frames.len() ==> mem.dom().contains(#[trigger] self.frames[i])
                && mem[self.frames[i]].len() == 4096 && self.frames[i] < 0x1000_0000_0000
        &&& forall|i: int, j: int|
            0 <= i < self.frames.len() && 0 <= j < self.frames.len() && #[trigger] self.frames[i]
                == #[trigger] self.frames[j] ==> i == j
        &&& forall|i: int, idx: int|
            0 <= i < self.frames.len() && 0 <= idx < 512 && self.levels[i] < 2 && is_valid(
                #[trigger] self.slot(mem, i, idx),
            ) ==> self.is_table(pte_ppn(self.slot(mem, i, idx)), self.levels[i] + 1)
        &&& forall|i: int, idx: int, i2: int, idx2: int|
            0 <= i < self.frames.len() && 0 <= idx < 512 && self.levels[i] < 2 && 0 <= i2
                < self.frames.len() && 0 <= idx2 < 512 && self.levels[i2] < 2 && is_valid(
                #[trigger] self.slot(mem, i, idx),
            ) && is_valid(#[trigger] self.slot(mem, i2, idx2)) && pte_ppn(self.slot(mem, i, idx))
                == pte_ppn(self.slot(mem, i2, idx2)) ==> i == i2 && idx == idx2
    }

    /// Whether page `ppn` is one of the tables.
    pub open spec fn owns(self, ppn: u64) -> bool {
        self.frames.contains(ppn)
    }
}

/// A page of zero bytes holds no entry that is in use.
pub proof fn lemma_zero_page_entry(idx: int)
    requires
        0 <= idx < 512,
    ensures
        le_u64(zero_page(), 8 * idx) == 0,
        !is_valid(le_u64(zero_page(), 8 * idx)),
{
    assert(crate::codec::u64_bytes(0u64) =~= seq![0u8, 0u8, 0u8, 0u8, 0u8, 0u8, 0u8, 0u8]) by {
        assert((0u64 & 0xff) as u8 == 0u8 && ((0u64 >> 8) & 0xff) as u8 == 0u8 && ((0u64 >> 16) & 0xff) as u8
            == 0u8 && ((0u64 >> 24) & 0xff) as u8 == 0u8 && ((0u64 >> 32) & 0xff) as u8 == 0u8 && ((0u64
            >> 40) & 0xff) as u8 == 0u8 && ((0u64 >> 48) & 0xff) as u8 == 0u8 && ((0u64 >> 56) & 0xff) as u8
            == 0u8) by (bit_vector);
    }
    lemma_le_u64_of_bytes(zero_page(), 8 * idx, 0u64);
    assert(0u64 & 1 != 1) by (bit_vector);
}

/// The way to the leaf entry of a page number leads through one table of
/// each level.
pub proof fn lemma_leaf_path(t: TableView, mem: Memory, vpn: u64)
    requires
        t.wf(mem),
    ensures
        leaf_slot(mem, t.root, vpn).is_some() <==> missing_tables(mem, t.root, vpn) == 0,
        is_valid(entry(mem, t.root, index_of(vpn, 0) as int)) ==> t.is_table(
            pte_ppn(entry(mem, t.root, index_of(vpn, 0) as int)),
            1,
        ),
        leaf_slot(mem, t.root, vpn).is_some() ==> t.is_table(leaf_slot(mem, t.root, vpn).unwrap().0, 2),
{
    lemma_key_indexes(vpn, vpn);
    let i0 = index_of(vpn, 0) as int;
    let i1 = index_of(vpn, 1) as int;
    let e0 = t.slot(mem, 0, i0);
    assert(mem.dom().contains(t.frames[0]));
    if is_valid(e0) {
        assert(t.is_table(pte_ppn(e0), 1));
        let j1 = t.table_of(pte_ppn(e0), 1);
        assert(mem.dom().contains(t.frames[j1]));
        let e1 = t.slot(mem, j1, i1);
        if is_valid(e1) {
            assert(t.is_table(pte_ppn(e1), 2));
            let j2 = t.table_of(pte_ppn(e1), 2);
            assert(mem.dom().contains(t.frames[j2]));
        }
    }
}

/// Writing a leaf entry changes what the page table maps that page number
/// to, and nothing else.
pub proof fn lemma_set_leaf(t: TableView, mem: Memory, vpn: u64, bits: u64)
    requires
        t.wf(mem),
        leaf_slot(mem, t.root, vpn).is_some(),
    ensures
        ({
            let (p, i) = leaf_slot(mem, t.root, vpn).unwrap();
            let mem2 = mem.insert(p, with_u64(mem[p], 8 * i, bits));
            &&& t.wf(mem2)
            &&& walk(mem2, t.root, vpn) == if is_valid(bits) {
                Some(bits)
            } else {
                None
            }
            &&& forall|v: u64| key_of(v) != key_of(vpn) ==> #[trigger] walk(mem2, t.root, v) == walk(mem, t.root, v)
            &&& forall|v: u64| #[trigger] leaf_slot(mem2, t.root, v) == leaf_slot(mem, t.root, v)
        }),
{
    let (p, i) = leaf_slot(mem, t.root, vpn).unwrap();
    let mem2 = mem.insert(p, with_u64(mem[p], 8 * i, bits));
    lemma_leaf_path(t, mem, vpn);
    lemma_key_indexes(vpn, vpn);
    let j2 = t.table_of(p, 2);
    assert(t.frames[j2] == p && t.levels[j2] == 2);
    lemma_with_u64_same(mem[p], 8 * i, bits);
    assert(mem2.dom() =~= mem.dom());
    // tables of level 0 and 1 are untouched
    assert forall|k: int, idx: int| 0 <= k < t.frames.len() && t.levels[k] < 2 implies #[trigger] t.slot(
        mem2,
        k,
        idx,
    ) == t.slot(mem, k, idx) by {
        assert(t.frames[k] != t.frames[j2]);
    }
    assert(t.wf(mem2)) by {
        assert forall|k: int| 0 <= k < t.frames.len() implies mem2.dom().contains(#[trigger] t.frames[k])
            && mem2[t.frames[k]].len() == 4096 by {
            if t.frames[k] == p {
            }
        }
    }
    assert forall|v: u64| #[trigger] leaf_slot(mem2, t.root, v) == leaf_slot(mem, t.root, v) by {
        lemma_leaf_same(t, mem, mem2, v);
    }
    assert forall|v: u64| key_of(v) != key_of(vpn) implies #[trigger] walk(mem2, t.root, v) == walk(
        mem,
        t.root,
        v,
    ) by {
        lemma_leaf_same(t, mem, mem2, v);
        lemma_key_indexes(v, vpn);
        lemma_leaf_path(t, mem, v);
        if leaf_slot(mem, t.root, v).is_some() {
            let (q, k) = leaf_slot(mem, t.root, v).unwrap();
            if q == p {
                // the same leaf table is reached by one way only
                let a0 = index_of(v, 0) as int;
                let b0 = index_of(vpn, 0) as int;
                let a1 = index_of(v, 1) as int;
                let b1 = index_of(vpn, 1) as int;
                let ja = t.table_of(pte_ppn(t.slot(mem, 0, a0)), 1);
                let jb = t.table_of(pte_ppn(t.slot(mem, 0, b0)), 1);
                assert(t.is_table(pte_ppn(t.slot(mem, 0, a0)), 1));
                assert(t.is_table(pte_ppn(t.slot(mem, 0, b0)), 1));
                assert(is_valid(t.slot(mem, ja, a1)));
                assert(is_valid(t.slot(mem, jb, b1)));
                assert(ja == jb && a1 == b1);
                assert(a0 == b0);
                assert(k != i);
                lemma_with_u64_other(mem[p], 8 * i, bits, 8 * k);
            }
        }
    }
}

/// Where the tables of level 0 and 1 hold the same entries, the way to every
/// leaf entry is the same.
pub proof fn lemma_leaf_same(t: TableView, mem: Memory, mem2: Memory, v: u64)
    requires
        t.wf(mem),
        mem2.dom() == mem.dom(),
        forall|k: int, idx: int|
            0 <= k < t.frames.len() && t.levels[k] < 2 ==> #[trigger] t.slot(mem2, k, idx) == t.slot(
                mem,
                k,
                idx,
            ),
    ensures
        leaf_slot(mem2, t.root, v) == leaf_slot(mem, t.root, v),
{
    lemma_key_indexes(v, v);
    let i0 = index_of(v, 0) as int;
    let i1 = index_of(v, 1) as int;
    assert(t.slot(mem2, 0, i0) == t.slot(mem, 0, i0));
    let e0 = t.slot(mem, 0, i0);
    assert(mem.dom().contains(t.frames[0]));
    if is_valid(e0) {
        assert(t.is_table(pte_ppn(e0), 1));
        let j1 = t.table_of(pte_ppn(e0), 1);
        assert(t.slot(mem2, j1, i1) == t.slot(mem, j1, i1));
    }
}


/// The memory after a fresh page `f` was made an empty table and entered at
/// index `idx` of table page `p`.
pub open spec fn with_table(mem: Memory, p: u64, idx: int, f: u64) -> Memory {
    let m1 = mem.insert(f, zero_page());
    m1.insert(p, with_u64(m1[p], 8 * idx, pte_bits(f, PTE_V)))
}

/// Adding an empty table under an entry that was not in use keeps the tables
/// a tree and changes nothing of what the page table maps.
pub proof fn lemma_add_table(t: TableView, mem: Memory, i: int, idx: int, f: u64)
    requires
        t.wf(mem),
        0 <= i < t.frames.len(),
        t.levels[i] < 2,
        0 <= idx < 512,
        !is_valid(t.slot(mem, i, idx)),
        !t.owns(f),
        f < 0x1000_0000_0000,
        mem.dom().contains(f),
    ensures
        ({
            let m2 = with_table(mem, t.frames[i], idx, f);
            let t2 = TableView { frames: t.frames.push(f), levels: t.levels.push(t.levels[i] + 1), ..t };
            &&& t2.wf(m2)
            &&& m2.dom() == mem.dom()
            &&& forall|v: u64| #[trigger] walk(m2, t.root, v) == walk(mem, t.root, v)
            &&& t.slot(m2, i, idx) == pte_bits(f, PTE_V)
            &&& forall|k: int, x: int|
                0 <= k < t.frames.len() && 0 <= x < 512 && !(k == i && x == idx) ==> #[trigger] t.slot(
                    m2,
                    k,
                    x,
                ) == t.slot(mem, k, x)
            &&& forall|x: int| 0 <= x < 512 ==> #[trigger] entry(m2, f, x) == 0
            &&& forall|p: u64| p != f && p != t.frames[i] ==> #[trigger] m2[p] == mem[p]
        }),
{
    let p = t.frames[i];
    let m1 = mem.insert(f, zero_page());
    let m2 = with_table(mem, p, idx, f);
    let t2 = TableView { frames: t.frames.push(f), levels: t.levels.push(t.levels[i] + 1), ..t };
    let n = t.frames.len() as int;
    let bits = pte_bits(f, PTE_V);
    lemma_pte_bits(f, PTE_V);
    assert(PTE_V & 1 == 1) by (bit_vector);
    assert(p != f) by {
        if p == f {
            assert(t.frames.contains(f));
        }
    }
    assert(m1[p] == mem[p]);
    assert(m2.dom() =~= mem.dom());
    lemma_with_u64_same(mem[p], 8 * idx, bits);
    assert forall|k: int, x: int|
        0 <= k < n && 0 <= x < 512 && !(k == i && x == idx) implies #[trigger] t.slot(m2, k, x) == t.slot(
        mem,
        k,
        x,
    ) by {
        if k == i {
            lemma_with_u64_other(mem[p], 8 * idx, bits, 8 * x);
        } else {
            assert(t.frames[k] != p);
            assert(t.frames[k] != f) by {
                if t.frames[k] == f {
                    assert(t.frames.contains(f));
                }
            }
        }
    }
    assert forall|x: int| 0 <= x < 512 implies #[trigger] entry(m2, f, x) == 0 by {
        lemma_zero_page_entry(x);
    }
    assert forall|k: int, x: int| 0 <= k < n implies #[trigger] t2.slot(m2, k, x) == t.slot(m2, k, x) by {}
    assert forall|k: int| 0 <= k < n implies #[trigger] t2.frames[k] == t.frames[k] && t2.levels[k]
        == t.levels[k] by {}
    assert(t2.frames[n] == f && t2.levels[n] == t.levels[i] + 1);
    // tables of the old tree are tables of the new one
    assert forall|q: u64, l: nat| t.is_table(q, l) implies t2.is_table(q, l) by {
        let j = t.table_of(q, l);
        assert(t2.frames[j] == q && t2.levels[j] == l);
    }
    assert(t2.is_table(f, (t.levels[i] + 1) as nat));
    assert(t2.wf(m2)) by {
        assert forall|k: int| 0 <= k < t2.frames.len() implies m2.dom().contains(#[trigger] t2.frames[k])
            && m2[t2.frames[k]].len() == 4096 && t2.frames[k] < 0x1000_0000_0000 by {
            if k < n {
                assert(t2.frames[k] == t.frames[k]);
                if k != i {
                    assert(t.frames[k] != p);
                    assert(t.frames[k] != f) by {
                        if t.frames[k] == f {
                            assert(t.frames.contains(f));
                        }
                    }
                }
            }
        }
        assert forall|a: int, b: int|
            0 <= a < t2.frames.len() && 0 <= b < t2.frames.len() && #[trigger] t2.frames[a]
                == #[trigger] t2.frames[b] implies a == b by {
            if a < n && b < n {
                assert(t.frames[a] == t.frames[b]);
            } else if a < n {
                assert(t.frames[a] == f);
                assert(t.frames.contains(f));
            } else if b < n {
                assert(t.frames[b] == f);
                assert(t.frames.contains(f));
            }
        }
        assert forall|k: int, x: int|
            0 <= k < t2.frames.len() && 0 <= x < 512 && t2.levels[k] < 2 && is_valid(
                #[trigger] t2.slot(m2, k, x),
            ) implies t2.is_table(pte_ppn(t2.slot(m2, k, x)), t2.levels[k] + 1) by {
            if k == n {
                assert(t2.slot(m2, k, x) == entry(m2, f, x));
            } else if k == i && x == idx {
                assert(t2.slot(m2, k, x) == t.slot(m2, i, idx));
            } else {
                assert(t2.slot(m2, k, x) == t.slot(m2, k, x));
                assert(t.slot(m2, k, x) == t.slot(mem, k, x));
                assert(t.is_table(pte_ppn(t.slot(mem, k, x)), t.levels[k] + 1));
            }
        }
        assert forall|a: int, x: int, b: int, y: int|
            0 <= a < t2.frames.len() && 0 <= x < 512 && t2.levels[a] < 2 && 0 <= b < t2.frames.len() && 0
                <= y < 512 && t2.levels[b] < 2 && is_valid(#[trigger] t2.slot(m2, a, x)) && is_valid(
                #[trigger] t2.slot(m2, b, y),
            ) && pte_ppn(t2.slot(m2, a, x)) == pte_ppn(t2.slot(m2, b, y)) implies a == b && x == y by {
            if a == n {
                assert(t2.slot(m2, a, x) == entry(m2, f, x));
            } else if b == n {
                assert(t2.slot(m2, b, y) == entry(m2, f, y));
            } else {
                assert(t2.slot(m2, a, x) == t.slot(m2, a, x));
                assert(t2.slot(m2, b, y) == t.slot(m2, b, y));
                let new_a = a == i && x == idx;
                let new_b = b == i && y == idx;
                if new_a && !new_b {
                    assert(t.slot(m2, b, y) == t.slot(mem, b, y));
                    assert(t.is_table(pte_ppn(t.slot(mem, b, y)), t.levels[b] + 1));
                    let j = t.table_of(pte_ppn(t.slot(mem, b, y)), t.levels[b] + 1);
                    assert(t.frames[j] == f);
                    assert(t.frames.contains(f));
                } else if new_b && !new_a {
                    assert(t.slot(m2, a, x) == t.slot(mem, a, x));
                    assert(t.is_table(pte_ppn(t.slot(mem, a, x)), t.levels[a] + 1));
                    let j = t.table_of(pte_ppn(t.slot(mem, a, x)), t.levels[a] + 1);
                    assert(t.frames[j] == f);
                    assert(t.frames.contains(f));
                } else if !new_a && !new_b {
                    assert(t.slot(m2, a, x) == t.slot(mem, a, x));
                    assert(t.slot(m2, b, y) == t.slot(mem, b, y));
                }
            }
        }
    }
    assert forall|v: u64| #[trigger] walk(m2, t.root, v) == walk(mem, t.root, v) by {
        lemma_key_indexes(v, v);
        let a0 = index_of(v, 0) as int;
        let a1 = index_of(v, 1) as int;
        let a2 = index_of(v, 2) as int;
        assert(mem.dom().contains(t.frames[0]));
        if i == 0 && idx == a0 {
            assert(t.slot(m2, 0, a0) == bits);
            assert(entry(m2, f, a1) == 0);
        } else {
            assert(t.slot(m2, 0, a0) == t.slot(mem, 0, a0));
            let e0 = t.slot(mem, 0, a0);
            if is_valid(e0) {
                assert(t.is_table(pte_ppn(e0), 1));
                let j1 = t.table_of(pte_ppn(e0), 1);
                assert(mem.dom().contains(t.frames[j1]));
                if i == j1 && idx == a1 {
                    assert(t.slot(m2, j1, a1) == bits);
                    assert(entry(m2, f, a2) == 0);
                } else {
                    assert(t.slot(m2, j1, a1) == t.slot(mem, j1, a1));
                    let e1 = t.slot(mem, j1, a1);
                    if is_valid(e1) {
                        assert(t.is_table(pte_ppn(e1), 2));
                        let j2 = t.table_of(pte_ppn(e1), 2);
                        assert(mem.dom().contains(t.frames[j2]));
                        assert(j2 != i);
                        assert(t.slot(m2, j2, a2) == t.slot(mem, j2, a2));
                    }
                }
            }
        }
    }
}

/// Where every table holds what it held, the tables are the same tree and
/// the page table maps what it mapped: writing to other pages changes nothing.
pub proof fn lemma_tables_untouched(t: TableView, mem: Memory, mem2: Memory)
    requires
        t.wf(mem),
        forall|p: u64| mem.dom().contains(p) ==> #[trigger] mem2.dom().contains(p),
        forall|i: int| 0 <= i < t.frames.len() ==> mem2[#[trigger] t.frames[i]] == mem[t.frames[i]],
    ensures
        t.wf(mem2),
        forall|v: u64| #[trigger] walk(mem2, t.root, v) == walk(mem, t.root, v),
        forall|v: u64| #[trigger] leaf_slot(mem2, t.root, v) == leaf_slot(mem, t.root, v),
        forall|v: u64| #[trigger] missing_tables(mem2, t.root, v) == missing_tables(mem, t.root, v),
{
    assert forall|k: int, x: int| 0 <= k < t.frames.len() implies #[trigger] t.slot(mem2, k, x) == t.slot(
        mem,
        k,
        x,
    ) by {
        assert(mem2[t.frames[k]] == mem[t.frames[k]]);
    }
    assert(t.wf(mem2));
    assert forall|v: u64| #[trigger] walk(mem2, t.root, v) == walk(mem, t.root, v) by {
        lemma_untouched_at(t, mem, mem2, v);
    }
    assert forall|v: u64| #[trigger] leaf_slot(mem2, t.root, v) == leaf_slot(mem, t.root, v) by {
        lemma_untouched_at(t, mem, mem2, v);
    }
    assert forall|v: u64| #[trigger] missing_tables(mem2, t.root, v) == missing_tables(mem, t.root, v) by {
        lemma_untouched_at(t, mem, mem2, v);
    }
}

proof fn lemma_untouched_at(t: TableView, mem: Memory, mem2: Memory, v: u64)
    requires
        t.wf(mem),
        forall|p: u64| mem.dom().contains(p) ==> #[trigger] mem2.dom().contains(p),
        forall|k: int, x: int| 0 <= k < t.frames.len() ==> #[trigger] t.slot(mem2, k, x) == t.slot(mem, k, x),
    ensures
        walk(mem2, t.root, v) == walk(mem, t.root, v),
        leaf_slot(mem2, t.root, v) == leaf_slot(mem, t.root, v),
        missing_tables(mem2, t.root, v) == missing_tables(mem, t.root, v),
{
    lemma_key_indexes(v, v);
    let a0 = index_of(v, 0) as int;
    let a1 = index_of(v, 1) as int;
    let a2 = index_of(v, 2) as int;
    assert(mem.dom().contains(t.frames[0]));
    assert(t.slot(mem2, 0, a0) == t.slot(mem, 0, a0));
    let e0 = t.slot(mem, 0, a0);
    if is_valid(e0) {
        assert(t.is_table(pte_ppn(e0), 1));
        let j1 = t.table_of(pte_ppn(e0), 1);
        assert(mem.dom().contains(t.frames[j1]));
        assert(t.slot(mem2, j1, a1) == t.slot(mem, j1, a1));
        let e1 = t.slot(mem, j1, a1);
        if is_valid(e1) {
            assert(t.is_table(pte_ppn(e1), 2));
            let j2 = t.table_of(pte_ppn(e1), 2);
            assert(mem.dom().contains(t.frames[j2]));
            assert(t.slot(mem2, j2, a2) == t.slot(mem, j2, a2));
        }
    }
}


/// A page table of three levels. It owns the pages of its tables.
pub struct PageTable {
    pub root_ppn: PhysPageNum,
    pub frames: Vec<FrameTracker>,
    pub levels: Ghost<Seq<nat>>,
}

impl PageTable {
    /// The tables of the page table.
    pub open spec fn tables(&self) -> TableView {
        TableView {
            root: self.root_ppn.0,
            frames: Seq::new(self.frames@.len(), |i: int| self.frames@[i].ppn.0),
            levels: self.levels@,
        }
    }

    /// The tables form a tree in the memory of `pool`, and their pages are in use.
    pub open spec fn wf(&self, pool: &FramePool) -> bool {
        &&& pool.wf()
        &&& self.tables().wf(pool.mem())
        &&& forall|i: int|
            0 <= i < self.frames@.len() ==> pool.is_allocated(#[trigger] self.tables().frames[i])
    }

    /// The entry to which page number `vpn` is mapped.
    pub open spec fn lookup(&self, pool: &FramePool, vpn: u64) -> Option<u64> {
        walk(pool.mem(), self.root_ppn.0, vpn)
    }

    /// A page table that maps nothing.
    pub fn new(pool: &mut FramePool) -> (r: Self)
        requires
            old(pool).wf(),
            old(pool).allocator@.can_alloc(),
        ensures
            r.wf(final(pool)),
            r.root_ppn.0 == old(pool).allocator@.next(),
            r.tables().frames == seq![r.root_ppn.0],
            final(pool).allocator@ == old(pool).allocator@.after_alloc(),
            final(pool).mem() == old(pool).mem().insert(r.root_ppn.0, zero_page()),
            final(pool).memory.base() == old(pool).memory.base(),
            final(pool).memory.count() == old(pool).memory.count(),
            forall|v: u64| r.lookup(final(pool), v).is_none(),
    {
        proof {
            lemma_alloc_fresh(pool.allocator@);
            pool.memory.lemma_view();
        }
        let frame = frame_alloc(pool).unwrap();
        let root_ppn = frame.ppn;
        let mut frames = Vec::new();
        frames.push(frame);
        let r = Self { root_ppn, frames, levels: Ghost(Seq::<nat>::empty().push(0nat)) };
        proof {
            pool.memory.lemma_view();
            let t = r.tables();
            let mem = pool.mem();
            assert(t.frames =~= seq![root_ppn.0]);
            assert forall|i: int, idx: int| 0 <= i < 1 && 0 <= idx < 512 implies !is_valid(
                #[trigger] t.slot(mem, i, idx),
            ) by {
                lemma_zero_page_entry(idx);
            }
            assert(t.wf(mem));
            assert forall|v: u64| r.lookup(pool, v).is_none() by {
                lemma_key_indexes(v, v);
                assert(!is_valid(t.slot(mem, 0, index_of(v, 0) as int)));
            }
        }
        r
    }

    /// The page table that `satp` names, to look things up in. It owns no page.
    pub fn from_token(satp: u64) -> (r: Self)
        ensures
            r.root_ppn.0 == satp & 0xfff_ffff_ffff,
            r.frames@.len() == 0,
    {
        Self { root_ppn: PhysPageNum(satp & 0xfff_ffff_ffff), frames: Vec::new(), levels: Ghost(Seq::empty()) }
    }

    /// The value that names this page table in the register `satp`: the
    /// mode of three-level translation and the root page.
    pub fn token(&self) -> (r: u64)
        ensures
            r == (8u64 << 60) | self.root_ppn.0,
    {
        (8u64 << 60) | self.root_ppn.0
    }

    /// The place of the leaf entry for `vpn`, where the way to it is laid.
    pub fn find_pte(&self, vpn: VirtPageNum, pool: &FramePool) -> (r: Option<(PhysPageNum, usize)>)
        requires
            pool.memory.wf(),
        ensures
            r.is_some() == leaf_slot(pool.mem(), self.root_ppn.0, vpn.0).is_some(),
            r.is_some() ==> r.unwrap().0.0 == leaf_slot(pool.mem(), self.root_ppn.0, vpn.0).unwrap().0
                && r.unwrap().1 == leaf_slot(pool.mem(), self.root_ppn.0, vpn.0).unwrap().1 && r.unwrap().1
                < 512 && pool.memory.has(r.unwrap().0.0),
    {
        proof {
            pool.memory.lemma_view();
        }
        let idxs = vpn.indexes();
        if !pool.memory.contains(self.root_ppn.0) {
            return None;
        }
        let e0 = PageTableEntry { bits: pool.memory.read_u64(self.root_ppn.0, idxs[0] * 8) };
        if !e0.is_valid() || !pool.memory.contains(e0.ppn().0) {
            return None;
        }
        let e1 = PageTableEntry { bits: pool.memory.read_u64(e0.ppn().0, idxs[1] * 8) };
        if !e1.is_valid() || !pool.memory.contains(e1.ppn().0) {
            return None;
        }
        Some((e1.ppn(), idxs[2]))
    }

    /// The table named by entry `idx` of table `i`, which is added where the
    /// entry is not in use.
    fn ensure_child(&mut self, pool: &mut FramePool, i: Ghost<int>, table: PhysPageNum, idx: usize) -> (child:
        PhysPageNum)
        requires
            old(self).wf(old(pool)),
            0 <= i@ < old(self).frames@.len(),
            old(self).tables().frames[i@] == table.0,
            old(self).levels@[i@] < 2,
            idx < 512,
            is_valid(entry(old(pool).mem(), table.0, idx as int)) || old(pool).allocator@.can_alloc(),
        ensures
            final(self).wf(final(pool)),
            final(self).root_ppn == old(self).root_ppn,
            is_valid(entry(final(pool).mem(), table.0, idx as int)),
            pte_ppn(entry(final(pool).mem(), table.0, idx as int)) == child.0,
            final(self).tables().is_table(child.0, old(self).levels@[i@] + 1),
            forall|v: u64| #[trigger] walk(final(pool).mem(), old(self).root_ppn.0, v) == walk(
                old(pool).mem(),
                old(self).root_ppn.0,
                v,
            ),
            forall|k: int, x: int|
                0 <= k < old(self).frames@.len() && 0 <= x < 512 && !(k == i@ && x == idx) ==> entry(
                    final(pool).mem(),
                    #[trigger] old(self).tables().frames[k],
                    x,
                ) == #[trigger] entry(old(pool).mem(), old(self).tables().frames[k], x),
            final(pool).memory.base() == old(pool).memory.base(),
            final(pool).memory.count() == old(pool).memory.count(),
            is_valid(entry(old(pool).mem(), table.0, idx as int)) ==> {
                &&& final(pool).mem() == old(pool).mem()
                &&& final(pool).allocator@ == old(pool).allocator@
                &&& final(self).tables() == old(self).tables()
            },
            !is_valid(entry(old(pool).mem(), table.0, idx as int)) ==> {
                &&& final(pool).mem() == with_table(old(pool).mem(), table.0, idx as int, child.0)
                &&& child.0 == old(pool).allocator@.next()
                &&& final(pool).allocator@ == old(pool).allocator@.after_alloc()
                &&& final(self).tables().frames == old(self).tables().frames.push(child.0)
                &&& forall|x: int| 0 <= x < 512 ==> #[trigger] entry(final(pool).mem(), child.0, x) == 0
            },
    {
        let ghost t = self.tables();
        let ghost mem = pool.mem();
        proof {
            pool.memory.lemma_view();
            assert(mem.dom().contains(t.frames[i@]));
            assert(t.slot(mem, i@, idx as int) == entry(mem, table.0, idx as int));
        }
        let pte = PageTableEntry { bits: pool.memory.read_u64(table.0, idx * 8) };
        if pte.is_valid() {
            proof {
                assert(t.is_table(pte_ppn(t.slot(mem, i@, idx as int)), t.levels[i@] + 1));
            }
            return pte.ppn();
        }
        proof {
            lemma_alloc_fresh(pool.allocator@);
        }
        let frame = frame_alloc(pool).unwrap();
        let f = frame.ppn;
        proof {
            assert(!t.owns(f.0)) by {
                if t.frames.contains(f.0) {
                    let k = choose|k: int| 0 <= k < t.frames.len() && t.frames[k] == f.0;
                    assert(old(pool).is_allocated(t.frames[k]));
                }
            }
            pool.memory.lemma_view();
            assert(mem.dom().contains(f.0));
            lemma_add_table(t, mem, i@, idx as int, f.0);
        }
        let entry_bits = PageTableEntry::new(f, PTEFlags::from_bits(PTE_V));
        pool.memory.write_u64(table.0, idx * 8, entry_bits.bits);
        self.frames.push(frame);
        self.levels = Ghost(self.levels@.push(t.levels[i@] + 1));
        proof {
            let t2 = TableView { frames: t.frames.push(f.0), levels: t.levels.push(t.levels[i@] + 1), ..t };
            assert(self.tables().frames =~= t2.frames);
            assert(self.tables() == t2);
            assert(pool.mem() == with_table(mem, table.0, idx as int, f.0));
            assert(t2.frames[t.frames.len() as int] == f.0);
            assert(t2.is_table(f.0, (t.levels[i@] + 1) as nat));
            assert forall|k: int| 0 <= k < self.frames@.len() implies pool.is_allocated(
                #[trigger] self.tables().frames[k],
            ) by {
                if k < t.frames.len() {
                    assert(t2.frames[k] == t.frames[k]);
                    assert(old(pool).is_allocated(t.frames[k]));
                }
            }
            assert forall|k: int, x: int|
                0 <= k < old(self).frames@.len() && 0 <= x < 512 && !(k == i@ && x == idx) implies entry(
                    pool.mem(),
                    #[trigger] old(self).tables().frames[k],
                    x,
                ) == #[trigger] entry(old(pool).mem(), old(self).tables().frames[k], x) by {
                assert(t.slot(pool.mem(), k, x) == t.slot(mem, k, x));
            }
            lemma_pte_bits(f.0, PTE_V);
            assert(PTE_V & 1 == 1) by (bit_vector);
            assert(t.slot(pool.mem(), i@, idx as int) == pte_bits(f.0, PTE_V));
        }
        f
    }
}


impl PageTable {
    /// The place of the leaf entry for `vpn`; the tables on the way to it
    /// are added where they are missing.
    pub fn find_pte_create(&mut self, vpn: VirtPageNum, pool: &mut FramePool) -> (r: (PhysPageNum, usize))
        requires
            old(self).wf(old(pool)),
            old(pool).allocator@.free_count() >= missing_tables(
                old(pool).mem(),
                old(self).root_ppn.0,
                vpn.0,
            ),
        ensures
            final(self).wf(final(pool)),
            final(self).root_ppn == old(self).root_ppn,
            leaf_slot(final(pool).mem(), old(self).root_ppn.0, vpn.0) == Some((r.0.0, r.1 as int)),
            r.1 < 512,
            forall|v: u64| #[trigger] walk(final(pool).mem(), old(self).root_ppn.0, v) == walk(
                old(pool).mem(),
                old(self).root_ppn.0,
                v,
            ),
            final(pool).allocator@.free_count() == old(pool).allocator@.free_count() - missing_tables(
                old(pool).mem(),
                old(self).root_ppn.0,
                vpn.0,
            ),
            final(pool).memory.base() == old(pool).memory.base(),
            final(pool).memory.count() == old(pool).memory.count(),
            old(self).tables().frames.is_prefix_of(final(self).tables().frames),
            forall|p: u64| !final(self).tables().owns(p) ==> #[trigger] final(pool).mem()[p] == old(pool).mem()[p],
            forall|p: u64|
                final(self).tables().owns(p) && !old(self).tables().owns(p) ==> !old(pool).is_allocated(p),
            forall|p: u64| old(pool).is_allocated(p) ==> final(pool).is_allocated(p),
    {
        let idxs = vpn.indexes();
        let ghost t0 = self.tables();
        let ghost mem0 = pool.mem();
        let ghost a0 = pool.allocator@;
        let root = self.root_ppn;
        proof {
            pool.memory.lemma_view();
            lemma_key_indexes(vpn.0, vpn.0);
            if a0.free_count() > 0 {
                assert(a0.can_alloc());
                lemma_alloc_fresh(a0);
            }
        }
        let p1 = self.ensure_child(pool, Ghost(0), root, idxs[0]);
        let ghost t1 = self.tables();
        let ghost mem1 = pool.mem();
        let ghost a1 = pool.allocator@;
        let ghost j1 = t1.table_of(p1.0, 1);
        proof {
            pool.memory.lemma_view();
            assert(t1.frames[j1] == p1.0 && t1.levels[j1] == 1);
            if a1.free_count() > 0 {
                assert(a1.can_alloc());
                lemma_alloc_fresh(a1);
            }
            assert(t1.slot(mem1, j1, idxs@[1] as int) == entry(mem1, p1.0, idxs@[1] as int));
            if is_valid(entry(mem0, root.0, idxs@[0] as int)) {
                assert(mem1 == mem0);
            } else {
                assert(entry(mem1, p1.0, idxs@[1] as int) == 0);
                lemma_pte_bits(0, 0);
            }
        }
        let p2 = self.ensure_child(pool, Ghost(j1), p1, idxs[1]);
        proof {
            let t2 = self.tables();
            let mem2 = pool.mem();
            pool.memory.lemma_view();
            // the entry of the root is as it was after the first step
            assert(j1 != 0);
            assert(entry(mem2, t1.frames[0], idxs@[0] as int) == entry(mem1, t1.frames[0], idxs@[0] as int));
            let j2 = t2.table_of(p2.0, 2);
            assert(mem2.dom().contains(t2.frames[j2]));
            let k1 = t2.table_of(p1.0, 1);
            assert(t1.is_table(p1.0, 1));
            assert(mem1.dom().contains(t1.frames[j1]));
            assert(mem2.dom() =~= mem1.dom()) by {
                assert forall|p: u64| mem2.dom().contains(p) == mem1.dom().contains(p) by {}
            }
            assert(mem2.dom().contains(root.0));
            assert(t0.frames.is_prefix_of(t1.frames));
            assert(t1.frames.is_prefix_of(t2.frames));
            assert(t0.frames.is_prefix_of(t2.frames));
            assert forall|p: u64| !t2.owns(p) implies #[trigger] mem2[p] == mem0[p] by {
                lemma_not_owned(t0, t1, t2, p);
            }
            assert forall|p: u64| t2.owns(p) && !t0.owns(p) implies !old(pool).is_allocated(p) by {
                lemma_newly_owned(t0, t1, t2, p, p1.0, p2.0);
            }
        }
        (p2, idxs[2])
    }
}

impl PageTable {
    /// Maps page number `vpn` to page `ppn` with the flags `flags` and the
    /// flag V. The page number must not be mapped yet.
    pub fn map(&mut self, vpn: VirtPageNum, ppn: PhysPageNum, flags: PTEFlags, pool: &mut FramePool)
        requires
            old(self).wf(old(pool)),
            old(self).lookup(old(pool), vpn.0).is_none(),
            ppn.0 < 0x1000_0000_0000,
            old(pool).allocator@.free_count() >= missing_tables(
                old(pool).mem(),
                old(self).root_ppn.0,
                vpn.0,
            ),
        ensures
            final(self).wf(final(pool)),
            final(self).root_ppn == old(self).root_ppn,
            final(self).lookup(final(pool), vpn.0) == Some(pte_bits(ppn.0, flags.bits | PTE_V)),
            pte_ppn(final(self).lookup(final(pool), vpn.0).unwrap()) == ppn.0,
            pte_flags(final(self).lookup(final(pool), vpn.0).unwrap()) == flags.bits | PTE_V,
            forall|v: u64|
                key_of(v) != key_of(vpn.0) ==> #[trigger] final(self).lookup(final(pool), v) == old(
                    self,
                ).lookup(old(pool), v),
            final(pool).allocator@.free_count() == old(pool).allocator@.free_count() - missing_tables(
                old(pool).mem(),
                old(self).root_ppn.0,
                vpn.0,
            ),
            final(pool).memory.base() == old(pool).memory.base(),
            final(pool).memory.count() == old(pool).memory.count(),
            old(self).tables().frames.is_prefix_of(final(self).tables().frames),
            forall|p: u64| !final(self).tables().owns(p) ==> #[trigger] final(pool).mem()[p] == old(pool).mem()[p],
            forall|p: u64|
                final(self).tables().owns(p) && !old(self).tables().owns(p) ==> !old(pool).is_allocated(p),
            forall|p: u64| old(pool).is_allocated(p) ==> final(pool).is_allocated(p),
    {
        let (leaf, idx) = self.find_pte_create(vpn, pool);
        let ghost t = self.tables();
        let ghost mem1 = pool.mem();
        let pte = PageTableEntry::new(ppn, flags.union(PTEFlags::from_bits(PTE_V)));
        proof {
            pool.memory.lemma_view();
            lemma_leaf_path(t, mem1, vpn.0);
            lemma_set_leaf(t, mem1, vpn.0, pte.bits);
            lemma_pte_bits(ppn.0, flags.bits | PTE_V);
            let f = flags.bits;
            assert((f | 1u8) & 1 == 1) by (bit_vector);
            assert((f | 1u8) | 1u8 == f | 1u8) by (bit_vector);
        }
        pool.memory.write_u64(leaf.0, idx * 8, pte.bits);
        proof {
            let j = t.table_of(leaf.0, 2);
            assert(t.frames[j] == leaf.0);
            assert(t.owns(leaf.0));
        }
    }

    /// Takes away the mapping of page number `vpn`, which must be mapped.
    pub fn unmap(&mut self, vpn: VirtPageNum, pool: &mut FramePool)
        requires
            old(self).wf(old(pool)),
            old(self).lookup(old(pool), vpn.0).is_some(),
        ensures
            final(self).wf(final(pool)),
            *final(self) == *old(self),
            final(self).lookup(final(pool), vpn.0).is_none(),
            forall|v: u64|
                key_of(v) != key_of(vpn.0) ==> #[trigger] final(self).lookup(final(pool), v) == old(
                    self,
                ).lookup(old(pool), v),
            final(pool).allocator == old(pool).allocator,
            final(pool).memory.base() == old(pool).memory.base(),
            final(pool).memory.count() == old(pool).memory.count(),
            forall|p: u64| !final(self).tables().owns(p) ==> #[trigger] final(pool).mem()[p] == old(pool).mem()[p],
    {
        let ghost t = self.tables();
        let ghost mem = pool.mem();
        proof {
            pool.memory.lemma_view();
            lemma_leaf_path(t, mem, vpn.0);
            lemma_set_leaf(t, mem, vpn.0, 0);
            lemma_pte_bits(0, 0);
        }
        let found = self.find_pte(vpn, pool);
        let (leaf, idx) = found.unwrap();
        pool.memory.write_u64(leaf.0, idx * 8, PageTableEntry::empty().bits);
        proof {
            let j = t.table_of(leaf.0, 2);
            assert(t.frames[j] == leaf.0);
            assert(t.owns(leaf.0));
        }
    }

    /// The entry to which page number `vpn` is mapped, if it is mapped.
    pub fn translate(&self, vpn: VirtPageNum, pool: &FramePool) -> (r: Option<PageTableEntry>)
        requires
            pool.memory.wf(),
        ensures
            r.is_some() == self.lookup(pool, vpn.0).is_some(),
            r.is_some() ==> r.unwrap().bits == self.lookup(pool, vpn.0).unwrap(),
    {
        match self.find_pte(vpn, pool) {
            Some((leaf, idx)) => {
                let pte = PageTableEntry { bits: pool.memory.read_u64(leaf.0, idx * 8) };
                if pte.is_valid() {
                    Some(pte)
                } else {
                    None
                }
            },
            None => None,
        }
    }

    /// The physical address to which the virtual address `va` is mapped:
    /// the page that its page number is mapped to, and the same offset.
    pub fn translate_va(&self, va: VirtAddr, pool: &FramePool) -> (r: Option<PhysAddr>)
        requires
            pool.memory.wf(),
        ensures
            r.is_some() == self.lookup(pool, va.0 / 4096).is_some(),
            r.is_some() ==> r.unwrap().0 == pte_ppn(self.lookup(pool, va.0 / 4096).unwrap()) * 4096 + va.0
                % 4096,
    {
        match self.translate(va.floor(), pool) {
            Some(pte) => {
                let aligned_pa = pte.ppn().addr();
                let offset = va.page_offset();
                Some(PhysAddr(aligned_pa.0 + offset))
            },
            None => None,
        }
    }
}

/// A page that is no table at the end was none on the way.
proof fn lemma_not_owned(t0: TableView, t1: TableView, t2: TableView, p: u64)
    requires
        t0.frames.is_prefix_of(t1.frames),
        t1.frames.is_prefix_of(t2.frames),
        !t2.owns(p),
    ensures
        !t1.owns(p),
        !t0.owns(p),
        forall|k: int| 0 <= k < t2.frames.len() ==> t2.frames[k] != p,
{
    if t1.frames.contains(p) {
        let k = choose|k: int| 0 <= k < t1.frames.len() && t1.frames[k] == p;
        assert(t2.frames[k] == p);
    }
    if t0.frames.contains(p) {
        let k = choose|k: int| 0 <= k < t0.frames.len() && t0.frames[k] == p;
        assert(t1.frames[k] == p);
        assert(t2.frames[k] == p);
    }
}

/// A page that became a table is one of the at most two that were added.
proof fn lemma_newly_owned(t0: TableView, t1: TableView, t2: TableView, p: u64, p1: u64, p2: u64)
    requires
        t1.frames == t0.frames || t1.frames == t0.frames.push(p1),
        t2.frames == t1.frames || t2.frames == t1.frames.push(p2),
        t2.owns(p),
        !t0.owns(p),
    ensures
        (t1.frames == t0.frames.push(p1) && p == p1) || (t2.frames == t1.frames.push(p2) && p == p2),
{
    let k = choose|k: int| 0 <= k < t2.frames.len() && t2.frames[k] == p;
    if k < t0.frames.len() {
        assert(t1.frames[k] == t0.frames[k]);
        assert(t2.frames[k] == t1.frames[k]);
        assert(t0.frames[k] == p);
        assert(t0.frames.contains(p));
    }
}


/// A piece of a buffer in user memory: the bytes from `start` up to `end` of page `ppn`.
#[derive(Copy, Clone, Debug, PartialEq, Eq, Structural)]
pub struct UserSlice {
    pub ppn: PhysPageNum,
    pub start: usize,
    pub end: usize,
}

/// `rest` with `acc` before it, where there is a `rest`.
pub open spec fn prepend(acc: Seq<UserSlice>, rest: Option<Seq<UserSlice>>) -> Option<Seq<UserSlice>> {
    match rest {
        Some(r) => Some(acc + r),
        None => None,
    }
}

/// The pieces, page by page, of the user buffer from address `start` up to
/// `end`, in the address space whose page table is rooted at `root`; `None`
/// where a page of the buffer is not mapped to a page of the memory.
pub open spec fn user_slices(mem: Memory, root: u64, start: int, end: int) -> Option<Seq<UserSlice>>
    decreases end - start,
{
    if start >= end || start < 0 {
        Some(Seq::<UserSlice>::empty())
    } else {
        let stop = if (start / 4096 + 1) * 4096 < end {
            (start / 4096 + 1) * 4096
        } else {
            end
        };
        match walk(mem, root, (start / 4096) as u64) {
            None => None,
            Some(bits) => if !mem.dom().contains(pte_ppn(bits)) {
                None
            } else {
                prepend(
                    seq![
                        UserSlice {
                            ppn: PhysPageNum(pte_ppn(bits)),
                            start: (start % 4096) as usize,
                            end: (start % 4096 + stop - start) as usize,
                        },
                    ],
                    user_slices(mem, root, stop, end),
                )
            },
        }
    }
}

/// The pieces of the user buffer of `len` bytes at address `ptr`, for the
/// kernel to reach it page by page. `None` where the buffer does not lie in
/// mapped memory.
pub fn translated_byte_buffer(token: u64, ptr: u64, len: u64, pool: &FramePool) -> (r: Option<
    Vec<UserSlice>,
>)
    requires
        pool.memory.wf(),
    ensures
        ptr + len > u64::MAX ==> r.is_none(),
        ptr + len <= u64::MAX ==> r.is_some() == user_slices(
            pool.mem(),
            token & 0xfff_ffff_ffff,
            ptr as int,
            ptr + len,
        ).is_some(),
        r.is_some() ==> r.unwrap()@ == user_slices(
            pool.mem(),
            token & 0xfff_ffff_ffff,
            ptr as int,
            ptr + len,
        ).unwrap(),
        r.is_some() ==> forall|i: int|
            0 <= i < r.unwrap()@.len() ==> (#[trigger] r.unwrap()@[i]).start < r.unwrap()@[i].end <= 4096
                && pool.memory.has(r.unwrap()@[i].ppn.0),
        r.is_some() ==> slices_len(r.unwrap()@) == len,
{
    proof {
        pool.memory.lemma_view();
    }
    let page_table = PageTable::from_token(token);
    if len > u64::MAX - ptr {
        return None;
    }
    let end = ptr + len;
    let ghost root = page_table.root_ppn.0;
    let ghost mem = pool.mem();
    let mut start = ptr;
    let mut v: Vec<UserSlice> = Vec::new();
    while start < end
        invariant
            ptr <= start <= end,
            end == ptr + len,
            pool.memory.wf(),
            mem == pool.mem(),
            root == page_table.root_ppn.0,
            root == token & 0xfff_ffff_ffff,
            forall|p: u64| pool.memory.has(p) <==> #[trigger] mem.dom().contains(p),
            forall|i: int|
                0 <= i < v@.len() ==> (#[trigger] v@[i]).start < v@[i].end <= 4096 && pool.memory.has(v@[i].ppn.0),
            slices_len(v@) == start - ptr,
            prepend(v@, user_slices(mem, root, start as int, end as int)) == user_slices(
                mem,
                root,
                ptr as int,
                end as int,
            ),
        decreases end - start,
    {
        let start_va = VirtAddr(start);
        let vpn = start_va.floor();
        let next_page = start / 4096 + 1;
        let stop: u64 = if next_page <= end / 4096 && next_page * 4096 < end {
            next_page * 4096
        } else {
            end
        };
        let pte = match page_table.translate(vpn, pool) {
            Some(pte) => pte,
            None => {
                return None;
            },
        };
        let ppn = pte.ppn();
        if !pool.memory.contains(ppn.0) {
            return None;
        }
        let offset = start_va.page_offset() as usize;
        let slice = UserSlice { ppn, start: offset, end: offset + (stop - start) as usize };
        let ghost before = v@;
        v.push(slice);
        proof {
            assert(v@.drop_last() =~= before);
            assert(v@.last() == slice);
            let rest = user_slices(mem, root, stop as int, end as int);
            assert(user_slices(mem, root, start as int, end as int) == prepend(seq![slice], rest));
            if rest.is_some() {
                assert(before + (seq![slice] + rest.unwrap()) =~= v@ + rest.unwrap());
            }
        }
        start = stop;
    }
    proof {
        assert(v@ + Seq::<UserSlice>::empty() =~= v@);
    }
    Some(v)
}

/// The place in memory of the byte at the user address `ptr`: its page and
/// the offset in it. `None` where the address is not mapped to a page of
/// the memory.
pub fn translated_refmut(token: u64, ptr: u64, pool: &FramePool) -> (r: Option<(PhysPageNum, usize)>)
    requires
        pool.memory.wf(),
    ensures
        r.is_some() == user_place(pool.mem(), token & 0xfff_ffff_ffff, ptr).is_some(),
        r.is_some() ==> r.unwrap().0.0 == user_place(pool.mem(), token & 0xfff_ffff_ffff, ptr).unwrap().0
            && r.unwrap().1 == user_place(pool.mem(), token & 0xfff_ffff_ffff, ptr).unwrap().1
            && pool.memory.has(r.unwrap().0.0) && r.unwrap().1 < 4096,
{
    proof {
        pool.memory.lemma_view();
    }
    let page_table = PageTable::from_token(token);
    let va = VirtAddr(ptr);
    match page_table.translate(va.floor(), pool) {
        Some(pte) => {
            let ppn = pte.ppn();
            if pool.memory.contains(ppn.0) {
                Some((ppn, va.page_offset() as usize))
            } else {
                None
            }
        },
        None => None,
    }
}

/// The page and the offset in it of the byte at the user address `va`.
pub open spec fn user_place(mem: Memory, root: u64, va: u64) -> Option<(u64, int)> {
    match walk(mem, root, va / 4096) {
        Some(bits) => if mem.dom().contains(pte_ppn(bits)) {
            Some((pte_ppn(bits), (va % 4096) as int))
        } else {
            None
        },
        None => None,
    }
}

/// The byte at the user address `va`.
pub open spec fn user_byte(mem: Memory, root: u64, va: u64) -> Option<u8> {
    match user_place(mem, root, va) {
        Some((p, o)) => Some(mem[p][o]),
        None => None,
    }
}

/// The bytes from the user address `va` up to, but not including, the first
/// zero byte; `None` where a byte before it cannot be reached.
pub open spec fn user_str(mem: Memory, root: u64, va: int) -> Option<Seq<u8>>
    decreases u64::MAX - va,
{
    if va < 0 || va > u64::MAX {
        None
    } else {
        match user_byte(mem, root, va as u64) {
            None => None,
            Some(b) => if b == 0 {
                Some(Seq::<u8>::empty())
            } else if va == u64::MAX {
                None
            } else {
                match user_str(mem, root, va + 1) {
                    Some(rest) => Some(seq![b] + rest),
                    None => None,
                }
            },
        }
    }
}

/// The string's rest after `acc`, where there is one.
pub open spec fn str_after(acc: Seq<u8>, rest: Option<Seq<u8>>) -> Option<Seq<u8>> {
    match rest {
        Some(r) => Some(acc + r),
        None => None,
    }
}

/// The zero-terminated string at the user address `ptr`, byte by byte.
pub fn translated_str(token: u64, ptr: u64, pool: &FramePool) -> (r: Option<Vec<u8>>)
    requires
        pool.memory.wf(),
    ensures
        r.is_some() == user_str(pool.mem(), token & 0xfff_ffff_ffff, ptr as int).is_some(),
        r.is_some() ==> r.unwrap()@ == user_str(pool.mem(), token & 0xfff_ffff_ffff, ptr as int).unwrap(),
{
    let ghost root = token & 0xfff_ffff_ffff;
    let ghost mem = pool.mem();
    let mut string: Vec<u8> = Vec::new();
    let mut va = ptr;
    loop
        invariant
            pool.memory.wf(),
            mem == pool.mem(),
            root == token & 0xfff_ffff_ffff,
            ptr <= va,
            str_after(string@, user_str(mem, root, va as int)) == user_str(mem, root, ptr as int),
        decreases u64::MAX - va,
    {
        let place = translated_refmut(token, va, pool);
        let (ppn, offset) = match place {
            Some(p) => p,
            None => {
                return None;
            },
        };
        let ch = pool.memory.read_u8(ppn.0, offset);
        if ch == 0 {
            proof {
                assert(string@ + Seq::<u8>::empty() =~= string@);
            }
            return Some(string);
        }
        if va == u64::MAX {
            return None;
        }
        let ghost before = string@;
        string.push(ch);
        proof {
            let rest = user_str(mem, root, va + 1);
            if rest.is_some() {
                assert(before + (seq![ch] + rest.unwrap()) =~= string@ + rest.unwrap());
            }
        }
        va += 1;
    }
}

/// A buffer in user memory, as the pieces in which the kernel reaches it.
pub struct UserBuffer {
    pub buffers: Vec<UserSlice>,
}

/// The length in bytes of the pieces `s` together.
pub open spec fn slices_len(s: Seq<UserSlice>) -> int
    decreases s.len(),
{
    if s.len() == 0 {
        0
    } else {
        slices_len(s.drop_last()) + (s.last().end - s.last().start)
    }
}

impl UserBuffer {
    /// Each piece lies in its page and is not empty.
    pub open spec fn wf(&self) -> bool {
        forall|i: int|
            0 <= i < self.buffers@.len() ==> (#[trigger] self.buffers@[i]).start < self.buffers@[i].end
                <= 4096
    }

    /// The buffer made of the pieces `buffers`.
    pub fn new(buffers: Vec<UserSlice>) -> (r: Self)
        ensures
            r.buffers == buffers,
    {
        Self { buffers }
    }

    /// The length of the buffer in bytes.
    pub fn len(&self) -> (total: usize)
        requires
            self.wf(),
            slices_len(self.buffers@) <= usize::MAX,
        ensures
            total == slices_len(self.buffers@),
    {
        let mut total: usize = 0;
        let mut i: usize = 0;
        while i < self.buffers.len()
            invariant
                i <= self.buffers@.len(),
                self.wf(),
                total == slices_len(self.buffers@.subrange(0, i as int)),
                slices_len(self.buffers@) <= usize::MAX,
            decreases self.buffers@.len() - i,
        {
            proof {
                let s = self.buffers@.subrange(0, i + 1);
                assert(s.drop_last() =~= self.buffers@.subrange(0, i as int));
                lemma_slices_len_mono(self.buffers@, i + 1);
            }
            total += self.buffers[i].end - self.buffers[i].start;
            i += 1;
        }
        assert(self.buffers@.subrange(0, i as int) =~= self.buffers@);
        total
    }

    /// The bytes of the buffer, to be taken one by one.
    pub fn into_iter(self) -> (r: UserBufferIterator)
        ensures
            r.buffers == self.buffers,
            r.current_buffer == 0,
            r.current_idx == 0,
    {
        UserBufferIterator { buffers: self.buffers, current_buffer: 0, current_idx: 0 }
    }
}

/// The first pieces of a buffer are not longer than the whole.
pub proof fn lemma_slices_len_mono(s: Seq<UserSlice>, k: int)
    requires
        0 <= k <= s.len(),
        forall|i: int| 0 <= i < s.len() ==> (#[trigger] s[i]).start < s[i].end,
    ensures
        0 <= slices_len(s.subrange(0, k)) <= slices_len(s),
    decreases s.len() - k,
{
    if k == s.len() {
        assert(s.subrange(0, k) =~= s);
        lemma_slices_len_nonneg(s);
    } else {
        lemma_slices_len_mono(s, k + 1);
        assert(s.subrange(0, k + 1).drop_last() =~= s.subrange(0, k));
        lemma_slices_len_nonneg(s.subrange(0, k));
    }
}

/// A buffer has no negative length.
pub proof fn lemma_slices_len_nonneg(s: Seq<UserSlice>)
    requires
        forall|i: int| 0 <= i < s.len() ==> (#[trigger] s[i]).start < s[i].end,
    ensures
        0 <= slices_len(s),
    decreases s.len(),
{
    if s.len() > 0 {
        lemma_slices_len_nonneg(s.drop_last());
    }
}

/// A walk over the bytes of a user buffer.
pub struct UserBufferIterator {
    pub buffers: Vec<UserSlice>,
    pub current_buffer: usize,
    pub current_idx: usize,
}

impl UserBufferIterator {
    /// The walk stands at a byte of a piece, or at the end.
    pub open spec fn wf(&self) -> bool {
        &&& forall|i: int|
            0 <= i < self.buffers@.len() ==> (#[trigger] self.buffers@[i]).start < self.buffers@[i].end
                <= 4096
        &&& self.current_buffer <= self.buffers@.len()
        &&& self.current_buffer < self.buffers@.len() ==> self.current_idx < self.buffers@[self.current_buffer as int].end
            - self.buffers@[self.current_buffer as int].start
    }

    /// The place of the next byte of the buffer, page and offset, or `None` at the end.
    pub fn next(&mut self) -> (r: Option<(PhysPageNum, usize)>)
        requires
            old(self).wf(),
        ensures
            final(self).wf(),
            final(self).buffers == old(self).buffers,
            r.is_none() == (old(self).current_buffer >= old(self).buffers@.len()),
            r.is_none() ==> *final(self) == *old(self),
            r.is_some() ==> {
                let s = old(self).buffers@[old(self).current_buffer as int];
                &&& r.unwrap().0 == s.ppn
                &&& r.unwrap().1 == s.start + old(self).current_idx
                &&& r.unwrap().1 < 4096
                &&& if old(self).current_idx + 1 == s.end - s.start {
                    final(self).current_buffer == old(self).current_buffer + 1 && final(self).current_idx
                        == 0
                } else {
                    final(self).current_buffer == old(self).current_buffer && final(self).current_idx
                        == old(self).current_idx + 1
                }
            },
    {
        if self.current_buffer >= self.buffers.len() {
            None
        } else {
            let s = self.buffers[self.current_buffer];
            let r = (s.ppn, s.start + self.current_idx);
            if self.current_idx + 1 == s.end - s.start {
                self.current_idx = 0;
                self.current_buffer += 1;
            } else {
                self.current_idx += 1;
            }
            Some(r)
        }
    }
}

} // verus!
