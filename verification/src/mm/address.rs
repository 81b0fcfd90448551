use vstd::prelude::*;
use crate::config::PAGE_SIZE;

verus! {

/// Number of a physical page: 44 bits.
#[derive(Copy, Clone, Debug, PartialEq, Eq, Structural)]
pub struct PhysPageNum(pub u64);

/// A physical address: 56 bits.
#[derive(Copy, Clone, Debug, PartialEq, Eq, Structural)]
pub struct PhysAddr(pub u64);

/// Number of a virtual page. Its lower 27 bits are, nine by nine, the
/// indexes into the three levels of a page table.
#[derive(Copy, Clone, Debug, PartialEq, Eq, Structural)]
pub struct VirtPageNum(pub u64);

/// A virtual address.
#[derive(Copy, Clone, Debug, PartialEq, Eq, Structural)]
pub struct VirtAddr(pub u64);

/// The index into the table of level `level` for the page number `vpn`.
pub open spec fn index_of(vpn: u64, level: int) -> u64 {
    if level == 0 {
        (vpn >> 18) & 511
    } else if level == 1 {
        (vpn >> 9) & 511
    } else {
        vpn & 511
    }
}

/// The part of a page number that a page table looks at: its lower 27 bits.
pub open spec fn key_of(vpn: u64) -> u64 {
    vpn & 0x7ff_ffff
}

/// Page numbers with the same three indexes have the same key, and the other way round.
pub proof fn lemma_key_indexes(a: u64, b: u64)
    ensures
        key_of(a) == key_of(b) <==> (index_of(a, 0) == index_of(b, 0) && index_of(a, 1) == index_of(b, 1)
            && index_of(a, 2) == index_of(b, 2)),
        index_of(a, 0) < 512,
        index_of(a, 1) < 512,
        index_of(a, 2) < 512,
{
    assert((a & 0x7ff_ffff == b & 0x7ff_ffff) <==> (((a >> 18) & 511) == ((b >> 18) & 511) && ((a >> 9)
        & 511) == ((b >> 9) & 511) && (a & 511) == (b & 511))) by (bit_vector);
    assert(((a >> 18) & 511) < 512 && ((a >> 9) & 511) < 512 && (a & 511) < 512) by (bit_vector);
}

impl VirtPageNum {
    /// The indexes into the three levels of a page table, highest level first.
    pub fn indexes(&self) -> (idx: [usize; 3])
        ensures
            idx@[0] == index_of(self.0, 0),
            idx@[1] == index_of(self.0, 1),
            idx@[2] == index_of(self.0, 2),
            idx@[0] < 512,
            idx@[1] < 512,
            idx@[2] < 512,
    {
        let vpn = self.0;
        proof {
            lemma_key_indexes(vpn, vpn);
        }
        [((vpn >> 18) & 511) as usize, ((vpn >> 9) & 511) as usize, (vpn & 511) as usize]
    }

    /// The address at which the page begins.
    pub fn addr(&self) -> (r: VirtAddr)
        requires
            self.0 < 0x10_0000_0000_0000,
        ensures
            r.0 == self.0 * 4096,
    {
        VirtAddr(self.0 * PAGE_SIZE)
    }
}

impl PhysPageNum {
    /// The address at which the page begins.
    pub fn addr(&self) -> (r: PhysAddr)
        requires
            self.0 < 0x10_0000_0000_0000,
        ensures
            r.0 == self.0 * 4096,
    {
        PhysAddr(self.0 * PAGE_SIZE)
    }
}

impl VirtAddr {
    /// The page that holds the address.
    pub fn floor(&self) -> (r: VirtPageNum)
        ensures
            r.0 == self.0 / 4096,
    {
        VirtPageNum(self.0 / PAGE_SIZE)
    }

    /// The first page that begins at or after the address.
    pub fn ceil(&self) -> (r: VirtPageNum)
        ensures
            r.0 == (self.0 + 4095) / 4096,
    {
        VirtPageNum(
            self.0 / PAGE_SIZE + if self.0 % PAGE_SIZE == 0 {
                0
            } else {
                1
            },
        )
    }

    /// The offset of the address in its page.
    pub fn page_offset(&self) -> (r: u64)
        ensures
            r == self.0 % 4096,
    {
        let a = self.0;
        assert(a & 4095 == a % 4096) by (bit_vector);
        self.0 & (PAGE_SIZE - 1)
    }

    /// Whether the address is the beginning of a page.
    pub fn aligned(&self) -> (r: bool)
        ensures
            r == (self.0 % 4096 == 0),
    {
        self.page_offset() == 0
    }
}

impl PhysAddr {
    /// The page that holds the address.
    pub fn floor(&self) -> (r: PhysPageNum)
        ensures
            r.0 == self.0 / 4096,
    {
        PhysPageNum(self.0 / PAGE_SIZE)
    }

    /// The first page that begins at or after the address.
    pub fn ceil(&self) -> (r: PhysPageNum)
        ensures
            r.0 == (self.0 + 4095) / 4096,
    {
        PhysPageNum(
            self.0 / PAGE_SIZE + if self.0 % PAGE_SIZE == 0 {
                0
            } else {
                1
            },
        )
    }

    /// The offset of the address in its page.
    pub fn page_offset(&self) -> (r: u64)
        ensures
            r == self.0 % 4096,
    {
        let a = self.0;
        assert(a & 4095 == a % 4096) by (bit_vector);
        self.0 & (PAGE_SIZE - 1)
    }

    /// Whether the address is the beginning of a page.
    pub fn aligned(&self) -> (r: bool)
        ensures
            r == (self.0 % 4096 == 0),
    {
        self.page_offset() == 0
    }
}

/// A value that has a next one.
pub trait StepByOne: Sized {
    /// The value after this one.
    spec fn stepped(&self) -> Self;

    /// Whether there is a value after this one.
    spec fn can_step(&self) -> bool;

    /// Whether the two values are the same.
    spec fn same(&self, other: &Self) -> bool;

    /// Moves on to the next value.
    fn step(&mut self)
        requires
            old(self).can_step(),
        ensures
            *final(self) == old(self).stepped(),
    ;

    /// Whether the value is `other`.
    fn is(&self, other: &Self) -> (r: bool)
        ensures
            r == self.same(other),
    ;
}

impl StepByOne for VirtPageNum {
    open spec fn stepped(&self) -> Self {
        VirtPageNum((self.0 + 1) as u64)
    }

    open spec fn can_step(&self) -> bool {
        self.0 < u64::MAX
    }

    open spec fn same(&self, other: &Self) -> bool {
        self.0 == other.0
    }

    fn step(&mut self) {
        self.0 += 1;
    }

    fn is(&self, other: &Self) -> (r: bool) {
        self.0 == other.0
    }
}

impl StepByOne for PhysPageNum {
    open spec fn stepped(&self) -> Self {
        PhysPageNum((self.0 + 1) as u64)
    }

    open spec fn can_step(&self) -> bool {
        self.0 < u64::MAX
    }

    open spec fn same(&self, other: &Self) -> bool {
        self.0 == other.0
    }

    fn step(&mut self) {
        self.0 += 1;
    }

    fn is(&self, other: &Self) -> (r: bool) {
        self.0 == other.0
    }
}

/// The values from a first one up to, but not including, a last one.
pub struct SimpleRange<T: StepByOne + Copy> {
    pub l: T,
    pub r: T,
}

impl<T: StepByOne + Copy> SimpleRange<T> {
    /// The range from `start` up to `end`.
    pub fn new(start: T, end: T) -> (r: Self)
        ensures
            r.l == start,
            r.r == end,
    {
        Self { l: start, r: end }
    }

    /// The first value of the range.
    pub fn get_start(&self) -> (r: T)
        ensures
            r == self.l,
    {
        self.l
    }

    /// The value at which the range ends.
    pub fn get_end(&self) -> (r: T)
        ensures
            r == self.r,
    {
        self.r
    }

    /// The values of the range, to be taken one by one.
    pub fn into_iter(self) -> (r: SimpleRangeIterator<T>)
        ensures
            r.current == self.l,
            r.end == self.r,
    {
        SimpleRangeIterator::new(self.l, self.r)
    }
}

/// A walk over the values of a range.
pub struct SimpleRangeIterator<T: StepByOne + Copy> {
    pub current: T,
    pub end: T,
}

impl<T: StepByOne + Copy> SimpleRangeIterator<T> {
    /// A walk from `l` up to `r`.
    pub fn new(l: T, r: T) -> (it: Self)
        ensures
            it.current == l,
            it.end == r,
    {
        Self { current: l, end: r }
    }

    /// The next value of the walk, or `None` at its end.
    pub fn next(&mut self) -> (r: Option<T>)
        requires
            !old(self).current.same(&old(self).end) ==> old(self).current.can_step(),
        ensures
            final(self).end == old(self).end,
            old(self).current.same(&old(self).end) ==> r.is_none() && final(self).current == old(self).current,
            !old(self).current.same(&old(self).end) ==> r == Some(old(self).current) && final(self).current
                == old(self).current.stepped(),
    {
        if self.current.is(&self.end) {
            None
        } else {
            let t = self.current;
            self.current.step();
            Some(t)
        }
    }
}

/// A range of virtual pages.
pub type VPNRange = SimpleRange<VirtPageNum>;

} // verus!
