use vstd::prelude::*;
use crate::mm::elf::{ElfImage, ProgramHeader, ELF_MAGIC};
use crate::config::MEMORY_END;
use crate::mm::memory_set::{groups, lemma_map_cost_nonneg, map_cost, page_down, page_up, KernelLayout, MemorySet};

verus! {

/// Number of groups of `d` pages that the pages from `start` up to `end` touch.
fn groups_of(start: u64, end: u64, d: u64) -> (r: u64)
    requires
        d >= 2,
    ensures
        r == groups(start as int, end as int, d as int),
{
    if end <= start {
        0
    } else {
        assert((end - 1) / (d as int) >= (start as int) / (d as int) && (end - 1) / (d as int) <= (end - 1) / 2) by (nonlinear_arith)
            requires
                end - 1 >= start >= 0,
                d >= 2,
        ;
        (end - 1) / d - start / d + 1
    }
}

/// Number of pages that mapping the pages from `start` up to `end` takes
/// from the pool at most.
pub fn map_cost_of(start: u64, end: u64, framed: bool) -> (r: u64)
    requires
        end < 0x1000_0000_0000_0000,
    ensures
        r == map_cost(start as int, end as int, framed),
{
    reveal(map_cost);
    let pages: u64 = if framed && end > start {
        end - start
    } else {
        0
    };
    pages + groups_of(start, end, 512) + groups_of(start, end, 262144)
}

impl ProgramHeader {
    /// Whether the segment can be loaded from a file of `data_len` bytes.
    pub fn check(&self, data_len: usize) -> (r: bool)
        ensures
            r == self.loadable(data_len as int),
    {
        if self.virtual_addr > u64::MAX - 4095 || self.mem_size > u64::MAX - 4095 - self.virtual_addr {
            return false;
        }
        if self.file_size > u64::MAX - self.offset || self.offset + self.file_size > data_len as u64 {
            return false;
        }
        let start = self.virtual_addr / 4096;
        let end = (self.virtual_addr + self.mem_size + 4095) / 4096;
        start < end && end < 0x7ff_f000 && self.file_size <= 4096 * (end - start)
    }
}

impl ElfImage {
    /// Where each header of a segment among the first `i` can be loaded,
    /// each segment found among them can.
    pub proof fn lemma_found_loadable(&self, i: int, data_len: int)
        requires
            0 <= i <= self.program_headers@.len(),
            forall|k: int|
                0 <= k < i && (#[trigger] self.program_headers@[k]).is_load ==> self.program_headers@[k].loadable(data_len),
        ensures
            forall|a: int| 0 <= a < self.loads(i).len() ==> (#[trigger] self.loads(i)[a]).loadable(data_len),
        decreases i,
    {
        if i > 0 {
            self.lemma_found_loadable(i - 1, data_len);
            let prev = self.loads(i - 1);
            let cur = self.loads(i);
            assert forall|a: int| 0 <= a < cur.len() implies (#[trigger] cur[a]).loadable(data_len) by {
                if a < prev.len() {
                    assert(cur[a] == prev[a]);
                } else {
                    assert(cur[a] == self.program_headers@[i - 1]);
                }
            }
        }
    }

    /// The pages of the segments found among the first `n` headers.
    pub open spec fn spans(&self, n: int) -> Seq<(u64, u64)> {
        Seq::new(self.loads(n).len(), |a: int| (self.loads(n)[a].start(), self.loads(n)[a].end()))
    }

    /// The pages of each segment to load, in their order; `None` where the
    /// header of a segment cannot be loaded from a file of `data_len` bytes.
    pub fn ranges(&self, data_len: usize) -> (r: Option<Vec<(u64, u64)>>)
        ensures
            r.is_some() == (forall|i: int|
                0 <= i < self.program_headers@.len() && (#[trigger] self.program_headers@[i]).is_load
                    ==> self.program_headers@[i].loadable(data_len as int)),
            r.is_some() ==> r.unwrap()@ == self.spans(self.program_headers@.len() as int),
    {
        let mut v: Vec<(u64, u64)> = Vec::new();
        let mut i: usize = 0;
        assert(v@ =~= self.spans(0));
        while i < self.program_headers.len()
            invariant
                i <= self.program_headers@.len(),
                v@ == self.spans(i as int),
                forall|k: int|
                    0 <= k < i && (#[trigger] self.program_headers@[k]).is_load ==> self.program_headers@[k].loadable(
                        data_len as int,
                    ),
            decreases self.program_headers@.len() - i,
        {
            let ph = &self.program_headers[i];
            if ph.is_load {
                if !ph.check(data_len) {
                    return None;
                }
                v.push((ph.virtual_addr / 4096, (ph.virtual_addr + ph.mem_size + 4095) / 4096));
            }
            assert(v@ =~= self.spans(i + 1));
            i += 1;
        }
        Some(v)
    }

    /// Whether the program can be loaded from a file of `data_len` bytes:
    /// the file begins as an ELF file does, every segment can be loaded,
    /// and no two segments, nor a segment and the user stack, share a page.
    pub fn check(&self, data_len: usize) -> (r: bool)
        ensures
            r == self.loadable(data_len as int),
    {
        if self.magic[0] != 0x7f || self.magic[1] != 0x45 || self.magic[2] != 0x4c || self.magic[3] != 0x46 {
            assert(self.magic@ != ELF_MAGIC@) by {
                if self.magic@ == ELF_MAGIC@ {
                    assert(self.magic@[0] == ELF_MAGIC@[0] && self.magic@[1] == ELF_MAGIC@[1] && self.magic@[2]
                        == ELF_MAGIC@[2] && self.magic@[3] == ELF_MAGIC@[3]);
                }
            }
            return false;
        }
        assert(self.magic@ =~= ELF_MAGIC@);
        let mut v = match self.ranges(data_len) {
            Some(v) => v,
            None => {
                return false;
            },
        };
        let ghost n = self.segments().len() as int;
        let count = v.len();
        proof {
            self.lemma_found_loadable(self.program_headers@.len() as int, data_len as int);
            if count > 0 {
                assert(self.segments()[count - 1].loadable(data_len as int));
            }
        }
        let last_end: u64 = if count == 0 {
            0
        } else {
            v[count - 1].1
        };
        v.push(((last_end * 4096 + 4096) / 4096, (last_end * 4096 + 4096 + 8192) / 4096));
        proof {
            assert forall|a: int| 0 <= a <= n implies #[trigger] v@[a] == self.range(a) by {}
        }
        let mut b: usize = 0;
        while b < v.len()
            invariant
                b <= v@.len() == n + 1,
                n == self.segments().len(),
                forall|a: int| 0 <= a <= n ==> #[trigger] v@[a] == self.range(a),
                forall|x: int, y: int|
                    0 <= x < y < b ==> #[trigger] self.range(x).1 <= #[trigger] self.range(y).0 || self.range(y).1
                        <= self.range(x).0,
            decreases v@.len() - b,
        {
            let mut a: usize = 0;
            while a < b
                invariant
                    a <= b < v@.len() == n + 1,
                    n == self.segments().len(),
                    forall|a: int| 0 <= a <= n ==> #[trigger] v@[a] == self.range(a),
                    forall|x: int|
                        0 <= x < a ==> #[trigger] self.range(x).1 <= self.range(b as int).0 || self.range(b as int).1
                            <= self.range(x).0,
                decreases b - a,
            {
                if !(v[a].1 <= v[b].0 || v[b].1 <= v[a].0) {
                    assert(v@[a as int] == self.range(a as int));
                    assert(v@[b as int] == self.range(b as int));
                    assert(!self.loadable(data_len as int)) by {
                        if self.loadable(data_len as int) {
                            let x = a as int;
                            let y = b as int;
                            assert(0 <= x < y <= self.segments().len());
                            assert(self.range(x).1 <= self.range(y).0 || self.range(y).1 <= self.range(x).0);
                        }
                    }
                    return false;
                }
                assert(v@[a as int] == self.range(a as int));
                assert(v@[b as int] == self.range(b as int));
                a += 1;
            }
            b += 1;
        }
        true
    }
}


/// Mapping a run of pages takes at most the pages and one table for each.
proof fn lemma_map_cost_bound(start: int, end: int, framed: bool)
    requires
        0 <= start <= end,
    ensures
        0 <= map_cost(start, end, framed) <= 3 * (end - start) + 2,
{
    reveal(map_cost);
    if end > start {
        assert((end - 1) / 512 - start / 512 <= end - start && (end - 1) / 262144 - start / 262144 <= end - start) by (nonlinear_arith)
            requires
                0 <= start < end,
        ;
    }
}

impl ElfImage {
    /// Number of pages that loading the program takes from the pool at
    /// most: the root table, the tables for the trampoline, and each area
    /// with its tables.
    pub fn pages_needed(&self, data_len: usize) -> (r: u64)
        requires
            self.loadable(data_len as int),
            self.program_headers@.len() <= 0xffff,
        ensures
            r == self.cost(),
    {
        let mut v = self.ranges(data_len).unwrap();
        let ghost n = self.segments().len() as int;
        let count = v.len();
        proof {
            self.lemma_found_loadable(self.program_headers@.len() as int, data_len as int);
            assert(n <= 0xffff) by {
                self.lemma_loads_len(self.program_headers@.len() as int);
            }
            if count > 0 {
                assert(self.segments()[count - 1].loadable(data_len as int));
            }
        }
        let last_end: u64 = if count == 0 {
            0
        } else {
            v[count - 1].1
        };
        v.push(((last_end * 4096 + 4096) / 4096, (last_end * 4096 + 4096 + 8192) / 4096));
        v.push((0xF_FFFF_FFFF_FFFE, 0xF_FFFF_FFFF_FFFF));
        proof {
            assert forall|a: int| 0 <= a < n + 2 implies #[trigger] v@[a] == self.range(a) && self.range(a).0
                <= self.range(a).1 && self.range(a).1 - self.range(a).0 < 0x800_0000 && self.range(a).1
                < 0x1000_0000_0000_0000 by {
                if a < n {
                    assert(self.segments()[a].loadable(data_len as int));
                }
            }
        }
        let mut total: u64 = 0;
        let mut a = v.len();
        while a > 0
            invariant
                a <= v@.len() == n + 2 <= 0x10001,
                forall|a: int|
                    0 <= a < n + 2 ==> #[trigger] v@[a] == self.range(a) && self.range(a).0 <= self.range(a).1
                        && self.range(a).1 - self.range(a).0 < 0x800_0000 && self.range(a).1
                        < 0x1000_0000_0000_0000,
                n == self.segments().len(),
                total == self.cost_from(a as int),
                total <= (n + 2 - a) * 0x1800_0002,
            decreases a,
        {
            a -= 1;
            proof {
                assert(v@[a as int] == self.range(a as int));
                self.lemma_cost_from(a as int);
                lemma_map_cost_bound(self.range(a as int).0 as int, self.range(a as int).1 as int, true);
                assert((n + 2 - (a + 1)) * 0x1800_0002 + 0x1800_0002 == (n + 2 - a) * 0x1800_0002) by (nonlinear_arith);
                assert((n + 2 - a) * 0x1800_0002 <= 0x10001 * 0x1800_0002) by (nonlinear_arith)
                    requires
                        0 <= n + 2 - a <= 0x10001,
                ;
            }
            total = total + map_cost_of(v[a].0, v[a].1, true);
        }
        3 + total
    }

    /// No more segments are found than there are headers.
    pub proof fn lemma_loads_len(&self, i: int)
        requires
            0 <= i,
        ensures
            self.loads(i).len() <= i,
        decreases i,
    {
        if i > 0 {
            self.lemma_loads_len(i - 1);
        }
    }
}

impl MemorySet {
    /// Number of pages that a copy of the address space takes from the
    /// pool at most: the root table, the tables for the trampoline, and
    /// each area with its tables.
    pub fn fork_cost(&self) -> (r: u64)
        requires
            self.areas@.len() <= 0xffff,
            forall|a: int|
                0 <= a < self.areas@.len() ==> (#[trigger] self.areas@[a]).wf() && self.areas@[a].end()
                    < 0x1000_0000_0000_0000,
        ensures
            r == 3 + self.copy_cost(self.areas@.len() as int),
    {
        let mut total: u64 = 0;
        let mut j: usize = 0;
        while j < self.areas.len()
            invariant
                j <= self.areas@.len() <= 0xffff,
                forall|a: int|
                    0 <= a < self.areas@.len() ==> (#[trigger] self.areas@[a]).wf() && self.areas@[a].end()
                        < 0x1000_0000_0000_0000,
                total == self.copy_cost(j as int),
                total <= j * 0x1800_0002,
            decreases self.areas@.len() - j,
        {
            let area = &self.areas[j];
            proof {
                lemma_map_cost_bound(area.start() as int, area.end() as int, true);
                assert(j * 0x1800_0002 + 0x1800_0002 == (j + 1) * 0x1800_0002) by (nonlinear_arith);
                assert(j * 0x1800_0002 <= 0xffff * 0x1800_0002) by (nonlinear_arith)
                    requires
                        0 <= j <= 0xffff,
                ;
            }
            total = total + map_cost_of(area.vpn_range.get_start().0, area.vpn_range.get_end().0, true);
            j += 1;
        }
        3 + total
    }
}


/// The first page that begins at or after the address `a`.
fn page_up_of(a: u64) -> (r: u64)
    ensures
        r == page_up(a),
{
    if a % 4096 == 0 {
        a / 4096
    } else {
        a / 4096 + 1
    }
}

impl KernelLayout {
    /// Whether the sections follow each other in memory as a kernel is
    /// laid out.
    pub fn check(&self) -> (r: bool)
        ensures
            r == self.wf(),
    {
        self.stext <= self.etext && page_up_of(self.etext) <= self.srodata / 4096 && self.srodata <= self.erodata
            && page_up_of(self.erodata) <= self.sdata / 4096 && self.sdata <= self.edata && page_up_of(self.edata)
            <= self.sbss_with_stack / 4096 && self.sbss_with_stack <= self.ebss && page_up_of(self.ebss)
            <= self.ekernel / 4096 && self.ekernel <= MEMORY_END && self.strampoline % 4096 == 0
            && self.strampoline <= MEMORY_END
    }

    /// Number of pages that the address space of the kernel takes from
    /// the pool at most.
    pub fn pages_needed(&self) -> (r: u64)
        requires
            self.wf(),
        ensures
            r == self.cost(),
    {
        proof {
            self.lemma_costs(0);
            self.lemma_costs(1);
            self.lemma_costs(2);
            self.lemma_costs(3);
            self.lemma_costs(4);
            self.lemma_costs(5);
            self.lemma_sections(0);
            self.lemma_sections(1);
            self.lemma_sections(2);
            self.lemma_sections(3);
            self.lemma_sections(4);
            lemma_map_cost_bound(page_down(self.stext) as int, page_up(self.etext) as int, false);
            lemma_map_cost_bound(page_down(self.srodata) as int, page_up(self.erodata) as int, false);
            lemma_map_cost_bound(page_down(self.sdata) as int, page_up(self.edata) as int, false);
            lemma_map_cost_bound(page_down(self.sbss_with_stack) as int, page_up(self.ebss) as int, false);
            lemma_map_cost_bound(page_down(self.ekernel) as int, page_up(MEMORY_END) as int, false);
        }
        let text = map_cost_of(self.stext / 4096, page_up_of(self.etext), false);
        let rodata = map_cost_of(self.srodata / 4096, page_up_of(self.erodata), false);
        let data = map_cost_of(self.sdata / 4096, page_up_of(self.edata), false);
        let bss = map_cost_of(self.sbss_with_stack / 4096, page_up_of(self.ebss), false);
        let memory = map_cost_of(self.ekernel / 4096, page_up_of(MEMORY_END), false);
        3 + text + rodata + data + bss + memory
    }
}

} // verus!
