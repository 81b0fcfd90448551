use vstd::prelude::*;

verus! {

/// The four bytes with which an ELF file begins.
pub const ELF_MAGIC: [u8; 4] = [0x7f, 0x45, 0x4c, 0x46];

/// One program header of an ELF file: whether it describes a segment to
/// load, where the segment lies in the file and in memory, and its flags.
pub struct ProgramHeader {
    pub is_load: bool,
    pub virtual_addr: u64,
    pub mem_size: u64,
    pub offset: u64,
    pub file_size: u64,
    pub flags: u32,
}

/// What the kernel reads of an ELF file: the magic number, the entry
/// point, and the program headers in their order.
pub struct ElfImage {
    pub magic: [u8; 4],
    pub entry_point: u64,
    pub program_headers: Vec<ProgramHeader>,
}

/// Whether the segment may be executed. `xmas_elf::program::Flags::is_execute`
/// tests bit 0 of the flags.
#[verifier::external_body]
pub(crate) fn flags_is_execute(flags: u32) -> (r: bool)
    ensures
        r == (flags & 0x1 == 0x1),
{
    xmas_elf::program::Flags(flags).is_execute()
}

/// Whether the segment may be written. `xmas_elf::program::Flags::is_write`
/// tests bit 1 of the flags.
#[verifier::external_body]
pub(crate) fn flags_is_write(flags: u32) -> (r: bool)
    ensures
        r == (flags & 0x2 == 0x2),
{
    xmas_elf::program::Flags(flags).is_write()
}

/// Whether the segment may be read. `xmas_elf::program::Flags::is_read`
/// tests bit 2 of the flags.
#[verifier::external_body]
pub(crate) fn flags_is_read(flags: u32) -> (r: bool)
    ensures
        r == (flags & 0x4 == 0x4),
{
    xmas_elf::program::Flags(flags).is_read()
}

/// The rights on the pages of a segment with the flags `flags`: use in user
/// mode, and execute, read and write as the flags say.
pub open spec fn segment_perm(flags: u32) -> u8 {
    (0x10u8 | (if flags & 0x1 == 0x1 {
        0x08u8
    } else {
        0u8
    })) | (if flags & 0x4 == 0x4 {
        0x02u8
    } else {
        0u8
    }) | (if flags & 0x2 == 0x2 {
        0x04u8
    } else {
        0u8
    })
}

/// The rights on the pages of a segment with the flags `flags`.
pub fn segment_permission(flags: u32) -> (r: u8)
    ensures
        r == segment_perm(flags),
{
    let mut map_perm: u8 = 0x10;
    if flags_is_execute(flags) {
        map_perm = map_perm | 0x08;
    }
    if flags_is_read(flags) {
        map_perm = map_perm | 0x02;
    }
    if flags_is_write(flags) {
        map_perm = map_perm | 0x04;
    }
    assert(0x10u8 | 0u8 == 0x10u8) by (bit_vector);
    assert(forall|x: u8| #[trigger] (x | 0u8) == x) by (bit_vector);
    map_perm
}


/// The page at which the trap context lies: the page below the trampoline.
pub open spec fn trap_context_vpn() -> u64 {
    0xF_FFFF_FFFF_FFFE
}

impl ProgramHeader {
    /// The first page of the segment.
    pub open spec fn start(&self) -> u64 {
        self.virtual_addr / 4096
    }

    /// The page at which the segment ends.
    pub open spec fn end(&self) -> u64 {
        ((self.virtual_addr + self.mem_size + 4095) / 4096) as u64
    }

    /// The segment can be loaded from a file of `data_len` bytes: it lies
    /// in the file, fills at least one page and at most 2^27, lies below
    /// the trap context, and its content fits in its pages.
    pub open spec fn loadable(&self, data_len: int) -> bool {
        &&& self.virtual_addr + self.mem_size + 4095 <= u64::MAX
        &&& self.offset + self.file_size <= data_len
        &&& self.start() < self.end()
        &&& self.end() < 0x7ff_f000
        &&& self.file_size <= 4096 * (self.end() - self.start())
    }
}

impl ElfImage {
    /// The headers of segments to load among the first `n` headers.
    pub open spec fn loads(&self, n: int) -> Seq<ProgramHeader>
        decreases n,
    {
        if n <= 0 {
            Seq::<ProgramHeader>::empty()
        } else {
            let r = self.loads(n - 1);
            if self.program_headers@[n - 1].is_load {
                r.push(self.program_headers@[n - 1])
            } else {
                r
            }
        }
    }

    /// The headers of the segments to load, in their order.
    pub open spec fn segments(&self) -> Seq<ProgramHeader> {
        self.loads(self.program_headers@.len() as int)
    }

    /// The page at which the last segment ends; 0 where there is none.
    pub open spec fn last_end(&self) -> u64 {
        if self.segments().len() == 0 {
            0
        } else {
            self.segments().last().end()
        }
    }

    /// The address at which the user stack begins: one page after the last segment.
    pub open spec fn stack_bottom(&self) -> u64 {
        (self.last_end() * 4096 + 4096) as u64
    }

    /// The address at which the user stack ends: 8192 bytes after its beginning.
    pub open spec fn stack_top(&self) -> u64 {
        (self.stack_bottom() + 8192) as u64
    }

    /// The pages of area `a` of the address space: the segments in their
    /// order, then the user stack, then the trap context.
    pub open spec fn range(&self, a: int) -> (u64, u64) {
        if a < self.segments().len() {
            (self.segments()[a].start(), self.segments()[a].end())
        } else if a == self.segments().len() {
            (self.stack_bottom() / 4096, (self.stack_top() / 4096) as u64)
        } else {
            (trap_context_vpn(), (trap_context_vpn() + 1) as u64)
        }
    }

    /// The rights on area `a`.
    pub open spec fn perm(&self, a: int) -> u8 {
        if a < self.segments().len() {
            segment_perm(self.segments()[a].flags)
        } else if a == self.segments().len() {
            0x16
        } else {
            0x06
        }
    }

    /// The file begins as an ELF file does, every segment can be loaded,
    /// and no two segments, nor a segment and the user stack, share a page.
    pub open spec fn loadable(&self, data_len: int) -> bool {
        &&& self.magic@ == ELF_MAGIC@
        &&& forall|i: int|
            0 <= i < self.program_headers@.len() && (#[trigger] self.program_headers@[i]).is_load
                ==> self.program_headers@[i].loadable(data_len)
        &&& forall|a: int, b: int|
            0 <= a < b <= self.segments().len() ==> #[trigger] self.range(a).1 <= #[trigger] self.range(
                b,
            ).0 || self.range(b).1 <= self.range(a).0
    }
}

} // verus!
