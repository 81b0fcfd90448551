use vstd::prelude::*;

pub mod address;
pub mod area_removal;
pub mod elf;
pub mod elf_check;
pub mod frame_allocator;
pub mod memory_set;
pub mod page_table;
pub mod phys_mem;
pub mod reach;
pub mod user_space;

verus! {

/// The content of physical memory: the bytes of each page, by page number.
pub type Memory = Map<u64, Seq<u8>>;

} // verus!
