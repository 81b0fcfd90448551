use vstd::prelude::*;

verus! {

/// Size of a user stack in bytes.
pub const USER_STACK_SIZE: u64 = 4096 * 2;

/// Size of a kernel stack in bytes.
pub const KERNEL_STACK_SIZE: u64 = 4096 * 2;

/// Size of a page in bytes.
pub const PAGE_SIZE: u64 = 0x1000;

/// Number of bits of the offset in a page.
pub const PAGE_SIZE_BITS: u64 = 0xc;

/// Address of the trampoline: the highest page of every address space.
pub const TRAMPOLINE: u64 = 0xFFFF_FFFF_FFFF_F000;

/// Address of the page that holds a task's trap context: the page below the trampoline.
pub const TRAP_CONTEXT: u64 = 0xFFFF_FFFF_FFFF_E000;

/// Size of the kernel heap in bytes.
pub const KERNEL_HEAP_SIZE: u64 = 0x30_0000;

/// End of physical memory.
pub const MEMORY_END: u64 = 0x80800000;

/// Ticks of the clock per second.
pub const CLOCK_FREQ: u64 = 12500000;

/// Bottom and top of the kernel stack of the task with number `app_id`.
/// The stacks lie below the trampoline, one page apart from each other.
pub open spec fn kernel_stack_position_of(app_id: int) -> (int, int) {
    (TRAMPOLINE - app_id * 12288 - 8192, TRAMPOLINE - app_id * 12288)
}

/// Bottom and top of the kernel stack of the task with number `app_id`.
pub fn kernel_stack_position(app_id: u64) -> (r: (u64, u64))
    requires
        kernel_stack_position_of(app_id as int).0 >= 0,
    ensures
        r.0 == kernel_stack_position_of(app_id as int).0,
        r.1 == kernel_stack_position_of(app_id as int).1,
        r.1 - r.0 == KERNEL_STACK_SIZE,
{
    let top = TRAMPOLINE - app_id * (KERNEL_STACK_SIZE + PAGE_SIZE);
    let bottom = top - KERNEL_STACK_SIZE;
    (bottom, top)
}

} // verus!
