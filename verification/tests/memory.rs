use sv39_kernel::config::kernel_stack_position;
use sv39_kernel::mm::address::{PhysAddr, PhysPageNum, VirtAddr, VirtPageNum};
use sv39_kernel::mm::elf::segment_permission;
use sv39_kernel::mm::frame_allocator::{frame_alloc, frame_dealloc, FramePool};
use sv39_kernel::mm::memory_set::{MapArea, MapPermission, MapType, MemorySet};
use sv39_kernel::mm::page_table::{
    translated_byte_buffer, translated_refmut, translated_str, PTEFlags, PageTable, UserBuffer, PTE_R, PTE_U, PTE_V,
    PTE_W, PTE_X,
};

fn small_pool() -> FramePool {
    FramePool::new(PhysPageNum(0x80400), PhysPageNum(0x80440))
}

#[test]
fn frame_alloc_hands_out_zeroed_pages() {
    let mut pool = small_pool();
    let frame = frame_alloc(&mut pool).unwrap();
    assert_eq!(frame.ppn, PhysPageNum(0x80400));
    assert!(pool.memory.page(frame.ppn.0).iter().all(|b| *b == 0));
    pool.memory.write_bytes(frame.ppn.0, 100, &[1, 2, 3, 4]);
    assert_eq!(pool.memory.read_u8(frame.ppn.0, 102), 3);
    frame_dealloc(&mut pool, frame.ppn);
    let again = frame_alloc(&mut pool).unwrap();
    assert_eq!(again.ppn, PhysPageNum(0x80400));
    assert!(pool.memory.page(again.ppn.0).iter().all(|b| *b == 0));
}

#[test]
fn frame_allocator_reuses_last_freed_first() {
    let mut pool = small_pool();
    let a = frame_alloc(&mut pool).unwrap().ppn;
    let b = frame_alloc(&mut pool).unwrap().ppn;
    let c = frame_alloc(&mut pool).unwrap().ppn;
    assert_eq!((a.0, b.0, c.0), (0x80400, 0x80401, 0x80402));
    frame_dealloc(&mut pool, a);
    frame_dealloc(&mut pool, c);
    assert!(!pool.allocator.is_allocated(c));
    assert!(pool.allocator.is_allocated(b));
    assert_eq!(frame_alloc(&mut pool).unwrap().ppn, c);
    assert_eq!(frame_alloc(&mut pool).unwrap().ppn, a);
    assert_eq!(frame_alloc(&mut pool).unwrap().ppn, PhysPageNum(0x80403));
}

#[test]
fn frame_allocator_runs_out() {
    let mut pool = FramePool::new(PhysPageNum(0x80400), PhysPageNum(0x80402));
    assert_eq!(pool.allocator.free_frames(), 2);
    assert!(frame_alloc(&mut pool).is_some());
    assert!(frame_alloc(&mut pool).is_some());
    assert!(frame_alloc(&mut pool).is_none());
    assert_eq!(pool.allocator.free_frames(), 0);
}

#[test]
fn map_then_translate_gives_the_page_and_flags() {
    let mut pool = small_pool();
    let mut table = PageTable::new(&mut pool);
    let vpn = VirtPageNum(0x12345);
    assert!(table.translate(vpn, &pool).is_none());
    table.map(vpn, PhysPageNum(0x80420), PTEFlags::from_bits(PTE_R | PTE_W), &mut pool);
    let pte = table.translate(vpn, &pool).unwrap();
    assert_eq!(pte.ppn(), PhysPageNum(0x80420));
    assert_eq!(pte.flags().bits, PTE_R | PTE_W | PTE_V);
    assert!(pte.is_valid() && pte.readable() && pte.writable() && !pte.executable());
    assert_eq!(pte.bits, (0x80420u64 << 10) | 0x7);
    assert!(table.translate(VirtPageNum(0x12346), &pool).is_none());
}

#[test]
fn map_then_unmap_restores_translation() {
    let mut pool = small_pool();
    let mut table = PageTable::new(&mut pool);
    table.map(VirtPageNum(7), PhysPageNum(0x80430), PTEFlags::from_bits(PTE_R), &mut pool);
    let before = table.translate(VirtPageNum(7), &pool).unwrap().bits;
    let vpn = VirtPageNum(8);
    table.map(vpn, PhysPageNum(0x80431), PTEFlags::from_bits(PTE_X | PTE_U), &mut pool);
    assert!(table.translate(vpn, &pool).is_some());
    table.unmap(vpn, &mut pool);
    assert!(table.translate(vpn, &pool).is_none());
    assert_eq!(table.translate(VirtPageNum(7), &pool).unwrap().bits, before);
}

#[test]
fn map_takes_tables_only_where_none_is() {
    let mut pool = small_pool();
    let mut table = PageTable::new(&mut pool);
    assert_eq!(pool.allocator.free_frames(), 63);
    table.map(VirtPageNum(0x200), PhysPageNum(0x80430), PTEFlags::from_bits(PTE_R), &mut pool);
    assert_eq!(pool.allocator.free_frames(), 61);
    table.map(VirtPageNum(0x201), PhysPageNum(0x80431), PTEFlags::from_bits(PTE_R), &mut pool);
    assert_eq!(pool.allocator.free_frames(), 61);
    table.map(VirtPageNum(0x400), PhysPageNum(0x80432), PTEFlags::from_bits(PTE_R), &mut pool);
    assert_eq!(pool.allocator.free_frames(), 60);
    assert_eq!(table.token(), (8u64 << 60) | 0x80400);
}

#[test]
fn page_numbers_and_indexes() {
    assert_eq!(VirtPageNum(0x12345).indexes(), [0, 145, 325]);
    assert_eq!(VirtPageNum(0x7ff_ffff).indexes(), [511, 511, 511]);
    assert_eq!(VirtAddr(0x1000).floor(), VirtPageNum(1));
    assert_eq!(VirtAddr(0x1000).ceil(), VirtPageNum(1));
    assert_eq!(VirtAddr(0x1001).floor(), VirtPageNum(1));
    assert_eq!(VirtAddr(0x1001).ceil(), VirtPageNum(2));
    assert_eq!(VirtAddr(0x1234).page_offset(), 0x234);
    assert!(VirtAddr(0x2000).aligned());
    assert!(!PhysAddr(0x2001).aligned());
    assert_eq!(PhysPageNum(0x80400).addr(), PhysAddr(0x8040_0000));
    assert_eq!(PhysAddr(0x8040_0fff).floor(), PhysPageNum(0x80400));
}

#[test]
fn kernel_stacks_lie_below_the_trampoline() {
    assert_eq!(kernel_stack_position(0), (0xFFFF_FFFF_FFFF_D000, 0xFFFF_FFFF_FFFF_F000));
    assert_eq!(kernel_stack_position(1), (0xFFFF_FFFF_FFFF_A000, 0xFFFF_FFFF_FFFF_C000));
    assert_eq!(kernel_stack_position(5), (0xFFFF_FFFF_FFFE_E000, 0xFFFF_FFFF_FFFF_0000));
}

#[test]
fn segment_rights_follow_the_elf_flags() {
    assert_eq!(segment_permission(0), PTE_U);
    assert_eq!(segment_permission(1), PTE_U | PTE_X);
    assert_eq!(segment_permission(2), PTE_U | PTE_W);
    assert_eq!(segment_permission(4), PTE_U | PTE_R);
    assert_eq!(segment_permission(5), PTE_U | PTE_R | PTE_X);
    assert_eq!(segment_permission(7), PTE_U | PTE_R | PTE_W | PTE_X);
}

fn user_space_with_two_pages(pool: &mut FramePool) -> MemorySet {
    let mut space = MemorySet::new_bare(pool);
    space.insert_framed_area(
        VirtAddr(0x1000_0000),
        VirtAddr(0x1000_2000),
        MapPermission::from_bits(PTE_R | PTE_W | PTE_U),
        pool,
    );
    space
}

#[test]
fn framed_area_maps_fresh_pages_and_copies_data() {
    let mut pool = small_pool();
    let mut space = MemorySet::new_bare(&mut pool);
    let data: Vec<u8> = (0..5000u32).map(|i| (i % 251) as u8).collect();
    let area = MapArea::new(
        VirtAddr(0x1000_0000),
        VirtAddr(0x1000_2000),
        MapType::Framed,
        MapPermission::from_bits(PTE_R | PTE_U),
    );
    space.push(area, Some(&data), &mut pool);
    let first = space.translate(VirtPageNum(0x10000), &pool).unwrap();
    let second = space.translate(VirtPageNum(0x10001), &pool).unwrap();
    assert_eq!(first.flags().bits, PTE_R | PTE_U | PTE_V);
    assert_ne!(first.ppn(), second.ppn());
    assert_eq!(pool.memory.page(first.ppn().0), &data[..4096]);
    assert_eq!(&pool.memory.page(second.ppn().0)[..904], &data[4096..]);
    assert!(pool.memory.page(second.ppn().0)[904..].iter().all(|b| *b == 0));
    assert!(space.translate(VirtPageNum(0x10002), &pool).is_none());
}

#[test]
fn user_buffer_is_cut_at_page_boundaries() {
    let mut pool = small_pool();
    let space = user_space_with_two_pages(&mut pool);
    let token = space.token();
    let first = space.translate(VirtPageNum(0x10000), &pool).unwrap().ppn();
    let second = space.translate(VirtPageNum(0x10001), &pool).unwrap().ppn();
    let slices = translated_byte_buffer(token, 0x1000_0ff0, 32, &pool).unwrap();
    assert_eq!(slices.len(), 2);
    assert_eq!((slices[0].ppn, slices[0].start, slices[0].end), (first, 0xff0, 0x1000));
    assert_eq!((slices[1].ppn, slices[1].start, slices[1].end), (second, 0, 0x10));
    let buffer = UserBuffer::new(slices);
    assert_eq!(buffer.len(), 32);
    let mut walk = buffer.into_iter();
    assert_eq!(walk.next(), Some((first, 0xff0)));
    for _ in 0..15 {
        walk.next();
    }
    assert_eq!(walk.next(), Some((second, 0)));
    assert!(translated_byte_buffer(token, 0x1000_1ff0, 32, &pool).is_none());
    assert_eq!(translated_byte_buffer(token, 0x1000_0000, 0, &pool).unwrap().len(), 0);
}

#[test]
fn user_string_is_read_up_to_its_zero_byte() {
    let mut pool = small_pool();
    let space = user_space_with_two_pages(&mut pool);
    let token = space.token();
    let (ppn, offset) = translated_refmut(token, 0x1000_0ffd, &pool).unwrap();
    assert_eq!(offset, 0xffd);
    pool.memory.write_bytes(ppn.0, offset, b"abc");
    let (next, start) = translated_refmut(token, 0x1000_1000, &pool).unwrap();
    assert_eq!(start, 0);
    pool.memory.write_bytes(next.0, 0, b"de\0x");
    assert_eq!(translated_str(token, 0x1000_0ffd, &pool).unwrap(), b"abcde".to_vec());
    assert!(translated_refmut(token, 0x2000_0000, &pool).is_none());
    assert!(translated_str(token, 0x2000_0000, &pool).is_none());
}
