use sv39_kernel::config::kernel_stack_position;
use sv39_kernel::easy_fs::block_dev::BlockDevice;
use sv39_kernel::easy_fs::efs::EasyFileSystem;
use sv39_kernel::fs::inode::{CREATE, RDONLY, RDWR};
use sv39_kernel::fs::FileDescriptor;
use sv39_kernel::kernel::Kernel;
use sv39_kernel::mm::address::VirtPageNum;
use sv39_kernel::mm::elf::{ElfImage, ProgramHeader};
use sv39_kernel::mm::memory_set::KernelLayout;
use sv39_kernel::mm::page_table::{PTE_R, PTE_U, PTE_V, PTE_W, PTE_X};
use sv39_kernel::syscall::exec::{exec_request, sys_exec};
use sv39_kernel::syscall::file_io::{finish_console_read, read_from, sys_read, sys_write, FileStep};
use sv39_kernel::syscall::filesystem::{sys_close, sys_dup, sys_open, sys_pipe};
use sv39_kernel::syscall::process::{sys_exit, sys_fork, sys_getpid, sys_yield};
use sv39_kernel::syscall::wait::sys_waitpid;
use sv39_kernel::syscall::Syscall;
use sv39_kernel::task::processor::{ContextSlot, Switch};
use sv39_kernel::task::task::TaskStatus;
use sv39_kernel::trap::{finish_syscall, trap_handler, TrapAction, TrapCause};

struct RamDisk {
    blocks: Vec<[u8; 512]>,
}

impl BlockDevice for RamDisk {
    fn read_block(&self, block_id: usize, buf: &mut [u8; 512]) {
        *buf = self.blocks[block_id];
    }

    fn write_block(&mut self, block_id: usize, buf: &[u8; 512]) {
        self.blocks[block_id] = *buf;
    }
}

const SSTATUS: u64 = 0x8000_0000_0000_0120;
const STACK_TOP: u64 = 0x16000;

fn program() -> (ElfImage, Vec<u8>) {
    let data: Vec<u8> = (0..0x1300usize).map(|i| (i * 11 % 251) as u8).collect();
    let elf = ElfImage {
        magic: [0x7f, 0x45, 0x4c, 0x46],
        entry_point: 0x10040,
        program_headers: vec![
            ProgramHeader { is_load: true, virtual_addr: 0x10000, mem_size: 0x1800, offset: 0x100, file_size: 0x1000, flags: 5 },
            ProgramHeader { is_load: false, virtual_addr: 0, mem_size: 0, offset: 0, file_size: 0, flags: 4 },
            ProgramHeader { is_load: true, virtual_addr: 0x12000, mem_size: 0x400, offset: 0x1100, file_size: 0x200, flags: 6 },
        ],
    };
    (elf, data)
}

fn boot() -> Kernel<RamDisk> {
    let layout = KernelLayout {
        stext: 0x8020_0000,
        etext: 0x8021_0000,
        srodata: 0x8021_0000,
        erodata: 0x8022_0000,
        sdata: 0x8022_0000,
        edata: 0x8023_0000,
        sbss_with_stack: 0x8023_0000,
        ebss: 0x8024_0000,
        ekernel: 0x8024_0000,
        strampoline: 0x8020_1000,
    };
    let (elf, data) = program();
    assert!(layout.check());
    assert!(elf.check(data.len()));
    let fs = EasyFileSystem::create(RamDisk { blocks: vec![[0u8; 512]; 4096] }, 4096, 1);
    let root = EasyFileSystem::root_inode(&fs);
    let mut kernel = Kernel::new(&layout, 0x8020_2000, 0x8020_3000, SSTATUS, &elf, &data, fs, root);
    assert_eq!(kernel.initproc, 0);
    assert_eq!(kernel.tasks.tasks[0].inner.task_status, TaskStatus::Ready);
    assert_eq!(kernel.run_next(), Some(Switch { from: ContextSlot::Idle, to: ContextSlot::Task(0) }));
    kernel
}

fn index_of(kernel: &Kernel<RamDisk>, pid: usize) -> usize {
    kernel.tasks.find(pid).unwrap()
}

fn user_page(kernel: &Kernel<RamDisk>, pid: usize, vpn: u64) -> Vec<u8> {
    let task = &kernel.tasks.tasks[index_of(kernel, pid)];
    let pte = task.inner.memory_set.translate(VirtPageNum(vpn), &kernel.pool).unwrap();
    kernel.pool.memory.page(pte.ppn().0).to_vec()
}

fn poke(kernel: &mut Kernel<RamDisk>, pid: usize, va: u64, bytes: &[u8]) {
    let i = index_of(kernel, pid);
    let pte = kernel.tasks.tasks[i].inner.memory_set.translate(VirtPageNum(va / 4096), &kernel.pool).unwrap();
    kernel.pool.memory.write_bytes(pte.ppn().0, (va % 4096) as usize, bytes);
}

fn peek(kernel: &Kernel<RamDisk>, pid: usize, va: u64, len: usize) -> Vec<u8> {
    let page = user_page(kernel, pid, va / 4096);
    page[(va % 4096) as usize..(va % 4096) as usize + len].to_vec()
}

fn run_next(kernel: &mut Kernel<RamDisk>) -> Option<Switch> {
    kernel.run_next()
}

#[test]
fn first_task_holds_the_program() {
    let kernel = boot();
    let (_, data) = program();
    let task = &kernel.tasks.tasks[0];
    assert_eq!(task.pid.0, 0);
    assert_eq!(task.kernel_stack.pid, 0);
    assert_eq!(task.inner.base_size, STACK_TOP);
    assert_eq!(task.inner.parent, None);
    assert!(task.inner.children.is_empty());
    assert_eq!(
        task.inner.fd_table,
        vec![Some(FileDescriptor::Stdin), Some(FileDescriptor::Stdout), Some(FileDescriptor::Stdout)]
    );
    assert_eq!(user_page(&kernel, 0, 0x10), data[0x100..0x1100].to_vec());
    assert!(user_page(&kernel, 0, 0x11).iter().all(|b| *b == 0));
    let third = user_page(&kernel, 0, 0x12);
    assert_eq!(&third[..0x200], &data[0x1100..0x1300]);
    assert!(third[0x200..].iter().all(|b| *b == 0));
    let space = &task.inner.memory_set;
    assert_eq!(space.translate(VirtPageNum(0x10), &kernel.pool).unwrap().flags().bits, PTE_U | PTE_R | PTE_X | PTE_V);
    assert_eq!(space.translate(VirtPageNum(0x12), &kernel.pool).unwrap().flags().bits, PTE_U | PTE_R | PTE_W | PTE_V);
    assert!(space.translate(VirtPageNum(0x13), &kernel.pool).is_none());
    assert_eq!(space.translate(VirtPageNum(0x14), &kernel.pool).unwrap().flags().bits, PTE_U | PTE_R | PTE_W | PTE_V);
    assert!(space.translate(VirtPageNum(0x15), &kernel.pool).is_some());
    assert!(space.translate(VirtPageNum(0x16), &kernel.pool).is_none());
    let trampoline = space.translate(VirtPageNum(0xFFFF_FFFF_FFFF_F000 / 4096), &kernel.pool).unwrap();
    assert_eq!(trampoline.ppn().0, 0x80201);
    assert_eq!(trampoline.flags().bits, PTE_R | PTE_X | PTE_V);
    let trap_page = space.translate(VirtPageNum(0xFFFF_FFFF_FFFF_E000 / 4096), &kernel.pool).unwrap();
    assert_eq!(trap_page.ppn(), task.inner.trap_cx_ppn);
    assert_eq!(trap_page.flags().bits, PTE_R | PTE_W | PTE_V);
    let cx = task.inner.get_trap_cx(&kernel.pool);
    assert_eq!(cx.sepc, 0x10040);
    assert_eq!(cx.x[2], STACK_TOP);
    assert_eq!(cx.kernel_satp, kernel.kernel_space.token());
    assert_eq!(cx.kernel_sp, kernel_stack_position(0).1);
    assert_eq!(cx.trap_handler, 0x8020_2000);
    assert_eq!(cx.sstatus, SSTATUS & !0x100);
    assert_eq!(task.inner.task_cx_ptr, kernel_stack_position(0).1 - 104);
    let stack_top_page = kernel
        .kernel_space
        .translate(VirtPageNum(kernel_stack_position(0).1 / 4096 - 1), &kernel.pool)
        .unwrap();
    let page = kernel.pool.memory.page(stack_top_page.ppn().0);
    assert_eq!(&page[4096 - 104..4096 - 96], &0x8020_3000u64.to_le_bytes());
    assert!(page[4096 - 96..].iter().all(|b| *b == 0));
}

#[test]
fn kernel_space_maps_each_page_to_itself() {
    let kernel = boot();
    let space = &kernel.kernel_space;
    let text = space.translate(VirtPageNum(0x80200), &kernel.pool).unwrap();
    assert_eq!(text.ppn().0, 0x80200);
    assert_eq!(text.flags().bits, PTE_R | PTE_X | PTE_V);
    let rodata = space.translate(VirtPageNum(0x80210), &kernel.pool).unwrap();
    assert_eq!(rodata.flags().bits, PTE_R | PTE_V);
    let data = space.translate(VirtPageNum(0x80220), &kernel.pool).unwrap();
    assert_eq!(data.flags().bits, PTE_R | PTE_W | PTE_V);
    let memory = space.translate(VirtPageNum(0x807ff), &kernel.pool).unwrap();
    assert_eq!(memory.ppn().0, 0x807ff);
    assert!(space.translate(VirtPageNum(0x80800), &kernel.pool).is_none());
    assert!(space.translate(VirtPageNum(0x801ff), &kernel.pool).is_none());
}

#[test]
fn fork_copies_the_task_and_returns_zero_to_the_child() {
    let mut kernel = boot();
    poke(&mut kernel, 0, 0x15f00, b"parent data");
    let mut cx = kernel.tasks.tasks[0].inner.get_trap_cx(&kernel.pool);
    cx.x[10] = 99;
    cx.x[17] = 220;
    cx.x[5] = 0x1234;
    cx.store(&mut kernel.pool, kernel.tasks.tasks[0].inner.trap_cx_ppn.0);
    assert_eq!(sys_fork(&mut kernel), 1);
    finish_syscall(&mut kernel, 1);
    assert_eq!(kernel.tasks.tasks.len(), 2);
    let parent = &kernel.tasks.tasks[0];
    let child = &kernel.tasks.tasks[1];
    assert_eq!(child.pid.0, 1);
    assert_eq!(child.inner.parent, Some(0));
    assert_eq!(parent.inner.children, vec![1]);
    assert_eq!(child.inner.task_status, TaskStatus::Ready);
    assert_eq!(child.inner.fd_table, parent.inner.fd_table);
    assert_eq!(child.inner.base_size, STACK_TOP);
    assert_eq!(kernel.manager.ready_queue.iter().copied().collect::<Vec<usize>>(), vec![1]);
    let parent_cx = parent.inner.get_trap_cx(&kernel.pool);
    let child_cx = child.inner.get_trap_cx(&kernel.pool);
    assert_eq!(child_cx.x[10], 0);
    assert_eq!(parent_cx.x[10], 1);
    assert_eq!(child_cx.x[5], 0x1234);
    assert_eq!(child_cx.x[17], 220);
    assert_eq!(child_cx.sepc, parent_cx.sepc);
    assert_eq!(child_cx.x[2], parent_cx.x[2]);
    assert_eq!(child_cx.kernel_sp, kernel_stack_position(1).1);
    assert_eq!(parent_cx.kernel_sp, kernel_stack_position(0).1);
    for vpn in [0x10u64, 0x11, 0x12, 0x14, 0x15] {
        assert_eq!(user_page(&kernel, 0, vpn), user_page(&kernel, 1, vpn));
        let a = parent.inner.memory_set.translate(VirtPageNum(vpn), &kernel.pool).unwrap();
        let b = child.inner.memory_set.translate(VirtPageNum(vpn), &kernel.pool).unwrap();
        assert_ne!(a.ppn(), b.ppn());
        assert_eq!(a.flags().bits, b.flags().bits);
    }
    assert_eq!(peek(&kernel, 1, 0x15f00, 11), b"parent data".to_vec());
    poke(&mut kernel, 1, 0x15f00, b"child ");
    assert_eq!(peek(&kernel, 0, 0x15f00, 11), b"parent data".to_vec());
}

#[test]
fn yield_puts_the_task_behind_the_ready_ones() {
    let mut kernel = boot();
    sys_fork(&mut kernel);
    sys_fork(&mut kernel);
    let (switch, result) = sys_yield(&mut kernel);
    assert_eq!(result, 0);
    assert_eq!(switch, Switch { from: ContextSlot::Task(0), to: ContextSlot::Idle });
    assert_eq!(kernel.processor.current, None);
    assert_eq!(kernel.tasks.tasks[0].inner.task_status, TaskStatus::Ready);
    assert_eq!(kernel.manager.ready_queue.iter().copied().collect::<Vec<usize>>(), vec![1, 2, 0]);
    assert_eq!(run_next(&mut kernel), Some(Switch { from: ContextSlot::Idle, to: ContextSlot::Task(1) }));
    assert_eq!(sys_getpid(&kernel), 1);
    assert_eq!(kernel.tasks.tasks[1].inner.task_status, TaskStatus::Running);
    sys_yield(&mut kernel);
    assert_eq!(run_next(&mut kernel).unwrap().to, ContextSlot::Task(2));
    sys_yield(&mut kernel);
    assert_eq!(run_next(&mut kernel).unwrap().to, ContextSlot::Task(0));
    assert_eq!(kernel.manager.ready_queue.iter().copied().collect::<Vec<usize>>(), vec![1, 2]);
}

#[test]
fn exit_leaves_a_zombie_and_frees_its_pages() {
    let mut kernel = boot();
    sys_fork(&mut kernel);
    sys_yield(&mut kernel);
    run_next(&mut kernel);
    assert_eq!(sys_getpid(&kernel), 1);
    assert_eq!(sys_fork(&mut kernel), 2);
    let free_before = kernel.pool.allocator.free_frames();
    let switch = sys_exit(&mut kernel, 42);
    assert_eq!(switch, Switch { from: ContextSlot::Unused, to: ContextSlot::Idle });
    assert_eq!(kernel.processor.current, None);
    let zombie = &kernel.tasks.tasks[1];
    assert_eq!(zombie.inner.task_status, TaskStatus::Zombie);
    assert_eq!(zombie.inner.exit_code, 42);
    assert!(zombie.inner.children.is_empty());
    assert!(zombie.inner.memory_set.areas.is_empty());
    assert_eq!(kernel.pool.allocator.free_frames(), free_before + 6);
    assert_eq!(kernel.tasks.tasks[2].inner.parent, Some(0));
    assert_eq!(kernel.tasks.tasks[0].inner.children, vec![1, 2]);
    assert_eq!(kernel.manager.ready_queue.iter().copied().collect::<Vec<usize>>(), vec![0, 2]);
}

#[test]
fn waitpid_reaps_a_zombie_and_hands_out_its_exit_code() {
    let mut kernel = boot();
    let code_at = 0x15ff0u64;
    assert_eq!(sys_waitpid(&mut kernel, -1, code_at), -1);
    assert_eq!(sys_fork(&mut kernel), 1);
    assert_eq!(sys_waitpid(&mut kernel, -1, code_at), -2);
    assert_eq!(sys_waitpid(&mut kernel, 1, code_at), -2);
    assert_eq!(sys_waitpid(&mut kernel, 5, code_at), -1);
    sys_yield(&mut kernel);
    run_next(&mut kernel);
    sys_exit(&mut kernel, -3);
    run_next(&mut kernel);
    assert_eq!(sys_getpid(&kernel), 0);
    let free_before = kernel.pool.allocator.free_frames();
    let areas_before = kernel.kernel_space.areas.len();
    assert_eq!(sys_waitpid(&mut kernel, -1, 0x9000_0000), -1);
    assert_eq!(kernel.tasks.tasks.len(), 2);
    assert_eq!(sys_waitpid(&mut kernel, -1, code_at), 1);
    assert_eq!(peek(&kernel, 0, code_at, 4), (-3i32).to_le_bytes().to_vec());
    assert_eq!(kernel.tasks.tasks.len(), 1);
    assert!(kernel.tasks.tasks[0].inner.children.is_empty());
    assert!(!kernel.pid_allocator.is_allocated(1));
    assert_eq!(kernel.kernel_space.areas.len(), areas_before - 1);
    assert!(kernel
        .kernel_space
        .translate(VirtPageNum(kernel_stack_position(1).0 / 4096), &kernel.pool)
        .is_none());
    assert!(kernel.pool.allocator.free_frames() >= free_before + 2 + 3);
    assert_eq!(sys_waitpid(&mut kernel, -1, code_at), -1);
    assert_eq!(sys_fork(&mut kernel), 1);
}

#[test]
fn pipe_moves_bytes_from_writer_to_reader() {
    let mut kernel = boot();
    assert_eq!(sys_pipe(&mut kernel, 0x9000_0000), -1);
    assert!(kernel.pipes.is_empty());
    assert_eq!(sys_pipe(&mut kernel, 0x15000), 0);
    assert_eq!(peek(&kernel, 0, 0x15000, 16), [3u64.to_le_bytes(), 4u64.to_le_bytes()].concat());
    assert_eq!(kernel.tasks.tasks[0].inner.fd_table[3], Some(FileDescriptor::PipeRead(0)));
    assert_eq!(kernel.tasks.tasks[0].inner.fd_table[4], Some(FileDescriptor::PipeWrite(0)));
    assert_eq!(kernel.pipes[0].write_end, Some(1));
    poke(&mut kernel, 0, 0x15100, b"HELLO");
    assert_eq!(sys_write(&mut kernel, 4, 0x15100, 5), FileStep::Done(5));
    assert_eq!(sys_write(&mut kernel, 3, 0x15100, 5), FileStep::Done(-1));
    assert_eq!(sys_read(&mut kernel, 4, 0x15200, 16), FileStep::Done(-1));
    assert_eq!(sys_read(&mut kernel, 3, 0x15200, 16), FileStep::Wait(5));
    assert_eq!(peek(&kernel, 0, 0x15200, 5), b"HELLO".to_vec());
    assert_eq!(read_from(&mut kernel, 3, 0x15205, 11, 5), FileStep::Wait(5));
    poke(&mut kernel, 0, 0x15100, b"xy");
    assert_eq!(sys_write(&mut kernel, 4, 0x15100, 2), FileStep::Done(2));
    assert_eq!(sys_close(&mut kernel, 4), 0);
    assert_eq!(kernel.pipes[0].write_end, Some(0));
    assert_eq!(read_from(&mut kernel, 3, 0x15205, 11, 5), FileStep::Done(7));
    assert_eq!(peek(&kernel, 0, 0x15200, 7), b"HELLOxy".to_vec());
    assert_eq!(sys_read(&mut kernel, 3, 0x15200, 16), FileStep::Done(0));
    assert_eq!(sys_close(&mut kernel, 4), -1);
    assert_eq!(sys_close(&mut kernel, 77), -1);
    assert_eq!(sys_dup(&mut kernel, 1), 4);
    assert_eq!(kernel.tasks.tasks[0].inner.fd_table[4], Some(FileDescriptor::Stdout));
    assert_eq!(sys_dup(&mut kernel, 9), -1);
}

#[test]
fn pipe_takes_what_it_has_room_for() {
    let mut kernel = boot();
    assert_eq!(sys_pipe(&mut kernel, 0x15000), 0);
    let data: Vec<u8> = (0..40u8).collect();
    poke(&mut kernel, 0, 0x15100, &data);
    assert_eq!(sys_write(&mut kernel, 4, 0x15100, 40), FileStep::Wait(32));
    assert_eq!(sys_read(&mut kernel, 3, 0x15200, 10), FileStep::Done(10));
    assert_eq!(peek(&kernel, 0, 0x15200, 10), data[..10].to_vec());
    assert_eq!(
        sv39_kernel::syscall::file_io::write_from(&mut kernel, 4, 0x15100, 40, 32),
        FileStep::Done(40)
    );
    assert_eq!(sys_read(&mut kernel, 3, 0x15300, 64), FileStep::Wait(30));
    assert_eq!(peek(&kernel, 0, 0x15300, 30), data[10..].to_vec());
}

#[test]
fn console_reads_and_writes_are_handed_out() {
    let mut kernel = boot();
    poke(&mut kernel, 0, 0x15ffc, b"hi!!");
    assert_eq!(sys_write(&mut kernel, 1, 0x15ffc, 4), FileStep::Print(b"hi!!".to_vec()));
    assert_eq!(sys_write(&mut kernel, 0, 0x15ffc, 4), FileStep::Done(-1));
    assert_eq!(sys_write(&mut kernel, 1, 0x15ffc, 8), FileStep::Done(-1));
    assert_eq!(sys_read(&mut kernel, 0, 0x15000, 1), FileStep::ReadChar);
    assert_eq!(sys_read(&mut kernel, 0, 0x15000, 2), FileStep::Done(-1));
    assert_eq!(sys_read(&mut kernel, 1, 0x15000, 1), FileStep::Done(-1));
    assert_eq!(finish_console_read(&mut kernel, 0x15000, b'q'), 1);
    assert_eq!(peek(&kernel, 0, 0x15000, 1), vec![b'q']);
    assert_eq!(finish_console_read(&mut kernel, 0x9000_0000, b'q'), -1);
}

#[test]
fn files_are_opened_written_and_read() {
    let mut kernel = boot();
    poke(&mut kernel, 0, 0x15000, b"notes\0");
    poke(&mut kernel, 0, 0x15100, b"some text");
    assert_eq!(sys_open(&mut kernel, 0x15000, RDONLY), -1);
    assert_eq!(sys_open(&mut kernel, 0x15000, 0x8), -1);
    assert_eq!(sys_open(&mut kernel, 0x9000_0000, CREATE), -1);
    assert_eq!(sys_open(&mut kernel, 0x15000, CREATE | RDWR), 3);
    assert_eq!(kernel.tasks.tasks[0].inner.fd_table[3], Some(FileDescriptor::Inode(0)));
    assert_eq!(sys_write(&mut kernel, 3, 0x15100, 9), FileStep::Done(9));
    assert_eq!(kernel.files[0].offset, 9);
    assert_eq!(sys_read(&mut kernel, 3, 0x15200, 9), FileStep::Done(0));
    assert_eq!(sys_close(&mut kernel, 3), 0);
    assert_eq!(sys_open(&mut kernel, 0x15000, RDONLY), 3);
    assert_eq!(kernel.tasks.tasks[0].inner.fd_table[3], Some(FileDescriptor::Inode(1)));
    assert_eq!(sys_write(&mut kernel, 3, 0x15100, 9), FileStep::Done(-1));
    assert_eq!(sys_read(&mut kernel, 3, 0x15200, 4), FileStep::Done(4));
    assert_eq!(sys_read(&mut kernel, 3, 0x15204, 100), FileStep::Done(5));
    assert_eq!(peek(&kernel, 0, 0x15200, 9), b"some text".to_vec());
    assert_eq!(sys_read(&mut kernel, 3, 0x15200, 4), FileStep::Done(0));
}

#[test]
fn exec_replaces_the_program_and_pushes_the_arguments() {
    let mut kernel = boot();
    let (elf, data) = program();
    let file = kernel.root.create(b"prog", &mut kernel.fs).unwrap();
    file.write_at(0, &data, &mut kernel.fs);
    poke(&mut kernel, 0, 0x15000, b"prog\0");
    poke(&mut kernel, 0, 0x15010, b"ab\0");
    poke(&mut kernel, 0, 0x15020, b"cde\0");
    poke(&mut kernel, 0, 0x15100, &[0x15010u64.to_le_bytes(), 0x15020u64.to_le_bytes(), 0u64.to_le_bytes()].concat());
    poke(&mut kernel, 0, 0x15200, b"none\0");
    assert!(exec_request(&mut kernel, 0x15200, 0x15100).is_none());
    assert!(exec_request(&mut kernel, 0x15000, 0x9000_0000).is_none());
    let (bytes, args) = exec_request(&mut kernel, 0x15000, 0x15100).unwrap();
    assert_eq!(bytes, data);
    assert_eq!(args, vec![b"ab".to_vec(), b"cde".to_vec()]);
    let old_trap_page = kernel.tasks.tasks[0].inner.trap_cx_ppn;
    let free_before = kernel.pool.allocator.free_frames();
    assert_eq!(sys_exec(&mut kernel, &elf, &bytes, args, SSTATUS), 2);
    assert_eq!(kernel.pool.allocator.free_frames(), free_before);
    let task = &kernel.tasks.tasks[0];
    assert_eq!(task.pid.0, 0);
    assert_eq!(task.inner.fd_table.len(), 3);
    let cx = task.inner.get_trap_cx(&kernel.pool);
    let argv_base = STACK_TOP - 3 * 8;
    assert_eq!(cx.x[10], 2);
    assert_eq!(cx.x[11], argv_base);
    assert_eq!(cx.sepc, 0x10040);
    assert_eq!(cx.kernel_sp, kernel_stack_position(0).1);
    assert_eq!(cx.kernel_satp, kernel.kernel_space.token());
    let first = argv_base - 3;
    let second = first - 4;
    assert_eq!(
        peek(&kernel, 0, argv_base, 24),
        [first.to_le_bytes(), second.to_le_bytes(), 0u64.to_le_bytes()].concat()
    );
    assert_eq!(peek(&kernel, 0, first, 3), b"ab\0".to_vec());
    assert_eq!(peek(&kernel, 0, second, 4), b"cde\0".to_vec());
    assert_eq!(cx.x[2], second - second % 8);
    assert_eq!(user_page(&kernel, 0, 0x10), data[0x100..0x1100].to_vec());
    assert!(peek(&kernel, 0, 0x15000, 5).iter().all(|b| *b == 0));
    let _ = old_trap_page;
}

#[test]
fn traps_are_told_apart() {
    let mut kernel = boot();
    sys_fork(&mut kernel);
    sys_yield(&mut kernel);
    run_next(&mut kernel);
    let i = index_of(&kernel, 1);
    let mut cx = kernel.tasks.tasks[i].inner.get_trap_cx(&kernel.pool);
    cx.x[17] = 64;
    cx.x[10] = 1;
    cx.x[11] = 0x15000;
    cx.x[12] = 5;
    cx.sepc = 0x10100;
    cx.store(&mut kernel.pool, kernel.tasks.tasks[i].inner.trap_cx_ppn.0);
    let action = trap_handler(&mut kernel, TrapCause::UserEnvCall, 0);
    assert_eq!(
        action,
        TrapAction::Call { number: 64, call: Some(Syscall::Write), arg0: 1, arg1: 0x15000, arg2: 5 }
    );
    assert_eq!(kernel.tasks.tasks[i].inner.get_trap_cx(&kernel.pool).sepc, 0x10104);
    finish_syscall(&mut kernel, -1);
    assert_eq!(kernel.tasks.tasks[i].inner.get_trap_cx(&kernel.pool).x[10], u64::MAX);
    let action = trap_handler(&mut kernel, TrapCause::SupervisorTimer, 1000);
    assert_eq!(
        action,
        TrapAction::Preempted { next: 126000, switch: Switch { from: ContextSlot::Task(1), to: ContextSlot::Idle } }
    );
    assert_eq!(kernel.manager.ready_queue.iter().copied().collect::<Vec<usize>>(), vec![0, 1]);
    run_next(&mut kernel);
    sys_yield(&mut kernel);
    run_next(&mut kernel);
    assert_eq!(sys_getpid(&kernel), 1);
    let action = trap_handler(&mut kernel, TrapCause::LoadPageFault, 0);
    assert_eq!(
        action,
        TrapAction::Killed { exit_code: -2, switch: Switch { from: ContextSlot::Unused, to: ContextSlot::Idle } }
    );
    assert_eq!(kernel.tasks.tasks[i].inner.exit_code, -2);
    assert_eq!(kernel.tasks.tasks[i].inner.task_status, TaskStatus::Zombie);
    run_next(&mut kernel);
    assert_eq!(sys_fork(&mut kernel), 2);
    sys_yield(&mut kernel);
    run_next(&mut kernel);
    assert_eq!(sys_getpid(&kernel), 2);
    let action = trap_handler(&mut kernel, TrapCause::IllegalInstruction, 0);
    assert_eq!(
        action,
        TrapAction::Killed { exit_code: -3, switch: Switch { from: ContextSlot::Unused, to: ContextSlot::Idle } }
    );
}

#[test]
fn parent_writes_to_child_through_a_pipe() {
    let mut kernel = boot();
    assert_eq!(sys_pipe(&mut kernel, 0x15000), 0);
    assert_eq!(sys_fork(&mut kernel), 1);
    assert_eq!(kernel.pipes[0].write_end, Some(2));
    assert_eq!(sys_close(&mut kernel, 3), 0);
    poke(&mut kernel, 0, 0x15100, b"HELLO");
    assert_eq!(sys_write(&mut kernel, 4, 0x15100, 5), FileStep::Done(5));
    assert_eq!(sys_close(&mut kernel, 4), 0);
    poke(&mut kernel, 0, 0x15ff0, &[0xff; 4]);
    assert_eq!(sys_waitpid(&mut kernel, 1, 0x15ff0), -2);
    sys_yield(&mut kernel);
    run_next(&mut kernel);
    assert_eq!(sys_getpid(&kernel), 1);
    assert_eq!(sys_close(&mut kernel, 4), 0);
    assert_eq!(kernel.pipes[0].write_end, Some(0));
    assert_eq!(sys_read(&mut kernel, 3, 0x15200, 16), FileStep::Done(5));
    assert_eq!(peek(&kernel, 1, 0x15200, 5), b"HELLO".to_vec());
    assert_eq!(sys_read(&mut kernel, 3, 0x15200, 16), FileStep::Done(0));
    sys_exit(&mut kernel, 0);
    run_next(&mut kernel);
    assert_eq!(sys_getpid(&kernel), 0);
    assert_eq!(sys_waitpid(&mut kernel, 1, 0x15ff0), 1);
    assert_eq!(peek(&kernel, 0, 0x15ff0, 4), vec![0, 0, 0, 0]);
}

#[test]
fn file_keeps_its_bytes_until_it_is_truncated() {
    let mut kernel = boot();
    poke(&mut kernel, 0, 0x15000, b"log\0");
    poke(&mut kernel, 0, 0x15100, b"abc");
    assert_eq!(sys_open(&mut kernel, 0x15000, CREATE | 1), 3);
    assert_eq!(sys_write(&mut kernel, 3, 0x15100, 3), FileStep::Done(3));
    assert_eq!(sys_close(&mut kernel, 3), 0);
    assert_eq!(sys_open(&mut kernel, 0x15000, RDONLY), 3);
    assert_eq!(sys_read(&mut kernel, 3, 0x15200, 3), FileStep::Done(3));
    assert_eq!(peek(&kernel, 0, 0x15200, 3), b"abc".to_vec());
    assert_eq!(sys_close(&mut kernel, 3), 0);
    assert_eq!(sys_open(&mut kernel, 0x15000, 0x400), 3);
    assert_eq!(sys_read(&mut kernel, 3, 0x15200, 3), FileStep::Done(0));
}

#[test]
fn file_of_forty_blocks_is_read_back_after_reopening() {
    let mut kernel = boot();
    let data: Vec<u8> = (0..40 * 512usize).map(|i| (i * 13 % 241) as u8).collect();
    let made = sv39_kernel::fs::inode::open_file(
        &kernel.root,
        b"forty",
        sv39_kernel::fs::inode::OpenFlags { bits: CREATE | RDWR },
        &mut kernel.fs,
    )
    .unwrap();
    assert_eq!(made.inode.write_at(0, &data, &mut kernel.fs), data.len());
    let mut again = sv39_kernel::fs::inode::open_file(
        &kernel.root,
        b"forty",
        sv39_kernel::fs::inode::OpenFlags { bits: RDONLY },
        &mut kernel.fs,
    )
    .unwrap();
    assert_eq!(again.read_all(&mut kernel.fs), data);
}

#[test]
fn forked_child_runs_another_program() {
    let mut kernel = boot();
    let (elf, data) = program();
    let file = kernel.root.create(b"hello", &mut kernel.fs).unwrap();
    file.write_at(0, &data, &mut kernel.fs);
    poke(&mut kernel, 0, 0x15000, b"hello\0");
    poke(&mut kernel, 0, 0x15100, &0u64.to_le_bytes());
    assert_eq!(sys_fork(&mut kernel), 1);
    sys_yield(&mut kernel);
    run_next(&mut kernel);
    let (bytes, args) = exec_request(&mut kernel, 0x15000, 0x15100).unwrap();
    assert!(args.is_empty());
    assert!(elf.check(bytes.len()));
    assert_eq!(elf.pages_needed(bytes.len()), 3 + (2 + 2) + (1 + 2) + (2 + 2) + (1 + 2));
    assert_eq!(sys_exec(&mut kernel, &elf, &bytes, args, SSTATUS), 0);
    finish_syscall(&mut kernel, 0);
    let cx = kernel.tasks.tasks[1].inner.get_trap_cx(&kernel.pool);
    assert_eq!((cx.x[10], cx.x[11], cx.sepc), (0, STACK_TOP - 8, 0x10040));
    assert_eq!(kernel.tasks.tasks[1].inner.parent, Some(0));
    sys_exit(&mut kernel, 0);
    run_next(&mut kernel);
    poke(&mut kernel, 0, 0x15ff0, &[0xff; 4]);
    assert_eq!(sys_waitpid(&mut kernel, -1, 0x15ff0), 1);
    assert_eq!(peek(&kernel, 0, 0x15ff0, 4), vec![0, 0, 0, 0]);
}

#[test]
fn programs_that_cannot_be_loaded_are_told() {
    let (mut elf, data) = program();
    assert!(elf.check(data.len()));
    assert!(!elf.check(0x12ff));
    elf.magic = [0x7f, 0x45, 0x4c, 0x47];
    assert!(!elf.check(data.len()));
    elf.magic = [0x7f, 0x45, 0x4c, 0x46];
    elf.program_headers[2].virtual_addr = 0x11800;
    assert!(!elf.check(data.len()));
    elf.program_headers[2].virtual_addr = 0x12000;
    elf.program_headers[2].mem_size = 0;
    assert!(!elf.check(data.len()));
    elf.program_headers[2].mem_size = u64::MAX;
    assert!(!elf.check(data.len()));
    let kernel = boot();
    assert_eq!(kernel.tasks.tasks[0].inner.memory_set.fork_cost(), 3 + (2 + 2) + (1 + 2) + (2 + 2) + (1 + 2));
    assert!(TrapCause::LoadFault.is_fault() && TrapCause::IllegalInstruction.is_fault());
    assert!(!TrapCause::UserEnvCall.is_fault() && !TrapCause::SupervisorTimer.is_fault());
    assert_eq!(sv39_kernel::mm::elf_check::map_cost_of(0x1ff, 0x201, true), 2 + 2 + 1);
    assert_eq!(sv39_kernel::mm::elf_check::map_cost_of(0x3ffff, 0x40001, false), 2 + 2);
    assert_eq!(sv39_kernel::mm::elf_check::map_cost_of(5, 5, true), 0);
}

#[test]
fn kernel_layout_is_checked_and_counted() {
    let mut layout = KernelLayout {
        stext: 0x8020_0000,
        etext: 0x8021_0000,
        srodata: 0x8021_0000,
        erodata: 0x8022_0000,
        sdata: 0x8022_0000,
        edata: 0x8023_0000,
        sbss_with_stack: 0x8023_0000,
        ebss: 0x8024_0000,
        ekernel: 0x8024_0000,
        strampoline: 0x8020_1000,
    };
    assert!(layout.check());
    assert_eq!(layout.pages_needed(), 3 + 2 + 2 + 2 + 2 + 4);
    layout.strampoline = 0x8020_1008;
    assert!(!layout.check());
    layout.strampoline = 0x8020_1000;
    layout.etext = 0x8021_0001;
    assert!(!layout.check());
    layout.etext = 0x8021_0000;
    layout.ekernel = 0x8080_0001;
    assert!(!layout.check());
}
