use sv39_kernel::fs::pipe::{make_pipe, PipeRingBuffer, PipeStep};
use sv39_kernel::syscall::exec::check_args;
use sv39_kernel::syscall::process::sys_get_time;
use sv39_kernel::syscall::wait::{code_to_bytes, find_child, ChildSearch};
use sv39_kernel::syscall::{syscall, Syscall};
use sv39_kernel::task::add_initproc;
use sv39_kernel::task::context::TaskContext;
use sv39_kernel::task::manager::{add_task, fetch_task, TaskManager};
use sv39_kernel::task::pid::{pid_alloc, PidAllocator};
use sv39_kernel::task::processor::{schedule, ContextSlot, Processor, Switch, TaskTable};
use sv39_kernel::timer::{get_time_ms, set_next_trigger};
use sv39_kernel::trap::context::TrapContext;

#[test]
fn task_numbers_are_reused_last_freed_first() {
    let mut pids = PidAllocator::new();
    assert_eq!(pids.peek(), 0);
    assert_eq!(pid_alloc(&mut pids).0, 0);
    assert_eq!(pids.allocate().0, 1);
    assert_eq!(pids.allocate().0, 2);
    assert!(pids.is_allocated(1));
    assert!(!pids.is_allocated(3));
    pids.dealloc(0);
    pids.dealloc(2);
    assert_eq!(pids.peek(), 2);
    assert!(!pids.is_allocated(2));
    assert_eq!(pids.allocate().0, 2);
    assert_eq!(pids.allocate().0, 0);
    assert_eq!(pids.allocate().0, 3);
}

#[test]
fn ready_tasks_are_fetched_in_the_order_they_came() {
    let mut manager = TaskManager::new();
    assert_eq!(fetch_task(&mut manager), None);
    add_initproc(&mut manager, 3);
    add_task(&mut manager, 1);
    manager.add(2);
    assert_eq!(manager.fetch(), Some(3));
    add_task(&mut manager, 3);
    assert_eq!(fetch_task(&mut manager), Some(1));
    assert_eq!(fetch_task(&mut manager), Some(2));
    assert_eq!(fetch_task(&mut manager), Some(3));
    assert_eq!(fetch_task(&mut manager), None);
}

#[test]
fn idle_processor_has_nothing_to_run() {
    let mut processor = Processor::new();
    let mut tasks = TaskTable::new();
    let mut manager = TaskManager::new();
    assert_eq!(processor.current(), None);
    assert_eq!(processor.run(&mut tasks, &mut manager), None);
    assert_eq!(processor.take_current(), None);
    assert_eq!(tasks.find(0), None);
    assert_eq!(
        schedule(ContextSlot::Task(4)),
        Switch { from: ContextSlot::Task(4), to: ContextSlot::Idle }
    );
}

#[test]
fn ring_buffer_wraps_around() {
    let mut ring = PipeRingBuffer::new();
    assert_eq!(ring.available_read(), 0);
    assert_eq!(ring.available_write(), 32);
    for i in 0..32u8 {
        ring.write_byte(i);
    }
    assert_eq!(ring.available_write(), 0);
    assert_eq!(ring.available_read(), 32);
    for i in 0..20u8 {
        assert_eq!(ring.read_byte(), i);
    }
    for i in 32..40u8 {
        ring.write_byte(i);
    }
    assert_eq!(ring.available_read(), 20);
    for i in 20..40u8 {
        assert_eq!(ring.read_byte(), i);
    }
    assert_eq!(ring.available_read(), 0);
    ring.set_write_end(0);
    assert!(ring.all_write_ends_closed());
    ring.set_write_end(2);
    assert!(!ring.all_write_ends_closed());
}

#[test]
fn pipe_ends_move_bytes_in_steps() {
    let mut buffers = Vec::new();
    let (reader, writer) = make_pipe(&mut buffers);
    assert!(reader.readable && !reader.writable);
    assert!(writer.writable && !writer.readable);
    assert_eq!((reader.buffer, writer.buffer), (0, 0));
    assert_eq!(buffers[0].write_end, Some(1));
    assert_eq!(reader.read(&mut buffers[0], 4, 0), (PipeStep::Wait(0), vec![]));
    assert_eq!(writer.write(&mut buffers[0], b"HELLO", 0), PipeStep::Done(5));
    assert_eq!(reader.read(&mut buffers[0], 3, 0), (PipeStep::Done(3), b"HEL".to_vec()));
    assert_eq!(reader.read(&mut buffers[0], 16, 0), (PipeStep::Wait(2), b"LO".to_vec()));
    buffers[0].set_write_end(0);
    assert_eq!(reader.read(&mut buffers[0], 16, 2), (PipeStep::Done(2), vec![]));
    let long = [7u8; 50];
    assert_eq!(writer.write(&mut buffers[0], &long, 0), PipeStep::Wait(32));
    assert_eq!(writer.write(&mut buffers[0], &long, 32), PipeStep::Wait(32));
    let (second_reader, _) = make_pipe(&mut buffers);
    assert_eq!(second_reader.buffer, 1);
}

#[test]
fn system_call_numbers() {
    assert_eq!(syscall(24), Some(Syscall::Dup));
    assert_eq!(syscall(56), Some(Syscall::Open));
    assert_eq!(syscall(57), Some(Syscall::Close));
    assert_eq!(syscall(59), Some(Syscall::Pipe));
    assert_eq!(syscall(63), Some(Syscall::Read));
    assert_eq!(syscall(64), Some(Syscall::Write));
    assert_eq!(syscall(93), Some(Syscall::Exit));
    assert_eq!(syscall(124), Some(Syscall::Yield));
    assert_eq!(syscall(169), Some(Syscall::GetTime));
    assert_eq!(syscall(172), Some(Syscall::GetPid));
    assert_eq!(syscall(220), Some(Syscall::Fork));
    assert_eq!(syscall(221), Some(Syscall::Exec));
    assert_eq!(syscall(260), Some(Syscall::WaitPid));
    assert_eq!(syscall(0), None);
    assert_eq!(syscall(65), None);
}

#[test]
fn clock_ticks_and_milliseconds() {
    assert_eq!(get_time_ms(0), 0);
    assert_eq!(get_time_ms(12_499), 0);
    assert_eq!(get_time_ms(12_500), 1);
    assert_eq!(get_time_ms(12_500_000), 1000);
    assert_eq!(sys_get_time(125_000), 10);
    assert_eq!(set_next_trigger(0), 125_000);
    assert_eq!(set_next_trigger(1_000_000), 1_125_000);
    assert_eq!(set_next_trigger(u64::MAX), 124_999);
}

#[test]
fn contexts_begin_where_they_are_told() {
    let task = TaskContext::goto_trap_return(0x8020_3000);
    assert_eq!(task.ra, 0x8020_3000);
    assert_eq!(task.s, [0u64; 12]);
    let words = task.to_words();
    assert_eq!(words.len(), 13);
    assert_eq!(words[0], 0x8020_3000);
    assert_eq!(TaskContext::goto_restore(0x55).ra, 0x55);
    let mut cx = TrapContext::app_init_context(0x10000, 0x16000, 0x8000_0000_0008_0400, 0xFFFF_C000, 0x8020_2000, 0x122);
    assert_eq!(cx.sepc, 0x10000);
    assert_eq!(cx.x[2], 0x16000);
    assert_eq!(cx.sstatus, 0x22);
    assert_eq!(cx.kernel_satp, 0x8000_0000_0008_0400);
    assert_eq!(cx.kernel_sp, 0xFFFF_C000);
    assert_eq!(cx.trap_handler, 0x8020_2000);
    assert!(cx.x.iter().enumerate().all(|(i, v)| i == 2 || *v == 0));
    cx.set_sp(0x15ff0);
    assert_eq!(cx.x[2], 0x15ff0);
    let words = cx.to_words();
    assert_eq!(words.len(), 37);
    assert_eq!(words[2], 0x15ff0);
    assert_eq!(words[32], 0x22);
    assert_eq!(words[33], 0x10000);
}

#[test]
fn exit_codes_are_stored_in_four_bytes() {
    assert_eq!(code_to_bytes(0), vec![0, 0, 0, 0]);
    assert_eq!(code_to_bytes(258), vec![2, 1, 0, 0]);
    assert_eq!(code_to_bytes(-2), vec![0xfe, 0xff, 0xff, 0xff]);
    assert_eq!(code_to_bytes(i32::MIN), vec![0, 0, 0, 0x80]);
}

#[test]
fn child_search_without_children() {
    let tasks = TaskTable::new();
    assert_eq!(find_child(&tasks, &vec![], -1), ChildSearch::NoChild);
    assert_eq!(find_child(&tasks, &vec![4, 5], 7), ChildSearch::NoChild);
    assert_eq!(find_child(&tasks, &vec![4, 5], 5), ChildSearch::Pending);
    assert_eq!(find_child(&tasks, &vec![4, 5], -1), ChildSearch::Pending);
    assert_eq!(find_child(&tasks, &vec![4, 5], -2), ChildSearch::NoChild);
}

#[test]
fn arguments_must_fit_on_the_stack() {
    assert!(check_args(&vec![]));
    assert!(check_args(&vec![b"ab".to_vec(), b"cde".to_vec()]));
    assert!(check_args(&vec![vec![b'x'; 8192 - 8 - 16 - 1]]));
    assert!(!check_args(&vec![vec![b'x'; 8192 - 8 - 16]]));
    assert!(check_args(&vec![Vec::new(); 908]));
    assert!(!check_args(&vec![Vec::new(); 909]));
}
