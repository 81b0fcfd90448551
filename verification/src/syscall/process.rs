use vstd::prelude::*;
use crate::easy_fs::block_dev::BlockDevice;
use crate::kernel::Kernel;
use crate::mm::address::PhysPageNum;
use crate::mm::frame_allocator::FramePool;
use crate::mm::memory_set::{data_pages, map_cost};
use crate::syscall::filesystem::note_open;
use crate::fs::FileDescriptor;
use crate::fs::pipe::PipeRingBuffer;
use crate::task::manager::add_task;
use crate::task::pid::{lemma_pid_fresh, stack_end, stack_start};
use crate::task::processor::{lemma_index_stable, ContextSlot, Switch, TaskTable};
use crate::task::{exit_current_and_run_next, suspend_current_and_run_next};
use crate::task::task::{TaskStatus, TaskView, TCB};
use crate::timer::get_time_ms;
use crate::trap::context::{trap_cx_at, TrapContext, TrapContextView};

verus! {

/// The running task gives up the processor. Returns the switch to the
/// idle flow of control, and 0, the value that the task sees when it goes on.
pub fn sys_yield<D: BlockDevice>(kernel: &mut Kernel<D>) -> (r: (Switch, isize))
    requires
        old(kernel).wf(),
        old(kernel).running(),
    ensures
        r.0 == (Switch { from: ContextSlot::Task(old(kernel).processor.current.unwrap()), to: ContextSlot::Idle }),
        r.1 == 0,
        final(kernel).wf(),
        final(kernel).files == old(kernel).files,
        final(kernel).fs == old(kernel).fs,
        final(kernel).env == old(kernel).env,
        final(kernel).initproc == old(kernel).initproc,
        old(kernel).mem_ok() ==> final(kernel).mem_ok(),
        old(kernel).family_ok() ==> final(kernel).family_ok(),
        old(kernel).stacks_ok() ==> final(kernel).stacks_ok(),
        final(kernel).pool == old(kernel).pool,
        final(kernel).pipes == old(kernel).pipes,
        final(kernel).processor.current.is_none(),
        final(kernel).manager@ == old(kernel).manager@.push(old(kernel).processor.current.unwrap()),
        final(kernel).tasks.tasks@.len() == old(kernel).tasks.tasks@.len(),
        final(kernel).tasks.tasks@[old(kernel).cur()]@ == (TaskView {
            status: TaskStatus::Ready,
            ..old(kernel).tasks.tasks@[old(kernel).cur()]@
        }),
{
    let ghost k0 = *kernel;
    let switch = suspend_current_and_run_next(&mut kernel.processor, &mut kernel.tasks, &mut kernel.manager);
    proof {
        let now = kernel.tasks.tasks@;
        let i = k0.cur();
        assert forall|a: int| 0 <= a < now.len() implies (#[trigger] now[a]).pid == k0.tasks.tasks@[a].pid && (a != i
            ==> now[a].inner.task_status == k0.tasks.tasks@[a].inner.task_status) && now[a].kernel_stack
            == k0.tasks.tasks@[a].kernel_stack by {
            assert(now[a]@.pid == k0.tasks.tasks@[a]@.pid);
            if a != i {
                assert(now[a]@.status == k0.tasks.tasks@[a]@.status);
            }
        }
        assert forall|p: usize| k0.tasks.has(p) implies kernel.tasks.has(p) && kernel.tasks.index_of(p)
            == k0.tasks.index_of(p) by {
            lemma_index_stable(&k0.tasks, &kernel.tasks, p);
        }
        assert forall|k: int| 0 <= k < kernel.manager@.len() implies kernel.tasks.has(#[trigger] kernel.manager@[k])
            && kernel.tasks.tasks@[kernel.tasks.index_of(kernel.manager@[k])].inner.task_status
            == TaskStatus::Ready by {
            if k < k0.manager@.len() {
                assert(kernel.manager@[k] == k0.manager@[k]);
                assert(k0.tasks.has(k0.manager@[k]));
                let w = k0.tasks.index_of(k0.manager@[k]);
                if w == i {
                    assert(now[i]@.status == TaskStatus::Ready);
                }
            } else {
                assert(now[i]@.status == TaskStatus::Ready);
            }
        }
        assert forall|a: int| 0 <= a < now.len() implies kernel.pid_allocator@.is_allocated((#[trigger] now[a]).pid.0) by {
            assert(k0.pid_allocator@.is_allocated(k0.tasks.tasks@[a].pid.0));
        }
        if k0.mem_ok() {
            assert forall|a: int| 0 <= a < now.len() implies (#[trigger] now[a]).inner.memory_set
                == k0.tasks.tasks@[a].inner.memory_set && now[a].inner.trap_cx_ppn
                == k0.tasks.tasks@[a].inner.trap_cx_ppn && (k0.tasks.tasks@[a].inner.task_status
                == TaskStatus::Zombie ==> now[a].inner.task_status == TaskStatus::Zombie) by {
                assert(now[a]@.trap_cx_ppn == k0.tasks.tasks@[a]@.trap_cx_ppn);
                if a != i {
                    assert(now[a]@.status == k0.tasks.tasks@[a]@.status);
                }
            }
            crate::kernel::lemma_mem_kept(&k0, kernel);
        }
        if k0.family_ok() {
            assert forall|a: int| 0 <= a < now.len() implies (#[trigger] now[a]).inner.parent
                == k0.tasks.tasks@[a].inner.parent && now[a].inner.children@ == k0.tasks.tasks@[a].inner.children@ && (
            now[a].inner.task_status == TaskStatus::Zombie ==> k0.tasks.tasks@[a].inner.task_status
                == TaskStatus::Zombie) by {
                assert(now[a]@.parent == k0.tasks.tasks@[a]@.parent);
                assert(now[a]@.children == k0.tasks.tasks@[a]@.children);
                assert(now[a]@.status == if a == i {
                    TaskStatus::Ready
                } else {
                    k0.tasks.tasks@[a]@.status
                });
            }
            crate::kernel::lemma_family_kept(&k0, kernel);
        }
        if k0.stacks_ok() {
            crate::kernel_stacks::lemma_stacks_kept(&k0, kernel);
        }
    }
    (switch, 0)
}

/// The time in milliseconds, where the clock shows `time` ticks.
pub fn sys_get_time(time: u64) -> (r: isize)
    ensures
        r == (time / 12500) as isize,
{
    get_time_ms(time) as isize
}

/// The number of the running task.
pub fn sys_getpid<D: BlockDevice>(kernel: &Kernel<D>) -> (r: isize)
    requires
        kernel.wf(),
        kernel.running(),
    ensures
        r == kernel.processor.current.unwrap() as isize,
{
    let i = kernel.current_index();
    kernel.tasks.tasks[i].getpid() as isize
}


/// Sets register 10, which holds what a system call returns, in the trap
/// context on page `trap_ppn`.
pub fn set_return_value(pool: &mut FramePool, trap_ppn: PhysPageNum, value: u64)
    requires
        old(pool).wf(),
        old(pool).memory.has(trap_ppn.0),
    ensures
        final(pool).wf(),
        final(pool).allocator == old(pool).allocator,
        final(pool).memory.base() == old(pool).memory.base(),
        final(pool).memory.count() == old(pool).memory.count(),
        trap_cx_at(final(pool).mem()[trap_ppn.0]) == (TrapContextView {
            x: trap_cx_at(old(pool).mem()[trap_ppn.0]).x.update(10, value),
            ..trap_cx_at(old(pool).mem()[trap_ppn.0])
        }),
        forall|p: u64| p != trap_ppn.0 ==> #[trigger] final(pool).mem()[p] == old(pool).mem()[p],
{
    let mut cx = TrapContext::load(pool, trap_ppn.0);
    cx.x[10] = value;
    cx.store(pool, trap_ppn.0);
}

/// The pipes after a descriptor was made for each file of `table`.
pub open spec fn opened_all(pipes: Seq<PipeRingBuffer>, table: Seq<Option<FileDescriptor>>, n: int) -> Seq<
    PipeRingBuffer,
>
    decreases n,
{
    if n <= 0 {
        pipes
    } else {
        let before = opened_all(pipes, table, n - 1);
        match table[n - 1] {
            Some(file) => crate::syscall::filesystem::opened(before, file),
            None => before,
        }
    }
}

/// Notes that a descriptor was made for each file of `table`.
fn note_open_all(pipes: &mut Vec<PipeRingBuffer>, table: &Vec<Option<FileDescriptor>>)
    ensures
        final(pipes)@ == opened_all(old(pipes)@, table@, table@.len() as int),
        final(pipes)@.len() == old(pipes)@.len(),
        forall|id: int|
            0 <= id < old(pipes)@.len() && (#[trigger] old(pipes)@[id]).wf() && old(pipes)@[id].write_end.is_some()
                ==> final(pipes)@[id].wf() && final(pipes)@[id].write_end.is_some(),
{
    let mut k: usize = 0;
    while k < table.len()
        invariant
            k <= table@.len(),
            pipes@ == opened_all(old(pipes)@, table@, k as int),
            pipes@.len() == old(pipes)@.len(),
            forall|id: int|
                0 <= id < old(pipes)@.len() && (#[trigger] old(pipes)@[id]).wf() && old(pipes)@[id].write_end.is_some()
                    ==> pipes@[id].wf() && pipes@[id].write_end.is_some(),
        decreases table@.len() - k,
    {
        if let Some(file) = table[k] {
            note_open(pipes, file);
        }
        k += 1;
    }
}

/// What `child` is right after `parent` made it by a fork system call:
/// a copy of `parent` as `TCB::forked` says, but that register 10 of its
/// trap context holds 0.
pub open spec fn is_fork_child(
    parent: &TCB,
    child: &TCB,
    env: &crate::task::task::KernelEnv,
    pool: &FramePool,
    pool0: &FramePool,
) -> bool {
    &&& child.inner.task_status == TaskStatus::Ready
    &&& child.inner.parent == Some(parent.pid.0)
    &&& child.inner.children@.len() == 0
    &&& child.inner.exit_code == 0
    &&& child.inner.fd_table@ == parent.inner.fd_table@
    &&& child.inner.base_size == parent.inner.base_size
    &&& child.kernel_stack.pid == child.pid.0
    &&& child.inner.task_cx_ptr == crate::config::kernel_stack_position_of(child.pid.0 as int).1 - 104
    &&& child.is_user_task(pool, env.strampoline.0)
    &&& parent.is_user_task(pool, env.strampoline.0)
    &&& parent.inner.memory_set.is_copied_to(&child.inner.memory_set, pool, pool0, child.inner.trap_cx_ppn.0)
    &&& trap_cx_at(pool.mem()[child.inner.trap_cx_ppn.0]) == ({
        let cx = trap_cx_at(pool0.mem()[parent.inner.trap_cx_ppn.0]);
        TrapContextView {
            x: cx.x.update(10, 0),
            kernel_sp: crate::config::kernel_stack_position_of(child.pid.0 as int).1 as u64,
            ..cx
        }
    })
}

/// A copy of the task `parent` that finds 0 in register 10.
#[verifier::spinoff_prover]
fn fork_child(
    parent: &mut TCB,
    env: &crate::task::task::KernelEnv,
    pid_allocator: &mut crate::task::pid::PidAllocator,
    kernel_space: &mut crate::mm::memory_set::MemorySet,
    pool: &mut FramePool,
) -> (child: TCB)
    requires
        old(kernel_space).wf(old(pool)),
        old(parent).is_user_task(old(pool), env.strampoline.0),
        forall|p: u64| old(parent).inner.memory_set.owns(p) ==> !old(kernel_space).owns(p),
        old(pid_allocator)@.wf(),
        old(pid_allocator)@.next() < 0x100_0000,
        forall|v: u64|
            stack_start(old(pid_allocator)@.next()) <= v < stack_end(old(pid_allocator)@.next()) ==> (
            #[trigger] old(kernel_space).page_table.lookup(old(pool), v)).is_none(),
        old(pool).allocator@.free_count() >= 3 + old(parent).inner.memory_set.copy_cost(
            old(parent).inner.memory_set.areas@.len() as int,
        ) + map_cost(
            stack_start(old(pid_allocator)@.next()) as int,
            stack_end(old(pid_allocator)@.next()) as int,
            true,
        ),
    ensures
        child.pid.0 == old(pid_allocator)@.next(),
        final(pid_allocator)@ == old(pid_allocator)@.after_alloc(),
        final(pid_allocator)@.wf(),
        is_fork_child(final(parent), &child, env, final(pool), old(pool)),
        final(parent)@ == (TaskView {
            children: old(parent)@.children.push(child.pid.0),
            ..old(parent)@
        }),
        final(parent).pid == old(parent).pid,
        final(parent).kernel_stack == old(parent).kernel_stack,
        final(parent).inner.task_status == old(parent).inner.task_status,
        final(parent).inner.memory_set == old(parent).inner.memory_set,
        final(parent).inner.trap_cx_ppn == old(parent).inner.trap_cx_ppn,
        final(pool).wf(),
        final(kernel_space).wf(final(pool)),
        crate::task::task::stack_ready(final(kernel_space), final(pool), child.pid.0, env.trap_return),
        forall|p: u64| child.inner.memory_set.owns(p) ==> !final(kernel_space).owns(p),
        forall|p: u64| final(parent).inner.memory_set.owns(p) ==> !final(kernel_space).owns(p),
        final(pool).memory.base() == old(pool).memory.base(),
        final(pool).memory.count() == old(pool).memory.count(),
        forall|p: u64| old(pool).is_allocated(p) ==> final(pool).is_allocated(p),
        forall|p: u64|
            old(pool).is_allocated(p) && !old(kernel_space).page_table.tables().owns(p) ==> #[trigger] final(pool).mem()[p]
                == old(pool).mem()[p],
        forall|p: u64| child.inner.memory_set.owns(p) ==> !old(pool).is_allocated(p),
        forall|p: u64| final(kernel_space).owns(p) && !old(kernel_space).owns(p) ==> !old(pool).is_allocated(p),
        final(kernel_space).areas@.len() == old(kernel_space).areas@.len() + 1,
        final(kernel_space).areas@.drop_last() == old(kernel_space).areas@,
        final(kernel_space).areas@.last().start() == stack_start(child.pid.0),
        final(kernel_space).areas@.last().end() == stack_end(child.pid.0),
        crate::task::task::stack_added(old(kernel_space), old(pool), final(kernel_space), final(pool), child.pid.0),
        child.inner.memory_set.only_areas(final(pool)),
{
    let ghost pool0 = *pool;
    let ghost ks0 = *kernel_space;
    let child = parent.fork(env, pid_allocator, kernel_space, pool);
    let ghost pool1 = *pool;
    proof {
        child.inner.memory_set.lemma_task_space_facts(&pool1, env.strampoline.0, child.inner.trap_cx_ppn.0);
    }
    set_return_value(pool, child.inner.trap_cx_ppn, 0);
    proof {
        let child_ms = child.inner.memory_set;
        let parent_ms = parent.inner.memory_set;
        let tp = child.inner.trap_cx_ppn.0;
        crate::mm::user_space::lemma_data_not_table(&child_ms, &pool1, tp);
        child_ms.lemma_task_space_kept(&pool1, pool, env.strampoline.0, tp);
        assert forall|p: u64| child_ms.page_table.tables().owns(p) implies #[trigger] pool.mem()[p] == pool1.mem()[p] by {
            assert(p != tp);
        }
        crate::mm::user_space::lemma_space_tables_kept(&child_ms, &pool1, pool);
        child_ms.lemma_only_areas_kept(&pool1, pool);
        assert(!parent_ms.owns(tp)) by {
            if parent_ms.owns(tp) {
                old(parent).inner.memory_set.lemma_task_space_facts(
                    &pool0,
                    env.strampoline.0,
                    old(parent).inner.trap_cx_ppn.0,
                );
                crate::mm::user_space::lemma_owned_allocated(&parent_ms, &pool0, tp);
            }
        }
        assert forall|p: u64| parent_ms.page_table.tables().owns(p) implies #[trigger] pool.mem()[p]
            == pool1.mem()[p] by {
            assert(parent_ms.owns(p));
        }
        parent_ms.lemma_task_space_kept(&pool1, pool, env.strampoline.0, parent.inner.trap_cx_ppn.0);
        parent_ms.lemma_copy_kept(&child_ms, &pool1, pool, &pool0, tp);
        assert(!kernel_space.owns(tp));
        assert forall|p: u64| kernel_space.owns(p) implies pool.is_allocated(p) by {
            crate::mm::user_space::lemma_owned_allocated(kernel_space, &pool1, p);
        }
        crate::mm::user_space::lemma_space_survives(kernel_space, &pool1, pool);
        pool.memory.lemma_view();
        pool1.memory.lemma_view();
        assert forall|p: u64| pool0.is_allocated(p) && !ks0.page_table.tables().owns(p) implies #[trigger] pool.mem()[p]
            == pool0.mem()[p] by {
            assert(pool1.mem()[p] == pool0.mem()[p]);
            assert(p != tp);
        }
        assert forall|p: u64| pool0.is_allocated(p) implies pool.is_allocated(p) by {
            assert(pool1.is_allocated(p));
        }
        assert forall|v: u64|
            crate::mm::memory_set::apart_from(v, stack_start(child.pid.0), stack_end(child.pid.0)) implies #[trigger] kernel_space.page_table.lookup(
            pool,
            v,
        ) == ks0.page_table.lookup(&pool0, v) by {
            assert(kernel_space.page_table.lookup(&pool1, v) == ks0.page_table.lookup(&pool0, v));
        }
    }
    child
}

/// Puts the new task `task` into the table and at the back of the ready
/// queue.
fn admit_task<D: BlockDevice>(kernel: &mut Kernel<D>, task: TCB)
    requires
        old(kernel).wf(),
        !old(kernel).tasks.has(task.pid.0),
        old(kernel).pid_allocator@.is_allocated(task.pid.0),
        task.pid.0 < 0x100_0000,
        task.kernel_stack.pid == task.pid.0,
        task.inner.task_status == TaskStatus::Ready,
    ensures
        final(kernel).wf(),
        final(kernel).tasks.tasks@ == old(kernel).tasks.tasks@.push(task),
        final(kernel).manager@ == old(kernel).manager@.push(task.pid.0),
        final(kernel).processor == old(kernel).processor,
        final(kernel).pool == old(kernel).pool,
        final(kernel).pipes == old(kernel).pipes,
        final(kernel).kernel_space == old(kernel).kernel_space,
        final(kernel).pid_allocator == old(kernel).pid_allocator,
        final(kernel).env == old(kernel).env,
        final(kernel).initproc == old(kernel).initproc,
        final(kernel).files == old(kernel).files,
        final(kernel).root == old(kernel).root,
        final(kernel).running() ==> final(kernel).cur() == old(kernel).cur(),
{
    let ghost k0 = *kernel;
    let new_pid = task.pid.0;
    kernel.tasks.tasks.push(task);
    add_task(&mut kernel.manager, new_pid);
    proof {
        let after = kernel.tasks.tasks@;
        let n = k0.tasks.tasks@.len() as int;
        assert forall|a: int, b: int|
            0 <= a < after.len() && 0 <= b < after.len() && (#[trigger] after[a]).pid.0 == (#[trigger] after[b]).pid.0 implies a
            == b by {
            if a < n && b < n {
                assert(k0.tasks.tasks@[a].pid.0 == k0.tasks.tasks@[b].pid.0);
            } else if a < n {
                assert(k0.tasks.tasks@[a].pid.0 == new_pid);
            } else if b < n {
                assert(k0.tasks.tasks@[b].pid.0 == new_pid);
            }
        }
        assert forall|p: usize| k0.tasks.has(p) implies kernel.tasks.has(p) && kernel.tasks.index_of(p)
            == k0.tasks.index_of(p) by {
            lemma_index_stable(&k0.tasks, &kernel.tasks, p);
        }
        assert(kernel.tasks.has(new_pid) && kernel.tasks.index_of(new_pid) == n) by {
            assert(after[n].pid.0 == new_pid);
            let v = kernel.tasks.index_of(new_pid);
            assert(after[v].pid.0 == after[n].pid.0);
        }
        assert forall|k: int| 0 <= k < kernel.manager@.len() implies kernel.tasks.has(#[trigger] kernel.manager@[k])
            && kernel.tasks.tasks@[kernel.tasks.index_of(kernel.manager@[k])].inner.task_status
            == TaskStatus::Ready by {
            if k < k0.manager@.len() {
                assert(kernel.manager@[k] == k0.manager@[k]);
                assert(k0.tasks.has(k0.manager@[k]));
            }
        }
        assert forall|a: int| 0 <= a < after.len() implies kernel.pid_allocator@.is_allocated((#[trigger] after[a]).pid.0)
            && after[a].pid.0 < 0x100_0000 && after[a].kernel_stack.pid == after[a].pid.0 by {
            if a < n {
                assert(after[a] == k0.tasks.tasks@[a]);
            }
        }
    }
}

/// The running task makes a copy of itself, which becomes ready. Returns
/// the number of the copy; the copy itself finds 0 in register 10.
#[verifier::spinoff_prover]
pub fn sys_fork<D: BlockDevice>(kernel: &mut Kernel<D>) -> (r: isize)
    requires
        old(kernel).wf(),
        old(kernel).running(),
        old(kernel).kernel_space.wf(&old(kernel).pool),
        old(kernel).tasks.tasks@[old(kernel).cur()].is_user_task(&old(kernel).pool, old(kernel).env.strampoline.0),
        forall|p: u64|
            old(kernel).tasks.tasks@[old(kernel).cur()].inner.memory_set.owns(p) ==> !old(kernel).kernel_space.owns(p),
        old(kernel).pid_allocator@.next() < 0x100_0000,
        forall|v: u64|
            stack_start(old(kernel).pid_allocator@.next()) <= v < stack_end(old(kernel).pid_allocator@.next())
                ==> (#[trigger] old(kernel).kernel_space.page_table.lookup(&old(kernel).pool, v)).is_none(),
        old(kernel).pool.allocator@.free_count() >= 3 + old(kernel).tasks.tasks@[old(kernel).cur()].inner.memory_set.copy_cost(
            old(kernel).tasks.tasks@[old(kernel).cur()].inner.memory_set.areas@.len() as int,
        ) + map_cost(
            stack_start(old(kernel).pid_allocator@.next()) as int,
            stack_end(old(kernel).pid_allocator@.next()) as int,
            true,
        ),
    ensures
        final(kernel).wf(),
        r == old(kernel).pid_allocator@.next() as isize,
        final(kernel).processor == old(kernel).processor,
        final(kernel).manager@ == old(kernel).manager@.push(old(kernel).pid_allocator@.next()),
        final(kernel).tasks.tasks@.len() == old(kernel).tasks.tasks@.len() + 1,
        final(kernel).pipes@ == opened_all(
            old(kernel).pipes@,
            old(kernel).tasks.tasks@[old(kernel).cur()]@.fd_table,
            old(kernel).tasks.tasks@[old(kernel).cur()]@.fd_table.len() as int,
        ),
        final(kernel).tasks.tasks@.last().pid.0 == old(kernel).pid_allocator@.next(),
        is_fork_child(
            &final(kernel).tasks.tasks@[old(kernel).cur()],
            &final(kernel).tasks.tasks@.last(),
            &old(kernel).env,
            &final(kernel).pool,
            &old(kernel).pool,
        ),
        final(kernel).tasks.tasks@[old(kernel).cur()]@ == (TaskView {
            children: old(kernel).tasks.tasks@[old(kernel).cur()]@.children.push(
                old(kernel).pid_allocator@.next(),
            ),
            ..old(kernel).tasks.tasks@[old(kernel).cur()]@
        }),
        forall|j: int|
            0 <= j < old(kernel).tasks.tasks@.len() && j != old(kernel).cur() ==> #[trigger] final(kernel).tasks.tasks@[j]
                == old(kernel).tasks.tasks@[j],
        final(kernel).pool.wf(),
        final(kernel).kernel_space.wf(&final(kernel).pool),
        old(kernel).mem_ok() ==> final(kernel).mem_ok(),
        old(kernel).family_ok() ==> final(kernel).family_ok(),
        old(kernel).stacks_ok() ==> final(kernel).stacks_ok(),
        old(kernel).pipes_wf() ==> final(kernel).pipes_wf(),
        crate::task::task::stack_ready(
            &final(kernel).kernel_space,
            &final(kernel).pool,
            old(kernel).pid_allocator@.next(),
            old(kernel).env.trap_return,
        ),
        forall|p: u64|
            final(kernel).tasks.tasks@.last().inner.memory_set.owns(p) ==> !final(kernel).kernel_space.owns(p),
        forall|p: u64|
            final(kernel).tasks.tasks@[old(kernel).cur()].inner.memory_set.owns(p) ==> !final(kernel).kernel_space.owns(
                p,
            ),
{
    let i = kernel.current_index();
    let ghost k0 = *kernel;
    proof {
        lemma_pid_fresh(kernel.pid_allocator@);
    }
    let new_task = fork_child(
        &mut kernel.tasks.tasks[i],
        &kernel.env,
        &mut kernel.pid_allocator,
        &mut kernel.kernel_space,
        &mut kernel.pool,
    );
    let new_pid = new_task.pid.0;
    proof {
        let now = kernel.tasks.tasks@;
        assert forall|a: int| 0 <= a < now.len() implies (#[trigger] now[a]).pid == k0.tasks.tasks@[a].pid
            && now[a].inner.task_status == k0.tasks.tasks@[a].inner.task_status && now[a].kernel_stack
            == k0.tasks.tasks@[a].kernel_stack by {}
        assert forall|a: int, b: int|
            0 <= a < now.len() && 0 <= b < now.len() && (#[trigger] now[a]).pid.0 == (#[trigger] now[b]).pid.0 implies a
            == b by {
            assert(k0.tasks.tasks@[a].pid.0 == k0.tasks.tasks@[b].pid.0);
        }
        assert forall|p: usize| k0.tasks.has(p) implies kernel.tasks.has(p) && kernel.tasks.index_of(p)
            == k0.tasks.index_of(p) by {
            lemma_index_stable(&k0.tasks, &kernel.tasks, p);
        }
        assert forall|k: int| 0 <= k < kernel.manager@.len() implies kernel.tasks.has(#[trigger] kernel.manager@[k])
            && kernel.tasks.tasks@[kernel.tasks.index_of(kernel.manager@[k])].inner.task_status
            == TaskStatus::Ready by {
            assert(k0.tasks.has(k0.manager@[k]));
        }
        assert forall|a: int| 0 <= a < now.len() implies kernel.pid_allocator@.is_allocated((#[trigger] now[a]).pid.0) by {
            assert(k0.pid_allocator@.is_allocated(k0.tasks.tasks@[a].pid.0));
        }
        if kernel.tasks.has(new_pid) {
            let w = kernel.tasks.index_of(new_pid);
            assert(k0.pid_allocator@.is_allocated(k0.tasks.tasks@[w].pid.0));
        }
        assert(kernel.wf());
    }
    note_open_all(&mut kernel.pipes, &new_task.inner.fd_table);
    proof {
        if k0.pipes_wf() {
            assert forall|id: int| 0 <= id < kernel.pipes@.len() implies (#[trigger] kernel.pipes@[id]).wf()
                && kernel.pipes@[id].write_end.is_some() by {
                assert(k0.pipes@[id].wf());
            }
        }
    }
    admit_task(kernel, new_task);
    proof {
        if k0.mem_ok() {
            let now = kernel.tasks.tasks@;
            assert forall|a: int| 0 <= a < k0.tasks.tasks@.len() implies (#[trigger] now[a]).inner.memory_set
                == k0.tasks.tasks@[a].inner.memory_set && now[a].inner.trap_cx_ppn
                == k0.tasks.tasks@[a].inner.trap_cx_ppn && now[a].inner.task_status
                == k0.tasks.tasks@[a].inner.task_status by {}
            crate::kernel::lemma_mem_with_task(&k0, kernel);
        }
        if k0.family_ok() {
            let now = kernel.tasks.tasks@;
            assert forall|a: int| 0 <= a < k0.tasks.tasks@.len() implies (#[trigger] now[a]).pid == k0.tasks.tasks@[a].pid
                && now[a].inner.parent == k0.tasks.tasks@[a].inner.parent && (a != i ==> now[a].inner.children@
                == k0.tasks.tasks@[a].inner.children@) && now[a].inner.task_status
                == k0.tasks.tasks@[a].inner.task_status by {
                if a == i {
                    assert(now[a]@.parent == k0.tasks.tasks@[a]@.parent);
                }
            }
            assert(now[i as int]@.children == k0.tasks.tasks@[i as int]@.children.push(new_pid));
            crate::kernel::lemma_family_with_child(&k0, kernel, i as int);
        }
        if k0.stacks_ok() {
            let now = kernel.tasks.tasks@;
            assert forall|a: int| 0 <= a < k0.tasks.tasks@.len() implies (#[trigger] now[a]).pid == k0.tasks.tasks@[a].pid by {}
            crate::kernel_stacks::lemma_stacks_with_task(&k0, kernel, new_pid);
        }
    }
    new_pid as isize
}

/// The running task exits with the code `exit_code`. Returns the switch
/// to the idle flow of control.
pub fn sys_exit<D: BlockDevice>(kernel: &mut Kernel<D>, exit_code: i32) -> (r: Switch)
    requires
        old(kernel).wf(),
        old(kernel).running(),
        old(kernel).processor.current.unwrap() != old(kernel).initproc,
        old(kernel).tasks.tasks@[old(kernel).cur()].inner.memory_set.wf(&old(kernel).pool),
        forall|k: int|
            0 <= k < old(kernel).tasks.tasks@[old(kernel).cur()].inner.children@.len() ==> {
                let c = #[trigger] old(kernel).tasks.tasks@[old(kernel).cur()].inner.children@[k];
                old(kernel).tasks.has(c) && c != old(kernel).initproc && c != old(kernel).processor.current.unwrap()
            },
    ensures
        r == (Switch { from: ContextSlot::Unused, to: ContextSlot::Idle }),
        final(kernel).wf(),
        final(kernel).files == old(kernel).files,
        final(kernel).fs == old(kernel).fs,
        final(kernel).env == old(kernel).env,
        final(kernel).initproc == old(kernel).initproc,
        old(kernel).mem_ok() ==> final(kernel).mem_ok(),
        old(kernel).family_ok() ==> final(kernel).family_ok(),
        old(kernel).mem_ok() && old(kernel).stacks_ok() ==> final(kernel).stacks_ok(),
        final(kernel).pool.wf(),
        final(kernel).tasks.tasks@[old(kernel).cur()].inner.memory_set.wf(&final(kernel).pool),
        final(kernel).processor.current.is_none(),
        final(kernel).manager == old(kernel).manager,
        final(kernel).pid_allocator == old(kernel).pid_allocator,
        final(kernel).kernel_space == old(kernel).kernel_space,
        final(kernel).pipes == old(kernel).pipes,
        final(kernel).tasks.tasks@.len() == old(kernel).tasks.tasks@.len(),
        ({
            let i = old(kernel).cur();
            let ip = old(kernel).tasks.index_of(old(kernel).initproc);
            let children = old(kernel).tasks.tasks@[i].inner.children@;
            &&& final(kernel).tasks.tasks@[i]@ == (TaskView {
                status: TaskStatus::Zombie,
                exit_code,
                children: Seq::<usize>::empty(),
                ..old(kernel).tasks.tasks@[i]@
            })
            &&& final(kernel).tasks.tasks@[ip]@ == (TaskView {
                children: old(kernel).tasks.tasks@[ip]@.children + children,
                ..old(kernel).tasks.tasks@[ip]@
            })
            &&& forall|j: int|
                0 <= j < old(kernel).tasks.tasks@.len() && j != i && j != ip ==> (#[trigger] final(kernel).tasks.tasks@[j])@ == if children.contains(old(kernel).tasks.tasks@[j].pid.0) {
                    TaskView { parent: Some(old(kernel).initproc), ..old(kernel).tasks.tasks@[j]@ }
                } else {
                    old(kernel).tasks.tasks@[j]@
                }
            &&& final(kernel).tasks.tasks@[i].inner.memory_set.areas@.len() == 0
            &&& final(kernel).pool.memory == old(kernel).pool.memory
            &&& final(kernel).pool.allocator@.free_count() == old(kernel).pool.allocator@.free_count() + data_pages(
                old(kernel).tasks.tasks@[i].inner.memory_set.areas@,
            )
            &&& forall|p: u64|
                old(kernel).tasks.tasks@[i].inner.memory_set.owns_data(p) ==> !(#[trigger] final(kernel).pool.is_allocated(p))
        }),
{
    let initproc = kernel.initproc;
    let ghost k0 = *kernel;
    let r = exit_current_and_run_next(
        exit_code,
        &mut kernel.processor,
        &mut kernel.tasks,
        initproc,
        &mut kernel.pool,
    );
    proof {
        let now = kernel.tasks.tasks@;
        let i = k0.cur();
        let ip = k0.tasks.index_of(initproc);
        assert forall|a: int| 0 <= a < now.len() implies (#[trigger] now[a])@.pid == k0.tasks.tasks@[a]@.pid && (a != i
            ==> now[a]@.status == k0.tasks.tasks@[a]@.status) by {
            if a != i && a != ip {
                assert(now[a]@ == if k0.tasks.tasks@[i].inner.children@.contains(k0.tasks.tasks@[a].pid.0) {
                    TaskView { parent: Some(initproc), ..k0.tasks.tasks@[a]@ }
                } else {
                    k0.tasks.tasks@[a]@
                });
            }
        }
        assert forall|p: usize| k0.tasks.has(p) implies kernel.tasks.has(p) && kernel.tasks.index_of(p)
            == k0.tasks.index_of(p) by {
            assert forall|a: int| 0 <= a < k0.tasks.tasks@.len() implies (#[trigger] now[a]).pid == k0.tasks.tasks@[a].pid by {
                assert(now[a]@.pid == k0.tasks.tasks@[a]@.pid);
            }
            lemma_index_stable(&k0.tasks, &kernel.tasks, p);
        }
        assert forall|k: int| 0 <= k < kernel.manager@.len() implies kernel.tasks.has(#[trigger] kernel.manager@[k])
            && kernel.tasks.tasks@[kernel.tasks.index_of(kernel.manager@[k])].inner.task_status
            == TaskStatus::Ready by {
            assert(k0.tasks.has(k0.manager@[k]));
            let w = k0.tasks.index_of(k0.manager@[k]);
            assert(now[w]@.status == k0.tasks.tasks@[w]@.status);
        }
        assert forall|a: int| 0 <= a < now.len() implies kernel.pid_allocator@.is_allocated((#[trigger] now[a]).pid.0)
            && now[a].pid.0 < 0x100_0000 && now[a].kernel_stack.pid == now[a].pid.0 by {
            assert(now[a]@.pid == k0.tasks.tasks@[a]@.pid);
            assert(k0.pid_allocator@.is_allocated(k0.tasks.tasks@[a].pid.0));
        }
        if k0.mem_ok() {
            assert forall|j: int| 0 <= j < now.len() && j != i implies (#[trigger] now[j]).inner.memory_set
                == k0.tasks.tasks@[j].inner.memory_set && now[j].inner.trap_cx_ppn
                == k0.tasks.tasks@[j].inner.trap_cx_ppn && now[j].inner.task_status
                == k0.tasks.tasks@[j].inner.task_status by {
                assert(now[j]@.trap_cx_ppn == k0.tasks.tasks@[j]@.trap_cx_ppn);
                assert(now[j]@.status == k0.tasks.tasks@[j]@.status);
            }
            assert(now[i]@.status == TaskStatus::Zombie);
            assert forall|p: u64| now[i].inner.memory_set.owns(p) implies k0.tasks.tasks@[i].inner.memory_set.owns(p) by {
                assert(now[i].inner.memory_set.page_table == k0.tasks.tasks@[i].inner.memory_set.page_table);
                assert(!now[i].inner.memory_set.owns_data(p));
            }
            assert forall|p: u64|
                k0.pool.is_allocated(p) && !k0.tasks.tasks@[i].inner.memory_set.owns(p) implies #[trigger] kernel.pool.is_allocated(
                p,
            ) by {
                assert(!k0.tasks.tasks@[i].inner.memory_set.owns_data(p));
            }
            crate::kernel::lemma_mem_after_release(&k0, kernel, i);
            if k0.stacks_ok() {
                assert forall|a: int| 0 <= a < now.len() implies (#[trigger] now[a]).pid == k0.tasks.tasks@[a].pid by {
                    assert(now[a]@.pid == k0.tasks.tasks@[a]@.pid);
                }
                crate::kernel_stacks::lemma_stacks_kept(&k0, kernel);
            }
        }
        if k0.family_ok() {
            assert(now[i]@.children == Seq::<usize>::empty());
            assert(now[i]@.parent == k0.tasks.tasks@[i]@.parent);
            assert(now[ip]@.children == k0.tasks.tasks@[ip]@.children + k0.tasks.tasks@[i].inner.children@);
            assert(now[ip]@.parent == k0.tasks.tasks@[ip]@.parent);
            assert(now[ip]@.status == k0.tasks.tasks@[ip]@.status);
            assert forall|a: int| 0 <= a < now.len() && a != i && a != ip implies (#[trigger] now[a]).inner.children@
                == k0.tasks.tasks@[a].inner.children@ && now[a].inner.parent == if k0.tasks.tasks@[i].inner.children@.contains(
                k0.tasks.tasks@[a].pid.0,
            ) {
                Some(k0.initproc)
            } else {
                k0.tasks.tasks@[a].inner.parent
            } by {
                assert(now[a]@ == if k0.tasks.tasks@[i].inner.children@.contains(k0.tasks.tasks@[a].pid.0) {
                    TaskView { parent: Some(initproc), ..k0.tasks.tasks@[a]@ }
                } else {
                    k0.tasks.tasks@[a]@
                });
            }
            crate::kernel::lemma_family_after_exit(&k0, kernel, i);
        }
    }
    r
}

} // verus!
