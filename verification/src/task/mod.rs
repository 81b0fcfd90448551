use vstd::prelude::*;
use crate::mm::frame_allocator::FramePool;
use crate::mm::memory_set::data_pages;
use crate::task::manager::{add_task, TaskManager};
use crate::task::processor::{schedule, take_current_task, ContextSlot, Processor, Switch, TaskTable};
use crate::task::task::{TaskStatus, TaskView, TCB};

pub mod context;
pub mod manager;
pub mod pid;
pub mod processor;
pub mod stacks;
pub mod task;

verus! {

/// Makes the first task, the task with the number `initproc`, ready to run.
pub fn add_initproc(manager: &mut TaskManager, initproc: usize)
    ensures
        final(manager)@ == old(manager)@.push(initproc),
{
    add_task(manager, initproc);
}

/// The running task gives up the processor: it becomes ready again,
/// behind the tasks that are ready, and the idle flow of control goes on.
pub fn suspend_current_and_run_next(processor: &mut Processor, tasks: &mut TaskTable, manager: &mut TaskManager) -> (r:
    Switch)
    requires
        old(processor).current.is_some(),
        old(tasks).has(old(processor).current.unwrap()),
        old(tasks).wf(),
    ensures
        r == (Switch { from: ContextSlot::Task(old(processor).current.unwrap()), to: ContextSlot::Idle }),
        final(processor).current.is_none(),
        final(processor).idle_task_cx_ptr == old(processor).idle_task_cx_ptr,
        final(manager)@ == old(manager)@.push(old(processor).current.unwrap()),
        final(tasks).wf(),
        final(tasks).tasks@.len() == old(tasks).tasks@.len(),
        forall|j: int|
            0 <= j < old(tasks).tasks@.len() ==> (#[trigger] final(tasks).tasks@[j])@ == if j == old(tasks).index_of(
                old(processor).current.unwrap(),
            ) {
                TaskView { status: TaskStatus::Ready, ..old(tasks).tasks@[j]@ }
            } else {
                old(tasks).tasks@[j]@
            } && final(tasks).tasks@[j].inner.memory_set == old(tasks).tasks@[j].inner.memory_set && final(tasks).tasks@[j].kernel_stack == old(tasks).tasks@[j].kernel_stack,
{
    let task = take_current_task(processor).unwrap();
    let found = tasks.find(task);
    let i = found.unwrap();
    let ghost before = tasks.tasks@;
    let tcb = &mut tasks.tasks[i];
    tcb.inner.task_status = TaskStatus::Ready;
    proof {
        assert forall|a: int, b: int|
            0 <= a < tasks.tasks@.len() && 0 <= b < tasks.tasks@.len() && (#[trigger] tasks.tasks@[a]).pid.0 == (
            #[trigger] tasks.tasks@[b]).pid.0 implies a == b by {
            assert(tasks.tasks@[a].pid == before[a].pid);
            assert(tasks.tasks@[b].pid == before[b].pid);
        }
    }
    add_task(manager, task);
    schedule(ContextSlot::Task(task))
}

/// Makes the first task the parent of each task of `children`.
fn adopt_children(tasks: &mut TaskTable, children: &Vec<usize>, initproc: usize)
    requires
        old(tasks).wf(),
        forall|k: int| 0 <= k < children@.len() ==> old(tasks).has(#[trigger] children@[k]),
    ensures
        final(tasks).wf(),
        final(tasks).tasks@.len() == old(tasks).tasks@.len(),
        forall|j: int|
            0 <= j < old(tasks).tasks@.len() ==> (#[trigger] final(tasks).tasks@[j])@ == if children@.contains(
                old(tasks).tasks@[j].pid.0,
            ) {
                TaskView { parent: Some(initproc), ..old(tasks).tasks@[j]@ }
            } else {
                old(tasks).tasks@[j]@
            } && final(tasks).tasks@[j].inner.memory_set == old(tasks).tasks@[j].inner.memory_set && final(tasks).tasks@[j].kernel_stack == old(tasks).tasks@[j].kernel_stack,
{
    let ghost before = tasks.tasks@;
    let mut k: usize = 0;
    while k < children.len()
        invariant
            k <= children@.len(),
            before == old(tasks).tasks@,
            tasks.wf(),
            tasks.tasks@.len() == before.len(),
            forall|c: int| 0 <= c < children@.len() ==> old(tasks).has(#[trigger] children@[c]),
            forall|j: int| 0 <= j < before.len() ==> (#[trigger] tasks.tasks@[j]).pid == before[j].pid,
            forall|j: int|
                0 <= j < before.len() ==> (#[trigger] tasks.tasks@[j])@ == if children@.subrange(
                    0,
                    k as int,
                ).contains(before[j].pid.0) {
                    TaskView { parent: Some(initproc), ..before[j]@ }
                } else {
                    before[j]@
                } && tasks.tasks@[j].inner.memory_set == before[j].inner.memory_set && tasks.tasks@[j].kernel_stack
                    == before[j].kernel_stack,
        decreases children@.len() - k,
    {
        let child = children[k];
        proof {
            assert(old(tasks).has(children@[k as int]));
            let w = old(tasks).index_of(child);
            assert(tasks.tasks@[w].pid.0 == child);
        }
        let found = tasks.find(child);
        let i = found.unwrap();
        let ghost mid = tasks.tasks@;
        let tcb = &mut tasks.tasks[i];
        tcb.inner.parent = Some(initproc);
        proof {
            assert forall|a: int, b: int|
                0 <= a < tasks.tasks@.len() && 0 <= b < tasks.tasks@.len() && (#[trigger] tasks.tasks@[a]).pid.0
                    == (#[trigger] tasks.tasks@[b]).pid.0 implies a == b by {
                assert(tasks.tasks@[a].pid == mid[a].pid);
                assert(tasks.tasks@[b].pid == mid[b].pid);
            }
            let done = children@.subrange(0, k as int);
            let next = children@.subrange(0, k + 1);
            assert(next =~= done.push(child));
            assert forall|j: int| 0 <= j < before.len() implies (#[trigger] tasks.tasks@[j])@ == if next.contains(
                before[j].pid.0,
            ) {
                TaskView { parent: Some(initproc), ..before[j]@ }
            } else {
                before[j]@
            } by {
                let p = before[j].pid.0;
                if done.contains(p) {
                    let x = choose|x: int| 0 <= x < done.len() && done[x] == p;
                    assert(next[x] == p);
                }
                if j == i {
                    assert(next[k as int] == child);
                } else if next.contains(p) {
                    let x = choose|x: int| 0 <= x < next.len() && next[x] == p;
                    if x == k {
                        assert(mid[j].pid.0 == mid[i as int].pid.0);
                    } else {
                        assert(done[x] == p);
                    }
                }
            }
        }
        k += 1;
    }
    assert(children@.subrange(0, children@.len() as int) =~= children@);
}

/// The running task exits with the code `exit_code`: it becomes a zombie
/// that keeps the code, its children become children of the first task,
/// the task with the number `initproc`, the pages of its areas go back to
/// the pool, and the idle flow of control goes on.
pub fn exit_current_and_run_next(
    exit_code: i32,
    processor: &mut Processor,
    tasks: &mut TaskTable,
    initproc: usize,
    pool: &mut FramePool,
) -> (r: Switch)
    requires
        old(processor).current.is_some(),
        old(tasks).has(old(processor).current.unwrap()),
        old(tasks).has(initproc),
        old(processor).current.unwrap() != initproc,
        old(tasks).wf(),
        old(tasks).tasks@[old(tasks).index_of(old(processor).current.unwrap())].inner.memory_set.wf(old(pool)),
        forall|k: int|
            0 <= k < old(tasks).tasks@[old(tasks).index_of(
                old(processor).current.unwrap(),
            )].inner.children@.len() ==> {
                let c = #[trigger] old(tasks).tasks@[old(tasks).index_of(
                    old(processor).current.unwrap(),
                )].inner.children@[k];
                old(tasks).has(c) && c != initproc && c != old(processor).current.unwrap()
            },
    ensures
        r == (Switch { from: ContextSlot::Unused, to: ContextSlot::Idle }),
        final(processor).current.is_none(),
        final(processor).idle_task_cx_ptr == old(processor).idle_task_cx_ptr,
        final(tasks).wf(),
        final(tasks).tasks@.len() == old(tasks).tasks@.len(),
        ({
            let pid = old(processor).current.unwrap();
            let i = old(tasks).index_of(pid);
            let ip = old(tasks).index_of(initproc);
            let children = old(tasks).tasks@[i].inner.children@;
            &&& final(tasks).tasks@[i]@ == (TaskView {
                status: TaskStatus::Zombie,
                exit_code,
                children: Seq::<usize>::empty(),
                ..old(tasks).tasks@[i]@
            })
            &&& final(tasks).tasks@[ip]@ == (TaskView {
                children: old(tasks).tasks@[ip]@.children + children,
                ..old(tasks).tasks@[ip]@
            })
            &&& forall|j: int|
                0 <= j < old(tasks).tasks@.len() && j != i && j != ip ==> (#[trigger] final(tasks).tasks@[j])@
                    == if children.contains(old(tasks).tasks@[j].pid.0) {
                    TaskView { parent: Some(initproc), ..old(tasks).tasks@[j]@ }
                } else {
                    old(tasks).tasks@[j]@
                }
            &&& forall|j: int|
                0 <= j < old(tasks).tasks@.len() && j != i ==> (#[trigger] final(tasks).tasks@[j]).inner.memory_set
                    == old(tasks).tasks@[j].inner.memory_set
            &&& forall|j: int|
                0 <= j < old(tasks).tasks@.len() ==> (#[trigger] final(tasks).tasks@[j]).kernel_stack == old(tasks).tasks@[j].kernel_stack
            &&& final(tasks).tasks@[i].inner.memory_set.page_table == old(tasks).tasks@[i].inner.memory_set.page_table
            &&& final(tasks).tasks@[i].inner.memory_set.areas@.len() == 0
            &&& final(tasks).tasks@[i].inner.memory_set.wf(final(pool))
            &&& final(pool).memory == old(pool).memory
            &&& final(pool).allocator@.free_count() == old(pool).allocator@.free_count() + data_pages(
                old(tasks).tasks@[i].inner.memory_set.areas@,
            )
            &&& forall|p: u64|
                old(pool).is_allocated(p) && !old(tasks).tasks@[i].inner.memory_set.owns_data(p)
                    ==> #[trigger] final(pool).is_allocated(p)
            &&& forall|p: u64|
                old(tasks).tasks@[i].inner.memory_set.owns_data(p) ==> !(#[trigger] final(pool).is_allocated(p))
        }),
{
    let task = take_current_task(processor).unwrap();
    let found = tasks.find(task);
    let i = found.unwrap();
    let ghost t0 = tasks.tasks@;
    let tcb = &mut tasks.tasks[i];
    tcb.inner.task_status = TaskStatus::Zombie;
    tcb.inner.exit_code = exit_code;
    let mut children: Vec<usize> = Vec::new();
    core::mem::swap(&mut tcb.inner.children, &mut children);
    tcb.inner.memory_set.recycle_data_pages(pool);
    let ghost t1 = tasks.tasks@;
    proof {
        assert forall|a: int, b: int|
            0 <= a < t1.len() && 0 <= b < t1.len() && (#[trigger] t1[a]).pid.0 == (#[trigger] t1[b]).pid.0 implies a
            == b by {
            assert(t1[a].pid == t0[a].pid);
            assert(t1[b].pid == t0[b].pid);
        }
        assert forall|k: int| 0 <= k < children@.len() implies tasks.has(#[trigger] children@[k]) by {
            let c = children@[k];
            assert(old(tasks).has(c));
            let w = old(tasks).index_of(c);
            assert(t1[w].pid.0 == c);
        }
    }
    adopt_children(tasks, &children, initproc);
    let ghost t2 = tasks.tasks@;
    let found_init = tasks.find(initproc);
    proof {
        let w = old(tasks).index_of(initproc);
        assert(t2[w].pid.0 == initproc);
    }
    let ip = found_init.unwrap();
    let init = &mut tasks.tasks[ip];
    let mut k: usize = 0;
    let ghost init_children = init.inner.children@;
    while k < children.len()
        invariant
            k <= children@.len(),
            init.inner.children@ == init_children + children@.subrange(0, k as int),
            init.pid == t2[ip as int].pid,
            init.kernel_stack == t2[ip as int].kernel_stack,
            init.inner.task_cx_ptr == t2[ip as int].inner.task_cx_ptr,
            init.inner.task_status == t2[ip as int].inner.task_status,
            init.inner.memory_set == t2[ip as int].inner.memory_set,
            init.inner.trap_cx_ppn == t2[ip as int].inner.trap_cx_ppn,
            init.inner.base_size == t2[ip as int].inner.base_size,
            init.inner.parent == t2[ip as int].inner.parent,
            init.inner.exit_code == t2[ip as int].inner.exit_code,
            init.inner.fd_table == t2[ip as int].inner.fd_table,
        decreases children@.len() - k,
    {
        init.inner.children.push(children[k]);
        assert(init.inner.children@ =~= init_children + children@.subrange(0, k + 1));
        k += 1;
    }
    proof {
        assert(children@.subrange(0, children@.len() as int) =~= children@);
        let t3 = tasks.tasks@;
        assert forall|a: int, b: int|
            0 <= a < t3.len() && 0 <= b < t3.len() && (#[trigger] t3[a]).pid.0 == (#[trigger] t3[b]).pid.0 implies a
            == b by {
            assert(t3[a].pid == t2[a].pid);
            assert(t3[b].pid == t2[b].pid);
        }
        assert(!children@.contains(initproc));
        assert(!children@.contains(task));
        assert(old(tasks).index_of(initproc) == ip) by {
            let w = old(tasks).index_of(initproc);
            assert(t0[w].pid.0 == t0[ip as int].pid.0);
        }
    }
    let _unused = ContextSlot::Unused;
    schedule(_unused)
}

} // verus!
