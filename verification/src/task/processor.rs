use vstd::prelude::*;
use crate::mm::frame_allocator::FramePool;
use crate::task::manager::{fetch_task, TaskManager};
use crate::task::task::{TaskStatus, TCB};
use crate::trap::context::{trap_cx_at, TrapContext};

verus! {

/// The place where a task context is kept while its owner does not run.
#[derive(Copy, Clone, Debug, PartialEq, Eq, Structural)]
pub enum ContextSlot {
    /// The place of the idle flow of control of the processor.
    Idle,
    /// The place of the task with this number.
    Task(usize),
    /// A place that is written and never read: the context of a task that has exited.
    Unused,
}

/// A switch of the flow of control: the running context is stored in the
/// place `from`, and the context in the place `to` goes on.
#[derive(Copy, Clone, Debug, PartialEq, Eq, Structural)]
pub struct Switch {
    pub from: ContextSlot,
    pub to: ContextSlot,
}

/// The tasks of the kernel, each with its control block.
pub struct TaskTable {
    pub tasks: Vec<TCB>,
}

impl TaskTable {
    /// Whether the table holds a task with the number `pid`.
    pub open spec fn has(&self, pid: usize) -> bool {
        exists|i: int| 0 <= i < self.tasks@.len() && (#[trigger] self.tasks@[i]).pid.0 == pid
    }

    /// The place in the table of the task with the number `pid`.
    pub open spec fn index_of(&self, pid: usize) -> int {
        choose|i: int| 0 <= i < self.tasks@.len() && (#[trigger] self.tasks@[i]).pid.0 == pid
    }

    /// No two tasks have the same number.
    pub open spec fn wf(&self) -> bool {
        forall|i: int, j: int|
            0 <= i < self.tasks@.len() && 0 <= j < self.tasks@.len() && (#[trigger] self.tasks@[i]).pid.0 == (
            #[trigger] self.tasks@[j]).pid.0 ==> i == j
    }

    /// A table without tasks.
    pub fn new() -> (r: Self)
        ensures
            r.tasks@.len() == 0,
            r.wf(),
    {
        Self { tasks: Vec::new() }
    }

    /// The place in the table of the task with the number `pid`, if there is one.
    pub fn find(&self, pid: usize) -> (r: Option<usize>)
        ensures
            r.is_some() == self.has(pid),
            r.is_some() ==> r.unwrap() < self.tasks@.len() && self.tasks@[r.unwrap() as int].pid.0 == pid,
            r.is_some() && self.wf() ==> r.unwrap() == self.index_of(pid),
    {
        let mut i: usize = 0;
        while i < self.tasks.len()
            invariant
                i <= self.tasks@.len(),
                forall|j: int| 0 <= j < i ==> (#[trigger] self.tasks@[j]).pid.0 != pid,
            decreases self.tasks@.len() - i,
        {
            if self.tasks[i].pid.0 == pid {
                proof {
                    if self.wf() {
                        let k = self.index_of(pid);
                        assert(self.tasks@[k].pid.0 == self.tasks@[i as int].pid.0);
                    }
                }
                return Some(i);
            }
            i += 1;
        }
        None
    }
}

/// The processor: the task that runs on it, if one does, and the place of
/// the context of its idle flow of control.
pub struct Processor {
    pub current: Option<usize>,
    pub idle_task_cx_ptr: u64,
}

impl Processor {
    /// A processor on which no task runs.
    pub fn new() -> (r: Self)
        ensures
            r.current.is_none(),
            r.idle_task_cx_ptr == 0,
    {
        Self { current: None, idle_task_cx_ptr: 0 }
    }

    /// The place of the context of the idle flow of control.
    pub fn get_idle_task_cx_ptr2(&self) -> (r: ContextSlot)
        ensures
            r == ContextSlot::Idle,
    {
        ContextSlot::Idle
    }

    /// Takes the running task off the processor.
    pub fn take_current(&mut self) -> (r: Option<usize>)
        ensures
            r == old(self).current,
            final(self).current.is_none(),
            final(self).idle_task_cx_ptr == old(self).idle_task_cx_ptr,
    {
        self.current.take()
    }

    /// The running task.
    pub fn current(&self) -> (r: Option<usize>)
        ensures
            r == self.current,
    {
        self.current
    }

    /// One turn of the idle flow of control: the task that has been ready
    /// longest becomes the running task, and the switch to it is returned;
    /// `None` where no task is ready.
    pub fn run(&mut self, tasks: &mut TaskTable, manager: &mut TaskManager) -> (r: Option<Switch>)
        requires
            old(tasks).wf(),
            forall|i: int| 0 <= i < old(manager)@.len() ==> old(tasks).has(#[trigger] old(manager)@[i]),
        ensures
            final(self).idle_task_cx_ptr == old(self).idle_task_cx_ptr,
            old(manager)@.len() == 0 ==> r.is_none() && *final(self) == *old(self) && final(tasks).tasks
                == old(tasks).tasks && final(manager)@ == old(manager)@,
            old(manager)@.len() > 0 ==> {
                let next = old(manager)@[0];
                let i = old(tasks).index_of(next);
                &&& r == Some(Switch { from: ContextSlot::Idle, to: ContextSlot::Task(next) })
                &&& final(self).current == Some(next)
                &&& final(manager)@ == old(manager)@.subrange(1, old(manager)@.len() as int)
                &&& final(tasks).tasks@.len() == old(tasks).tasks@.len()
                &&& final(tasks).tasks@[i].inner.task_status == TaskStatus::Running
                &&& final(tasks).tasks@[i].pid == old(tasks).tasks@[i].pid
                &&& final(tasks).tasks@[i].kernel_stack == old(tasks).tasks@[i].kernel_stack
                &&& final(tasks).tasks@[i].inner.task_cx_ptr == old(tasks).tasks@[i].inner.task_cx_ptr
                &&& final(tasks).tasks@[i].inner.memory_set == old(tasks).tasks@[i].inner.memory_set
                &&& final(tasks).tasks@[i].inner.trap_cx_ppn == old(tasks).tasks@[i].inner.trap_cx_ppn
                &&& final(tasks).tasks@[i].inner.base_size == old(tasks).tasks@[i].inner.base_size
                &&& final(tasks).tasks@[i].inner.parent == old(tasks).tasks@[i].inner.parent
                &&& final(tasks).tasks@[i].inner.children == old(tasks).tasks@[i].inner.children
                &&& final(tasks).tasks@[i].inner.exit_code == old(tasks).tasks@[i].inner.exit_code
                &&& final(tasks).tasks@[i].inner.fd_table == old(tasks).tasks@[i].inner.fd_table
                &&& forall|j: int|
                    0 <= j < old(tasks).tasks@.len() && j != i ==> #[trigger] final(tasks).tasks@[j] == old(tasks).tasks@[j]
                &&& final(tasks).wf()
            },
    {
        match fetch_task(manager) {
            Some(task) => {
                let idle_task_cx_ptr2 = self.get_idle_task_cx_ptr2();
                let found = tasks.find(task);
                assert(old(tasks).has(old(manager)@[0]));
                let i = found.unwrap();
                let ghost before = tasks.tasks@;
                let tcb = &mut tasks.tasks[i];
                tcb.inner.task_status = TaskStatus::Running;
                self.current = Some(task);
                proof {
                    assert forall|a: int, b: int|
                        0 <= a < tasks.tasks@.len() && 0 <= b < tasks.tasks@.len() && (#[trigger] tasks.tasks@[a]).pid.0
                            == (#[trigger] tasks.tasks@[b]).pid.0 implies a == b by {
                        assert(tasks.tasks@[a].pid == before[a].pid);
                        assert(tasks.tasks@[b].pid == before[b].pid);
                    }
                }
                Some(Switch { from: idle_task_cx_ptr2, to: ContextSlot::Task(task) })
            },
            None => None,
        }
    }
}

/// One turn of the idle flow of control of the processor.
pub fn run_tasks(processor: &mut Processor, tasks: &mut TaskTable, manager: &mut TaskManager) -> (r: Option<
    Switch,
>)
    requires
        old(tasks).wf(),
        forall|i: int| 0 <= i < old(manager)@.len() ==> old(tasks).has(#[trigger] old(manager)@[i]),
    ensures
        old(manager)@.len() == 0 ==> r.is_none() && *final(processor) == *old(processor) && final(tasks).tasks
            == old(tasks).tasks && final(manager)@ == old(manager)@,
        old(manager)@.len() > 0 ==> {
            let next = old(manager)@[0];
            let i = old(tasks).index_of(next);
            &&& r == Some(Switch { from: ContextSlot::Idle, to: ContextSlot::Task(next) })
            &&& final(processor).current == Some(next)
            &&& final(manager)@ == old(manager)@.subrange(1, old(manager)@.len() as int)
            &&& final(tasks).tasks@.len() == old(tasks).tasks@.len()
            &&& final(tasks).tasks@[i].inner.task_status == TaskStatus::Running
            &&& final(tasks).wf()
        },
{
    processor.run(tasks, manager)
}

/// Takes the running task off the processor.
pub fn take_current_task(processor: &mut Processor) -> (r: Option<usize>)
    ensures
        r == old(processor).current,
        final(processor).current.is_none(),
        final(processor).idle_task_cx_ptr == old(processor).idle_task_cx_ptr,
{
    processor.take_current()
}

/// The running task.
pub fn current_task(processor: &Processor) -> (r: Option<usize>)
    ensures
        r == processor.current,
{
    processor.current()
}

/// The value that names the address space of the running task.
pub fn current_user_token(processor: &Processor, tasks: &TaskTable) -> (r: u64)
    requires
        processor.current.is_some(),
        tasks.has(processor.current.unwrap()),
        tasks.wf(),
    ensures
        r == (8u64 << 60) | tasks.tasks@[tasks.index_of(
            processor.current.unwrap(),
        )].inner.memory_set.page_table.root_ppn.0,
{
    let task = current_task(processor).unwrap();
    let i = tasks.find(task).unwrap();
    tasks.tasks[i].inner.get_user_token()
}

/// The trap context of the running task.
pub fn current_trap_cx(processor: &Processor, tasks: &TaskTable, pool: &FramePool) -> (r: TrapContext)
    requires
        processor.current.is_some(),
        tasks.has(processor.current.unwrap()),
        tasks.wf(),
        pool.memory.wf(),
        pool.memory.has(tasks.tasks@[tasks.index_of(processor.current.unwrap())].inner.trap_cx_ppn.0),
    ensures
        r@ == trap_cx_at(
            pool.mem()[tasks.tasks@[tasks.index_of(processor.current.unwrap())].inner.trap_cx_ppn.0],
        ),
{
    let task = current_task(processor).unwrap();
    let i = tasks.find(task).unwrap();
    tasks.tasks[i].inner.get_trap_cx(pool)
}

/// The switch from a task back to the idle flow of control: the context
/// of the task is stored in the place `switched_task_cx_ptr2`.
pub fn schedule(switched_task_cx_ptr2: ContextSlot) -> (r: Switch)
    ensures
        r == (Switch { from: switched_task_cx_ptr2, to: ContextSlot::Idle }),
{
    Switch { from: switched_task_cx_ptr2, to: ContextSlot::Idle }
}


/// A task that was in the table is found at its place as long as the
/// tasks before keep their numbers and no two tasks have the same number.
pub proof fn lemma_index_stable(before: &TaskTable, after: &TaskTable, pid: usize)
    requires
        after.wf(),
        after.tasks@.len() >= before.tasks@.len(),
        forall|a: int| 0 <= a < before.tasks@.len() ==> (#[trigger] after.tasks@[a]).pid == before.tasks@[a].pid,
        before.has(pid),
    ensures
        after.has(pid),
        after.index_of(pid) == before.index_of(pid),
{
    let w = before.index_of(pid);
    assert(after.tasks@[w].pid.0 == pid);
    let v = after.index_of(pid);
    assert(after.tasks@[v].pid.0 == after.tasks@[w].pid.0);
}


/// After the task at place `gone` left the table, each other task that was
/// in the table is in it, one place further to the front if it stood behind.
pub proof fn lemma_index_removed(before: &TaskTable, after: &TaskTable, gone: int, pid: usize)
    requires
        before.wf(),
        0 <= gone < before.tasks@.len(),
        after.tasks@.len() == before.tasks@.len() - 1,
        forall|a: int| 0 <= a < gone ==> (#[trigger] after.tasks@[a]).pid == before.tasks@[a].pid,
        forall|a: int| gone <= a < after.tasks@.len() ==> (#[trigger] after.tasks@[a]).pid == before.tasks@[a + 1].pid,
    ensures
        after.wf(),
        !after.has(before.tasks@[gone].pid.0),
        before.has(pid) && pid != before.tasks@[gone].pid.0 ==> after.has(pid) && after.index_of(pid) == if before.index_of(
            pid,
        ) < gone {
            before.index_of(pid)
        } else {
            before.index_of(pid) - 1
        },
{
    let place = |a: int|
        if a < gone {
            a
        } else {
            a + 1
        };
    assert forall|a: int, b: int|
        0 <= a < after.tasks@.len() && 0 <= b < after.tasks@.len() && (#[trigger] after.tasks@[a]).pid.0 == (
        #[trigger] after.tasks@[b]).pid.0 implies a == b by {
        assert(before.tasks@[place(a)].pid.0 == before.tasks@[place(b)].pid.0);
    }
    if after.has(before.tasks@[gone].pid.0) {
        let a = after.index_of(before.tasks@[gone].pid.0);
        assert(before.tasks@[place(a)].pid.0 == before.tasks@[gone].pid.0);
    }
    if before.has(pid) && pid != before.tasks@[gone].pid.0 {
        let j = before.index_of(pid);
        let w = if j < gone {
            j
        } else {
            j - 1
        };
        assert(after.tasks@[w].pid.0 == pid);
        let v = after.index_of(pid);
        assert(after.tasks@[v].pid.0 == after.tasks@[w].pid.0);
    }
}

} // verus!
