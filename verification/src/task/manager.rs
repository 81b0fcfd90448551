use vstd::prelude::*;
use std::collections::VecDeque;

verus! {

/// The tasks that are ready to run, by their numbers, in the order in
/// which they became ready.
pub struct TaskManager {
    pub ready_queue: VecDeque<usize>,
}

impl View for TaskManager {
    type V = Seq<usize>;

    open spec fn view(&self) -> Seq<usize> {
        self.ready_queue@
    }
}

impl TaskManager {
    /// A manager without tasks.
    pub fn new() -> (r: Self)
        ensures
            r@ == Seq::<usize>::empty(),
    {
        Self { ready_queue: VecDeque::new() }
    }

    /// Adds the task `task` behind the tasks that are ready.
    pub fn add(&mut self, task: usize)
        ensures
            final(self)@ == old(self)@.push(task),
    {
        self.ready_queue.push_back(task);
    }

    /// Takes the task that has been ready longest, if there is one.
    pub fn fetch(&mut self) -> (r: Option<usize>)
        ensures
            old(self)@.len() == 0 ==> r.is_none() && final(self)@ == old(self)@,
            old(self)@.len() > 0 ==> r == Some(old(self)@[0]) && final(self)@ == old(self)@.subrange(
                1,
                old(self)@.len() as int,
            ),
    {
        self.ready_queue.pop_front()
    }
}

/// Adds the task `task` behind the tasks that are ready.
pub fn add_task(manager: &mut TaskManager, task: usize)
    ensures
        final(manager)@ == old(manager)@.push(task),
{
    manager.add(task)
}

/// Takes the task that has been ready longest, if there is one.
pub fn fetch_task(manager: &mut TaskManager) -> (r: Option<usize>)
    ensures
        old(manager)@.len() == 0 ==> r.is_none() && final(manager)@ == old(manager)@,
        old(manager)@.len() > 0 ==> r == Some(old(manager)@[0]) && final(manager)@ == old(manager)@.subrange(
            1,
            old(manager)@.len() as int,
        ),
{
    manager.fetch()
}

/// A task that yields to a task that has been ready as long as any is the
/// next to run after all that were ready before it.
pub proof fn lemma_first_in_first_out(queue: Seq<usize>, yielding: usize)
    ensures
        queue.len() > 0 ==> queue.push(yielding)[0] == queue[0] && queue.push(yielding).subrange(
            1,
            queue.len() as int + 1,
        ) == queue.subrange(1, queue.len() as int).push(yielding),
        queue.len() == 0 ==> queue.push(yielding)[0] == yielding,
{
    if queue.len() > 0 {
        assert(queue.push(yielding).subrange(1, queue.len() as int + 1) =~= queue.subrange(1, queue.len() as int).push(
            yielding,
        ));
    }
}

} // verus!
