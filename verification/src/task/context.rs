use vstd::prelude::*;

verus! {

/// Size in bytes of a task context in memory: 13 numbers of 8 bytes.
pub const TASK_CONTEXT_SIZE: u64 = 104;

/// What a task keeps across a switch to another task: the address to
/// return to, and the twelve registers that a call must keep.
pub struct TaskContext {
    pub ra: u64,
    pub s: [u64; 12],
}

/// The 13 numbers of a task context that goes on at `ra` with every other register zero.
pub open spec fn task_context_words(ra: u64) -> Seq<u64> {
    Seq::new(
        13,
        |i: int|
            if i == 0 {
                ra
            } else {
                0u64
            },
    )
}

impl TaskContext {
    /// The 13 numbers of the task context, in the order in which they are stored.
    pub open spec fn words(&self) -> Seq<u64> {
        seq![self.ra] + self.s@
    }

    /// The context of a task that goes on at `restore`, the code that
    /// restores a trap context.
    pub fn goto_restore(restore: u64) -> (r: Self)
        ensures
            r.words() == task_context_words(restore),
    {
        let r = Self { ra: restore, s: [0u64; 12] };
        assert(r.words() =~= task_context_words(restore));
        r
    }

    /// The context of a task that goes on at `trap_return`, the way back
    /// into user mode.
    pub fn goto_trap_return(trap_return: u64) -> (r: Self)
        ensures
            r.words() == task_context_words(trap_return),
    {
        let r = Self { ra: trap_return, s: [0u64; 12] };
        assert(r.words() =~= task_context_words(trap_return));
        r
    }

    /// The 13 numbers of the task context, in the order in which they are stored.
    pub fn to_words(&self) -> (r: Vec<u64>)
        ensures
            r@ == self.words(),
    {
        let mut r: Vec<u64> = Vec::new();
        r.push(self.ra);
        let mut i: usize = 0;
        while i < 12
            invariant
                i <= 12,
                r@.len() == i + 1,
                r@[0] == self.ra,
                forall|k: int| 0 <= k < i ==> r@[k + 1] == self.s@[k],
            decreases 12 - i,
        {
            r.push(self.s[i]);
            i += 1;
        }
        assert(r@ =~= self.words());
        r
    }
}

} // verus!
