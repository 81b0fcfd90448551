use vstd::prelude::*;
use crate::mm::address::key_of;
use crate::mm::memory_set::{apart_from, lemma_keys_apart};
use crate::task::pid::{stack_end, stack_start};

verus! {

/// The kernel stack of the task with number `pid` is the two pages below
/// the third page below the trampoline, counted in threes from it.
pub proof fn lemma_stack_pages(pid: usize)
    requires
        pid < 0x100_0000,
    ensures
        stack_start(pid) == 0xF_FFFF_FFFF_FFFF - 3 * pid - 2,
        stack_end(pid) == 0xF_FFFF_FFFF_FFFF - 3 * pid,
{
}

/// A page table tells the pages of the kernel stacks of two tasks apart.
pub proof fn lemma_stacks_apart(p: usize, q: usize, v: u64)
    requires
        p < 0x100_0000,
        q < 0x100_0000,
        p != q,
        stack_start(q) <= v < stack_end(q),
    ensures
        apart_from(v, stack_start(p), stack_end(p)),
{
    lemma_stack_pages(p);
    lemma_stack_pages(q);
    assert forall|w: u64| stack_start(p) <= w < stack_end(p) implies key_of(v) != #[trigger] key_of(w) by {
        if v < w {
            lemma_keys_apart(v, w);
        } else {
            lemma_keys_apart(w, v);
        }
    }
}

/// A page table tells a page of physical memory, which the kernel maps to
/// itself, apart from the pages of the kernel stack of a task.
pub proof fn lemma_stack_apart_from_memory(p: usize, v: u64)
    requires
        p < 0x100_0000,
        v < 0x80800,
    ensures
        apart_from(v, stack_start(p), stack_end(p)),
        forall|w: u64| stack_start(p) <= w < stack_end(p) ==> #[trigger] key_of(w) != key_of(v),
{
    lemma_stack_pages(p);
    assert forall|w: u64| stack_start(p) <= w < stack_end(p) implies key_of(v) != #[trigger] key_of(w) by {
        assert(v < 0x80800 && 0xF_FFFF_FFFF_FFFF - 3 * 0x100_0000 - 2 <= w <= 0xF_FFFF_FFFF_FFFF ==> (v & 0x7ff_ffff)
            != (w & 0x7ff_ffff)) by (bit_vector);
    }
}

} // verus!
