use vstd::prelude::*;
use crate::easy_fs::block_dev::BlockDevice;
use crate::kernel::Kernel;
use crate::mm::address::key_of;
use crate::mm::frame_allocator::FramePool;
use crate::mm::area_removal::{lemma_alike_at, lemma_unmapped_at, mapped_alike, range_unmapped};
use crate::mm::memory_set::{apart_from, lemma_walk_key, page_up, KernelLayout, MapType, MemorySet};
use crate::mm::page_table::pte_ppn;
use crate::task::pid::{stack_end, stack_start};
use crate::task::stacks::{lemma_stack_apart_from_memory, lemma_stack_pages, lemma_stacks_apart};
use crate::task::task::stack_added;

verus! {

/// Whether the pages of the kernel stack of the task with number `pid`
/// are not mapped in the address space `ks`.
pub open spec fn stack_free(ks: &MemorySet, pool: &FramePool, pid: usize) -> bool {
    forall|v: u64| stack_start(pid) <= v < stack_end(pid) ==> (#[trigger] ks.page_table.lookup(pool, v)).is_none()
}

/// Whether area `a` of the address space `ks` is the kernel stack of the
/// task with number `pid`.
pub open spec fn is_stack_of(ks: &MemorySet, a: int, pid: usize) -> bool {
    &&& pid < 0x100_0000
    &&& ks.areas@[a].map_type == MapType::Framed
    &&& ks.areas@[a].start() == stack_start(pid)
    &&& ks.areas@[a].end() == stack_end(pid)
}

/// Whether area `a` of the address space `ks` of the kernel is a part of
/// physical memory or the kernel stack of a task.
pub open spec fn area_shape(ks: &MemorySet, a: int) -> bool {
    ks.areas@[a].end() <= 0x80800 || exists|pid: usize| #[trigger] is_stack_of(ks, a, pid)
}

impl<D: BlockDevice> Kernel<D> {
    /// The kernel is in order: its books, its memory, the families of
    /// its tasks, their kernel stacks and the pipes.
    pub open spec fn inv(&self) -> bool {
        &&& self.wf()
        &&& self.mem_ok()
        &&& self.family_ok()
        &&& self.stacks_ok()
        &&& self.pipes_wf()
    }

    /// The kernel stacks are in order: the address space of the kernel
    /// holds parts of physical memory and kernel stacks of tasks, the
    /// kernel stack of each task in the table is there, and where a
    /// number is in no use the pages of its kernel stack are not mapped.
    #[verifier::opaque]
    pub open spec fn stacks_ok(&self) -> bool {
        &&& forall|a: int| 0 <= a < self.kernel_space.areas@.len() ==> #[trigger] area_shape(&self.kernel_space, a)
        &&& forall|pid: usize|
            pid < 0x100_0000 && !self.pid_allocator@.is_allocated(pid) ==> #[trigger] stack_free(
                &self.kernel_space,
                &self.pool,
                pid,
            )
        &&& forall|i: int|
            0 <= i < self.tasks.tasks@.len() ==> self.kernel_space.has_area_at(
                stack_start((#[trigger] self.tasks.tasks@[i]).pid.0),
            )
    }
}

/// Two numbers of tasks with the same first page of the kernel stack are one number.
pub proof fn lemma_stack_start_one(p: usize, q: usize)
    requires
        p < 0x100_0000,
        q < 0x100_0000,
        stack_start(p) == stack_start(q),
    ensures
        p == q,
{
    lemma_stack_pages(p);
    lemma_stack_pages(q);
}

/// The page table of the kernel tells the pages of the kernel stack of a
/// task apart from every page of every other area.
pub proof fn lemma_stack_stands_apart(ks: &MemorySet, pool: &FramePool, a: int, pid: usize)
    requires
        ks.wf(pool),
        0 <= a < ks.areas@.len(),
        is_stack_of(ks, a, pid),
        forall|b: int| 0 <= b < ks.areas@.len() ==> #[trigger] area_shape(ks, b),
    ensures
        ks.stands_apart(a),
{
    lemma_stack_pages(pid);
    assert forall|b: int, w: u64|
        0 <= b < ks.areas@.len() && b != a && (#[trigger] ks.areas@[b]).start() <= w < ks.areas@[b].end() implies #[trigger] apart_from(
        w,
        ks.areas@[a].start(),
        ks.areas@[a].end(),
    ) by {
        assert(area_shape(ks, b));
        if ks.areas@[b].end() <= 0x80800 {
            lemma_stack_apart_from_memory(pid, w);
        } else {
            let q = choose|q: usize| #[trigger] is_stack_of(ks, b, q);
            if q != pid {
                lemma_stacks_apart(pid, q, w);
            } else {
                let v = stack_start(pid);
                let x = ks.areas@[a];
                let y = ks.areas@[b];
                assert(x.mapped_whole(&ks.page_table, pool));
                assert(y.mapped_whole(&ks.page_table, pool));
                assert(ks.page_table.lookup(pool, v) == Some(x.entry_for(x.target(v))));
                assert(ks.page_table.lookup(pool, v) == Some(y.entry_for(y.target(v))));
                let f = x.data_frame@[0].1.ppn.0;
                let g = y.data_frame@[0].1.ppn.0;
                assert(pool.is_allocated(f) && pool.is_allocated(g));
                crate::mm::page_table::lemma_pte_bits(f, x.map_perm.bits | crate::mm::page_table::PTE_V);
                crate::mm::page_table::lemma_pte_bits(g, y.map_perm.bits | crate::mm::page_table::PTE_V);
                assert(f == g);
                assert(x.owns(f));
                assert(y.owns(f));
                assert(false);
            }
        }
    }
}


/// Where an area begins at page `vpn`, there is a first such area.
pub proof fn lemma_area_at(ks: &MemorySet, vpn: u64, k: int)
    requires
        0 <= k < ks.areas@.len(),
        ks.areas@[k].start() == vpn,
    ensures
        0 <= ks.area_at(vpn) <= k,
        ks.areas@[ks.area_at(vpn)].start() == vpn,
        forall|b: int| 0 <= b < ks.area_at(vpn) ==> (#[trigger] ks.areas@[b]).start() != vpn,
    decreases k,
{
    if forall|b: int| 0 <= b < k ==> (#[trigger] ks.areas@[b]).start() != vpn {
        let a = ks.area_at(vpn);
        if a > k {
            assert(ks.areas@[k].start() != vpn);
        }
    } else {
        let b = choose|b: int| 0 <= b < k && (#[trigger] ks.areas@[b]).start() == vpn;
        lemma_area_at(ks, vpn, b);
    }
}

/// The first area that begins at the first page of the kernel stack of
/// the task with number `pid` is that kernel stack, and the page table
/// tells its pages apart from the pages of the other areas.
pub proof fn lemma_stack_area(ks: &MemorySet, pool: &FramePool, pid: usize)
    requires
        pid < 0x100_0000,
        ks.wf(pool),
        ks.has_area_at(stack_start(pid)),
        forall|b: int| 0 <= b < ks.areas@.len() ==> #[trigger] area_shape(ks, b),
    ensures
        0 <= ks.area_at(stack_start(pid)) < ks.areas@.len(),
        is_stack_of(ks, ks.area_at(stack_start(pid)), pid),
{
    let x = stack_start(pid);
    let k = choose|k: int| 0 <= k < ks.areas@.len() && (#[trigger] ks.areas@[k]).start() == x;
    lemma_area_at(ks, x, k);
    let a = ks.area_at(x);
    lemma_stack_pages(pid);
    assert(area_shape(ks, a));
    assert(ks.areas@[a].mapped_whole(&ks.page_table, pool));
    assert(ks.areas@[a].start() <= ks.areas@[a].end());
    let q = choose|q: usize| #[trigger] is_stack_of(ks, a, q);
    lemma_stack_start_one(q, pid);
}

/// The kernel stacks stay in order where the address space of the kernel
/// maps what it mapped and the same numbers are in use by the same tasks.
pub proof fn lemma_stacks_kept<D: BlockDevice>(before: &Kernel<D>, after: &Kernel<D>)
    requires
        before.stacks_ok(),
        after.kernel_space == before.kernel_space,
        after.pid_allocator@ == before.pid_allocator@,
        after.tasks.tasks@.len() == before.tasks.tasks@.len(),
        forall|i: int| 0 <= i < before.tasks.tasks@.len() ==> (#[trigger] after.tasks.tasks@[i]).pid == before.tasks.tasks@[i].pid,
        forall|v: u64|
            #[trigger] after.kernel_space.page_table.lookup(&after.pool, v) == before.kernel_space.page_table.lookup(
                &before.pool,
                v,
            ),
    ensures
        after.stacks_ok(),
{
    reveal(Kernel::stacks_ok);
    assert forall|a: int| 0 <= a < after.kernel_space.areas@.len() implies #[trigger] area_shape(&after.kernel_space, a) by {
        assert(area_shape(&before.kernel_space, a));
    }
    assert forall|pid: usize| pid < 0x100_0000 && !after.pid_allocator@.is_allocated(pid) implies #[trigger] stack_free(
        &after.kernel_space,
        &after.pool,
        pid,
    ) by {
        assert(stack_free(&before.kernel_space, &before.pool, pid));
    }
    assert forall|i: int| 0 <= i < after.tasks.tasks@.len() implies after.kernel_space.has_area_at(
        stack_start((#[trigger] after.tasks.tasks@[i]).pid.0),
    ) by {
        assert(before.kernel_space.has_area_at(stack_start(before.tasks.tasks@[i].pid.0)));
    }
}

/// The kernel stacks stay in order where a task with the number `pid`,
/// which was in no use, is added to the table, and its kernel stack to the
/// address space of the kernel.
pub proof fn lemma_stacks_with_task<D: BlockDevice>(before: &Kernel<D>, after: &Kernel<D>, pid: usize)
    requires
        before.stacks_ok(),
        pid < 0x100_0000,
        after.pid_allocator@.is_allocated(pid),
        forall|q: usize| q != pid ==> after.pid_allocator@.is_allocated(q) == before.pid_allocator@.is_allocated(q),
        after.kernel_space.areas@.len() == before.kernel_space.areas@.len() + 1,
        after.kernel_space.areas@.drop_last() == before.kernel_space.areas@,
        after.kernel_space.areas@.last().start() == stack_start(pid),
        after.kernel_space.areas@.last().end() == stack_end(pid),
        stack_added(&before.kernel_space, &before.pool, &after.kernel_space, &after.pool, pid),
        after.tasks.tasks@.len() == before.tasks.tasks@.len() + 1,
        forall|i: int| 0 <= i < before.tasks.tasks@.len() ==> (#[trigger] after.tasks.tasks@[i]).pid == before.tasks.tasks@[i].pid,
        after.tasks.tasks@.last().pid.0 == pid,
    ensures
        after.stacks_ok(),
{
    reveal(Kernel::stacks_ok);
    let n = before.kernel_space.areas@.len() as int;
    assert(after.kernel_space.areas@[n] == after.kernel_space.areas@.last());
    assert forall|a: int| 0 <= a < after.kernel_space.areas@.len() implies #[trigger] area_shape(&after.kernel_space, a) by {
        if a < n {
            assert(after.kernel_space.areas@[a] == after.kernel_space.areas@.drop_last()[a]);
            assert(area_shape(&before.kernel_space, a));
            if before.kernel_space.areas@[a].end() > 0x80800 {
                let q = choose|q: usize| #[trigger] is_stack_of(&before.kernel_space, a, q);
                assert(is_stack_of(&after.kernel_space, a, q));
            }
        } else {
            assert(is_stack_of(&after.kernel_space, a, pid));
        }
    }
    assert forall|q: usize| q < 0x100_0000 && !after.pid_allocator@.is_allocated(q) && q != pid implies #[trigger] stack_free(
        &after.kernel_space,
        &after.pool,
        q,
    ) by {
        assert(stack_free(&before.kernel_space, &before.pool, q));
        assert forall|v: u64| stack_start(q) <= v < stack_end(q) implies (#[trigger] after.kernel_space.page_table.lookup(
            &after.pool,
            v,
        )).is_none() by {
            lemma_stacks_apart(pid, q, v);
            assert(before.kernel_space.page_table.lookup(&before.pool, v).is_none());
        }
    }
    assert forall|i: int| 0 <= i < after.tasks.tasks@.len() implies after.kernel_space.has_area_at(
        stack_start((#[trigger] after.tasks.tasks@[i]).pid.0),
    ) by {
        if i < before.tasks.tasks@.len() {
            let x = stack_start(before.tasks.tasks@[i].pid.0);
            assert(before.kernel_space.has_area_at(x));
            let a = choose|a: int| 0 <= a < before.kernel_space.areas@.len() && (#[trigger] before.kernel_space.areas@[a]).start() == x;
            assert(after.kernel_space.areas@[a] == after.kernel_space.areas@.drop_last()[a]);
        } else {
            assert(after.tasks.tasks@[i] == after.tasks.tasks@.last());
            assert(after.kernel_space.areas@[n].start() == stack_start(pid));
        }
    }
}


/// In the address space of a kernel that was just made, the pages of the
/// kernel stack of no task are mapped.
pub proof fn lemma_fresh_stack_free(ks: &MemorySet, pool: &FramePool, layout: &KernelLayout, pid: usize)
    requires
        layout.wf(),
        pid < 0x100_0000,
        ks.areas@.len() == 5,
        forall|a: int| 0 <= a < 5 ==> (#[trigger] ks.areas@[a]).end() == page_up(layout.sections()[a].1),
        forall|v: u64| v < 0x7ff_ffff && !ks.in_area(v) ==> (#[trigger] ks.page_table.lookup(pool, v)).is_none(),
    ensures
        stack_free(ks, pool, pid),
        forall|a: int| 0 <= a < 5 ==> (#[trigger] ks.areas@[a]).end() <= 0x80800,
{
    lemma_stack_pages(pid);
    assert forall|a: int| 0 <= a < 5 implies (#[trigger] ks.areas@[a]).end() <= 0x80800 by {
        layout.lemma_sections(a);
        assert(layout.sections()[a].1 <= crate::config::MEMORY_END);
    }
    assert forall|v: u64| stack_start(pid) <= v < stack_end(pid) implies (#[trigger] ks.page_table.lookup(pool, v)).is_none() by {
        let k = key_of(v);
        assert(0xF_FFFF_FFFF_FFFF - 3 * 0x100_0000 - 2 <= v < 0xF_FFFF_FFFF_FFFF ==> 0x80800 <= (v & 0x7ff_ffff) < 0x7ff_ffff
            && (v & 0x7ff_ffff) & 0x7ff_ffff == v & 0x7ff_ffff) by (bit_vector);
        assert(key_of(k) == k);
        lemma_walk_key(pool.mem(), ks.page_table.root_ppn.0, v, k);
        assert(!ks.in_area(k)) by {
            if ks.in_area(k) {
                let a = choose|a: int| 0 <= a < ks.areas@.len() && (#[trigger] ks.areas@[a]).start() <= k < ks.areas@[a].end();
                assert(ks.areas@[a].end() <= 0x80800);
            }
        }
        assert(ks.page_table.lookup(pool, k).is_none());
    }
}


/// The areas keep their shape where one of them is taken out.
pub proof fn lemma_shape_without(ks0: &MemorySet, ks: &MemorySet, a: int)
    requires
        0 <= a < ks0.areas@.len(),
        ks.areas@ == ks0.areas@.remove(a),
        forall|b: int| 0 <= b < ks0.areas@.len() ==> #[trigger] area_shape(ks0, b),
    ensures
        forall|b: int| 0 <= b < ks.areas@.len() ==> #[trigger] area_shape(ks, b),
{
    assert forall|b: int| 0 <= b < ks.areas@.len() implies #[trigger] area_shape(ks, b) by {
        let b0 = if b < a {
            b
        } else {
            b + 1
        };
        assert(ks.areas@[b] == ks0.areas@[b0]);
        assert(area_shape(ks0, b0));
        if ks0.areas@[b0].end() > 0x80800 {
            let q = choose|q: usize| #[trigger] is_stack_of(ks0, b0, q);
            assert(is_stack_of(ks, b, q));
        }
    }
}

/// An area that begins at page `x` is still there where another area is taken out.
pub proof fn lemma_has_area_without(ks0: &MemorySet, ks: &MemorySet, a: int, x: u64)
    requires
        0 <= a < ks0.areas@.len(),
        ks.areas@ == ks0.areas@.remove(a),
        ks0.has_area_at(x),
        ks0.areas@[a].start() != x,
    ensures
        ks.has_area_at(x),
{
    let b0 = choose|b0: int| 0 <= b0 < ks0.areas@.len() && (#[trigger] ks0.areas@[b0]).start() == x;
    let b = if b0 < a {
        b0
    } else {
        b0 - 1
    };
    assert(ks.areas@[b] == ks0.areas@[b0]);
}

/// The pages of the kernel stack of the task with number `q` are not
/// mapped after the kernel stack of the task with number `c` was taken
/// out, where they were not mapped before or `q` is `c`.
pub proof fn lemma_free_without(ks0: &MemorySet, p0: &FramePool, ks: &MemorySet, p: &FramePool, c: usize, q: usize)
    requires
        c < 0x100_0000,
        q < 0x100_0000,
        mapped_alike(ks0, p0, ks, p, stack_start(c), stack_end(c)),
        range_unmapped(ks, p, stack_start(c), stack_end(c)),
        q != c ==> stack_free(ks0, p0, q),
    ensures
        stack_free(ks, p, q),
{
    assert forall|v: u64| stack_start(q) <= v < stack_end(q) implies (#[trigger] ks.page_table.lookup(p, v)).is_none() by {
        if q != c {
            lemma_stacks_apart(c, q, v);
            lemma_alike_at(ks0, p0, ks, p, stack_start(c), stack_end(c), v);
            assert(ks0.page_table.lookup(p0, v).is_none());
        } else {
            lemma_unmapped_at(ks, p, stack_start(c), stack_end(c), v);
        }
    }
}

/// The kernel stacks stay in order where the task at place `gone` leaves
/// the table, its number comes back, and its kernel stack is taken out
/// of the address space of the kernel.
pub proof fn lemma_stacks_without_task<D: BlockDevice>(before: &Kernel<D>, after: &Kernel<D>, gone: int)
    requires
        before.stacks_ok(),
        before.tasks.wf(),
        before.pid_allocator@.wf(),
        before.pid_allocator@.is_allocated(before.tasks.tasks@[gone].pid.0),
        forall|i: int| 0 <= i < before.tasks.tasks@.len() ==> (#[trigger] before.tasks.tasks@[i]).pid.0 < 0x100_0000,
        before.kernel_space.wf(&before.pool),
        0 <= gone < before.tasks.tasks@.len(),
        after.pid_allocator@ == before.pid_allocator@.after_dealloc(before.tasks.tasks@[gone].pid.0),
        ({
            let c = before.tasks.tasks@[gone].pid.0;
            let a = before.kernel_space.area_at(stack_start(c));
            let area = before.kernel_space.areas@[a];
            &&& after.kernel_space.areas@ == before.kernel_space.areas@.remove(a)
            &&& mapped_alike(&before.kernel_space, &before.pool, &after.kernel_space, &after.pool, area.start(), area.end())
            &&& range_unmapped(&after.kernel_space, &after.pool, area.start(), area.end())
        }),
        after.tasks.tasks@.len() == before.tasks.tasks@.len() - 1,
        forall|i: int|
            0 <= i < after.tasks.tasks@.len() ==> (#[trigger] after.tasks.tasks@[i]).pid == before.tasks.tasks@[if i < gone {
                i
            } else {
                i + 1
            }].pid,
    ensures
        after.stacks_ok(),
{
    reveal(Kernel::stacks_ok);
    let c = before.tasks.tasks@[gone].pid.0;
    let ks = &before.kernel_space;
    assert(ks.has_area_at(stack_start(c)));
    let a = ks.area_at(stack_start(c));
    lemma_stack_area(ks, &before.pool, c);
    crate::task::pid::lemma_pid_reuse(before.pid_allocator@, c);
    lemma_shape_without(ks, &after.kernel_space, a);
    assert forall|q: usize| q < 0x100_0000 && !after.pid_allocator@.is_allocated(q) implies #[trigger] stack_free(
        &after.kernel_space,
        &after.pool,
        q,
    ) by {
        if q != c {
            assert(stack_free(ks, &before.pool, q));
        }
        lemma_free_without(ks, &before.pool, &after.kernel_space, &after.pool, c, q);
    }
    assert forall|i: int| 0 <= i < after.tasks.tasks@.len() implies after.kernel_space.has_area_at(
        stack_start((#[trigger] after.tasks.tasks@[i]).pid.0),
    ) by {
        let i0 = if i < gone {
            i
        } else {
            i + 1
        };
        let p = before.tasks.tasks@[i0].pid.0;
        assert(after.tasks.tasks@[i].pid.0 == p);
        assert(p != c);
        assert(ks.has_area_at(stack_start(p)));
        if ks.areas@[a].start() == stack_start(p) {
            lemma_stack_start_one(p, c);
        }
        lemma_has_area_without(ks, &after.kernel_space, a, stack_start(p));
    }
}

/// A task that has exited is not the first task.
pub proof fn lemma_zombie_not_first<D: BlockDevice>(kernel: &Kernel<D>, j: int)
    requires
        kernel.tasks.wf(),
        kernel.tasks.has(kernel.initproc),
        kernel.tasks.tasks@[kernel.tasks.index_of(kernel.initproc)].inner.task_status != crate::task::task::TaskStatus::Zombie,
        0 <= j < kernel.tasks.tasks@.len(),
        kernel.tasks.tasks@[j].inner.task_status == crate::task::task::TaskStatus::Zombie,
    ensures
        kernel.tasks.tasks@[j].pid.0 != kernel.initproc,
{
    let ip = kernel.tasks.index_of(kernel.initproc);
    if kernel.tasks.tasks@[j].pid.0 == kernel.initproc {
        assert(kernel.tasks.tasks@[ip].pid.0 == kernel.tasks.tasks@[j].pid.0);
    }
}

/// What the kernel has to know of a task that has exited to give back
/// what it held follows from the books, the memory, the families and the
/// kernel stacks being in order.
pub proof fn lemma_can_reap<D: BlockDevice>(kernel: &Kernel<D>, j: int)
    requires
        kernel.wf(),
        kernel.mem_ok(),
        kernel.family_ok(),
        kernel.stacks_ok(),
        0 <= j < kernel.tasks.tasks@.len(),
        kernel.tasks.tasks@[j].inner.task_status == crate::task::task::TaskStatus::Zombie,
    ensures
        kernel.can_reap(&kernel.tasks.tasks@[j]),
{
    reveal(Kernel::mem_ok);
    reveal(Kernel::family_ok);
    reveal(Kernel::stacks_ok);
    reveal(crate::task::pid::KernelStack::first_page);
    let t = kernel.tasks.tasks@[j];
    assert(kernel.space_ok(j));
    lemma_zombie_not_first(kernel, j);
    assert(kernel.kernel_space.has_area_at(stack_start(t.pid.0)));
    lemma_stack_area(&kernel.kernel_space, &kernel.pool, t.pid.0);
    lemma_stack_stands_apart(
        &kernel.kernel_space,
        &kernel.pool,
        kernel.kernel_space.area_at(stack_start(t.pid.0)),
        t.pid.0,
    );
}

/// What the kernel has to know of the address space of the running task
/// and of its own to copy the task follows from the books, the memory and
/// the kernel stacks being in order, where a number for the new task is left.
pub proof fn lemma_can_fork<D: BlockDevice>(kernel: &Kernel<D>)
    requires
        kernel.wf(),
        kernel.running(),
        kernel.mem_ok(),
        kernel.stacks_ok(),
        kernel.pid_allocator@.next() < 0x100_0000,
    ensures
        kernel.kernel_space.wf(&kernel.pool),
        kernel.tasks.tasks@[kernel.cur()].is_user_task(&kernel.pool, kernel.env.strampoline.0),
        forall|p: u64|
            kernel.tasks.tasks@[kernel.cur()].inner.memory_set.owns(p) ==> !kernel.kernel_space.owns(p),
        forall|v: u64|
            stack_start(kernel.pid_allocator@.next()) <= v < stack_end(kernel.pid_allocator@.next())
                ==> (#[trigger] kernel.kernel_space.page_table.lookup(&kernel.pool, v)).is_none(),
{
    reveal(Kernel::mem_ok);
    reveal(Kernel::stacks_ok);
    assert(kernel.space_ok(kernel.cur()));
    crate::task::pid::lemma_pid_fresh(kernel.pid_allocator@);
    assert(stack_free(&kernel.kernel_space, &kernel.pool, kernel.pid_allocator@.next()));
}


/// What the kernel has to know to end the running task, which is not the
/// first task, follows from the books, the memory and the families being
/// in order.
pub proof fn lemma_can_exit<D: BlockDevice>(kernel: &Kernel<D>)
    requires
        kernel.wf(),
        kernel.running(),
        kernel.mem_ok(),
        kernel.family_ok(),
        kernel.processor.current.unwrap() != kernel.initproc,
    ensures
        kernel.can_exit(),
{
    reveal(Kernel::mem_ok);
    reveal(Kernel::family_ok);
    let i = kernel.cur();
    assert(kernel.space_ok(i));
    assert forall|k: int| 0 <= k < kernel.tasks.tasks@[i].inner.children@.len() implies {
        let c = #[trigger] kernel.tasks.tasks@[i].inner.children@[k];
        kernel.tasks.has(c) && c != kernel.initproc && c != kernel.processor.current.unwrap()
    } by {
        assert(kernel.child_ok(i, k));
    }
}

/// What the kernel has to know of the address space of the running task
/// to give it another program, and to find its trap context, follows
/// from the books and the memory being in order.
pub proof fn lemma_can_exec<D: BlockDevice>(kernel: &Kernel<D>)
    requires
        kernel.wf(),
        kernel.running(),
        kernel.mem_ok(),
    ensures
        kernel.kernel_space.wf(&kernel.pool),
        kernel.tasks.tasks@[kernel.cur()].inner.memory_set.wf(&kernel.pool),
        forall|p: u64|
            kernel.tasks.tasks@[kernel.cur()].inner.memory_set.owns(p) ==> !kernel.kernel_space.owns(p),
        kernel.env.strampoline.0 % 4096 == 0,
        kernel.env.strampoline.0 / 4096 < 0x1000_0000_0000,
        kernel.pool.memory.has(kernel.trap_page()),
{
    reveal(Kernel::mem_ok);
    let i = kernel.cur();
    let t = kernel.tasks.tasks@[i];
    assert(kernel.space_ok(i));
    t.inner.memory_set.lemma_task_space_facts(&kernel.pool, kernel.env.strampoline.0, t.inner.trap_cx_ppn.0);
}

} // verus!
