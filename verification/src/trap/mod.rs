use vstd::prelude::*;
use crate::easy_fs::block_dev::BlockDevice;
use crate::kernel::Kernel;
use crate::syscall::process::{set_return_value, sys_exit, sys_yield};
use crate::syscall::{syscall, syscall_of, Syscall};
use crate::task::processor::{ContextSlot, Switch};
use crate::task::task::{TaskStatus, TaskView};
use crate::timer::set_next_trigger;
use crate::trap::context::{trap_cx_at, TrapContext, TrapContextView};

pub mod context;

verus! {

/// Why the processor left the user program.
#[derive(Copy, Clone, Debug, PartialEq, Eq, Structural)]
pub enum TrapCause {
    UserEnvCall,
    StoreFault,
    StorePageFault,
    InstructionFault,
    InstructionPageFault,
    LoadFault,
    LoadPageFault,
    IllegalInstruction,
    SupervisorTimer,
    /// Any other cause; the kernel does not handle it.
    Unsupported,
}

/// What is left to do after a trap was handled.
#[derive(Copy, Clone, Debug, PartialEq, Eq, Structural)]
pub enum TrapAction {
    /// The task asks for the system call with this number, if there is
    /// one, with these three arguments. Its result then goes to
    /// `finish_syscall`.
    Call { number: u64, call: Option<Syscall>, arg0: u64, arg1: u64, arg2: u64 },
    /// The task was ended with this exit code; the processor switches.
    Killed { exit_code: i32, switch: Switch },
    /// The next timer interrupt is to be set for the tick `next`; the
    /// processor switches.
    Preempted { next: u64, switch: Switch },
}

impl TrapCause {
    /// Whether the cause is a fault in reaching memory.
    pub open spec fn is_memory_fault(self) -> bool {
        self == TrapCause::StoreFault || self == TrapCause::StorePageFault || self == TrapCause::InstructionFault
            || self == TrapCause::InstructionPageFault || self == TrapCause::LoadFault || self
            == TrapCause::LoadPageFault
    }

    /// The exit code with which a task is ended for this cause, if it is:
    /// -2 for a fault in reaching memory, -3 for an instruction that is none.
    pub open spec fn exit_code(self) -> Option<i32> {
        if self.is_memory_fault() {
            Some(-2i32)
        } else if self == TrapCause::IllegalInstruction {
            Some(-3i32)
        } else {
            None
        }
    }
}

impl TrapCause {
    /// Whether a task is ended for this cause.
    pub fn is_fault(self) -> (r: bool)
        ensures
            r == self.exit_code().is_some(),
    {
        match self {
            TrapCause::StoreFault
            | TrapCause::StorePageFault
            | TrapCause::InstructionFault
            | TrapCause::InstructionPageFault
            | TrapCause::LoadFault
            | TrapCause::LoadPageFault
            | TrapCause::IllegalInstruction => true,
            _ => false,
        }
    }
}

impl<D: BlockDevice> Kernel<D> {
    /// The page that holds the trap context of the running task.
    pub open spec fn trap_page(&self) -> u64 {
        self.tasks.tasks@[self.cur()].inner.trap_cx_ppn.0
    }

    /// The trap context of the running task.
    pub open spec fn trap_cx(&self) -> TrapContextView {
        trap_cx_at(self.pool.mem()[self.trap_page()])
    }

    /// Whether the running task can be ended: it is not the first task,
    /// its address space is in order, and its children are in the table.
    pub open spec fn can_exit(&self) -> bool {
        &&& self.processor.current.unwrap() != self.initproc
        &&& self.tasks.tasks@[self.cur()].inner.memory_set.wf(&self.pool)
        &&& forall|k: int|
            0 <= k < self.tasks.tasks@[self.cur()].inner.children@.len() ==> {
                let c = #[trigger] self.tasks.tasks@[self.cur()].inner.children@[k];
                self.tasks.has(c) && c != self.initproc && c != self.processor.current.unwrap()
            }
    }
}

/// The running task asks for a system call: it goes on behind the
/// instruction that asked, and number and arguments are handed out.
pub fn begin_syscall<D: BlockDevice>(kernel: &mut Kernel<D>) -> (r: TrapAction)
    requires
        old(kernel).wf(),
        old(kernel).running(),
        old(kernel).pool.wf(),
        old(kernel).pool.memory.has(old(kernel).trap_page()),
        old(kernel).trap_cx().sepc <= u64::MAX - 4,
    ensures
        final(kernel).wf(),
        final(kernel).pipes == old(kernel).pipes,
        final(kernel).files == old(kernel).files,
        final(kernel).fs == old(kernel).fs,
        final(kernel).kernel_space == old(kernel).kernel_space,
        final(kernel).pid_allocator == old(kernel).pid_allocator,
        final(kernel).pool.wf(),
        old(kernel).mem_ok() ==> final(kernel).mem_ok(),
        old(kernel).family_ok() ==> final(kernel).family_ok(),
        old(kernel).mem_ok() && old(kernel).stacks_ok() ==> final(kernel).stacks_ok(),
        r == (TrapAction::Call {
            number: old(kernel).trap_cx().x[17],
            call: syscall_of(old(kernel).trap_cx().x[17] as usize),
            arg0: old(kernel).trap_cx().x[10],
            arg1: old(kernel).trap_cx().x[11],
            arg2: old(kernel).trap_cx().x[12],
        }),
        final(kernel).trap_cx() == (TrapContextView {
            sepc: (old(kernel).trap_cx().sepc + 4) as u64,
            ..old(kernel).trap_cx()
        }),
        final(kernel).tasks == old(kernel).tasks,
        final(kernel).processor == old(kernel).processor,
        final(kernel).manager == old(kernel).manager,
        forall|p: u64| p != old(kernel).trap_page() ==> #[trigger] final(kernel).pool.mem()[p] == old(kernel).pool.mem()[p],
{
    let i = kernel.current_index();
    let ppn = kernel.tasks.tasks[i].inner.trap_cx_ppn.0;
    let mut cx = TrapContext::load(&kernel.pool, ppn);
    cx.sepc += 4;
    cx.store(&mut kernel.pool, ppn);
    proof {
        kernel.pool.memory.lemma_view();
        lemma_trap_page_stored(old(kernel), kernel);
        crate::kernel::lemma_family_same(old(kernel), kernel);
    }
    let number = cx.x[17];
    TrapAction::Call { number, call: syscall(number as usize), arg0: cx.x[10], arg1: cx.x[11], arg2: cx.x[12] }
}

/// Handles a trap from the running task, where the clock shows `time`
/// ticks. A system call is handed out with its number and arguments, and
/// the task goes on behind the instruction that asked for it; a task that
/// reached memory it may not reach, or ran what is no instruction, is
/// ended; at a timer interrupt the task gives up the processor.
pub fn trap_handler<D: BlockDevice>(kernel: &mut Kernel<D>, cause: TrapCause, time: u64) -> (r: TrapAction)
    requires
        old(kernel).wf(),
        old(kernel).running(),
        old(kernel).pool.wf(),
        cause != TrapCause::Unsupported,
        cause == TrapCause::UserEnvCall ==> old(kernel).pool.memory.has(old(kernel).trap_page()) && old(kernel).trap_cx().sepc <= u64::MAX - 4,
        cause.exit_code().is_some() ==> old(kernel).can_exit(),
    ensures
        final(kernel).wf(),
        final(kernel).pipes == old(kernel).pipes,
        final(kernel).files == old(kernel).files,
        final(kernel).fs == old(kernel).fs,
        final(kernel).pool.wf(),
        old(kernel).mem_ok() ==> final(kernel).mem_ok(),
        old(kernel).family_ok() ==> final(kernel).family_ok(),
        old(kernel).mem_ok() && old(kernel).stacks_ok() ==> final(kernel).stacks_ok(),
        cause == TrapCause::UserEnvCall ==> {
            let cx = old(kernel).trap_cx();
            &&& r == (TrapAction::Call {
                number: cx.x[17],
                call: syscall_of(cx.x[17] as usize),
                arg0: cx.x[10],
                arg1: cx.x[11],
                arg2: cx.x[12],
            })
            &&& final(kernel).trap_cx() == (TrapContextView { sepc: (cx.sepc + 4) as u64, ..cx })
            &&& final(kernel).tasks == old(kernel).tasks
            &&& final(kernel).processor == old(kernel).processor
            &&& final(kernel).manager == old(kernel).manager
            &&& forall|p: u64| p != old(kernel).trap_page() ==> #[trigger] final(kernel).pool.mem()[p] == old(kernel).pool.mem()[p]
        },
        cause.exit_code().is_some() ==> {
            let i = old(kernel).cur();
            &&& r == (TrapAction::Killed {
                exit_code: cause.exit_code().unwrap(),
                switch: Switch { from: ContextSlot::Unused, to: ContextSlot::Idle },
            })
            &&& final(kernel).processor.current.is_none()
            &&& final(kernel).manager == old(kernel).manager
            &&& final(kernel).tasks.tasks@[i]@ == (TaskView {
                status: TaskStatus::Zombie,
                exit_code: cause.exit_code().unwrap(),
                children: Seq::<usize>::empty(),
                ..old(kernel).tasks.tasks@[i]@
            })
        },
        cause == TrapCause::SupervisorTimer ==> {
            let i = old(kernel).cur();
            &&& r == (TrapAction::Preempted {
                next: ((time + 125000) % 0x1_0000_0000_0000_0000) as u64,
                switch: Switch { from: ContextSlot::Task(old(kernel).processor.current.unwrap()), to: ContextSlot::Idle },
            })
            &&& final(kernel).processor.current.is_none()
            &&& final(kernel).manager@ == old(kernel).manager@.push(old(kernel).processor.current.unwrap())
            &&& final(kernel).tasks.tasks@[i]@ == (TaskView { status: TaskStatus::Ready, ..old(kernel).tasks.tasks@[i]@ })
            &&& final(kernel).pool == old(kernel).pool
        },
{
    match cause {
        TrapCause::UserEnvCall => begin_syscall(kernel),
        TrapCause::StoreFault
        | TrapCause::StorePageFault
        | TrapCause::InstructionFault
        | TrapCause::InstructionPageFault
        | TrapCause::LoadFault
        | TrapCause::LoadPageFault => {
            let switch = sys_exit(kernel, -2);
            TrapAction::Killed { exit_code: -2, switch }
        },
        TrapCause::IllegalInstruction => {
            let switch = sys_exit(kernel, -3);
            TrapAction::Killed { exit_code: -3, switch }
        },
        _ => {
            let next = set_next_trigger(time);
            let (switch, _) = sys_yield(kernel);
            TrapAction::Preempted { next, switch }
        },
    }
}

/// Hands the result `result` of a system call to the running task: it
/// finds it in register 10 when it goes on.
pub fn finish_syscall<D: BlockDevice>(kernel: &mut Kernel<D>, result: isize)
    requires
        old(kernel).wf(),
        old(kernel).running(),
        old(kernel).pool.wf(),
        old(kernel).pool.memory.has(old(kernel).trap_page()),
    ensures
        final(kernel).wf(),
        final(kernel).pipes == old(kernel).pipes,
        final(kernel).files == old(kernel).files,
        final(kernel).fs == old(kernel).fs,
        final(kernel).kernel_space == old(kernel).kernel_space,
        final(kernel).pid_allocator == old(kernel).pid_allocator,
        final(kernel).pool.wf(),
        old(kernel).mem_ok() ==> final(kernel).mem_ok(),
        old(kernel).family_ok() ==> final(kernel).family_ok(),
        old(kernel).mem_ok() && old(kernel).stacks_ok() ==> final(kernel).stacks_ok(),
        final(kernel).tasks == old(kernel).tasks,
        final(kernel).processor == old(kernel).processor,
        final(kernel).manager == old(kernel).manager,
        final(kernel).trap_cx() == (TrapContextView {
            x: old(kernel).trap_cx().x.update(10, result as u64),
            ..old(kernel).trap_cx()
        }),
        forall|p: u64| p != old(kernel).trap_page() ==> #[trigger] final(kernel).pool.mem()[p] == old(kernel).pool.mem()[p],
{
    let i = kernel.current_index();
    let ppn = kernel.tasks.tasks[i].inner.trap_cx_ppn;
    set_return_value(&mut kernel.pool, ppn, result as u64);
    proof {
        lemma_trap_page_stored(old(kernel), kernel);
        crate::kernel::lemma_family_same(old(kernel), kernel);
    }
}

/// The memory stays in order where only the page of the trap context of
/// the running task changes.
pub proof fn lemma_trap_page_stored<D: BlockDevice>(before: &Kernel<D>, after: &Kernel<D>)
    requires
        before.wf(),
        before.running(),
        after.env == before.env,
        after.kernel_space == before.kernel_space,
        after.pid_allocator == before.pid_allocator,
        after.tasks == before.tasks,
        after.pool.wf(),
        after.pool.allocator == before.pool.allocator,
        after.pool.memory.base() == before.pool.memory.base(),
        after.pool.memory.count() == before.pool.memory.count(),
        forall|p: u64| p != before.trap_page() ==> #[trigger] after.pool.mem()[p] == before.pool.mem()[p],
    ensures
        before.mem_ok() ==> after.mem_ok(),
        before.mem_ok() && before.stacks_ok() ==> after.stacks_ok(),
{
    reveal(Kernel::mem_ok);
    reveal(Kernel::stacks_ok);
    if before.mem_ok() {
        let i = before.cur();
        let t = before.tasks.tasks@[i];
        assert(before.space_ok(i));
        t.inner.memory_set.lemma_task_space_facts(&before.pool, before.env.strampoline.0, t.inner.trap_cx_ppn.0);
        crate::kernel::lemma_mem_after_store(before, after, i);
        if before.stacks_ok() {
            crate::kernel_stacks::lemma_stacks_kept(before, after);
        }
    }
}

} // verus!
