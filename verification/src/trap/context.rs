use vstd::prelude::*;
use crate::codec::{le_u64, lemma_words64_stored, splice, words64_at, words64_bytes};
use crate::mm::frame_allocator::FramePool;

verus! {

/// Size in bytes of a trap context in memory: 37 numbers of 8 bytes.
pub const TRAP_CONTEXT_SIZE: usize = 296;

/// The state of a task that entered the kernel: the 32 registers, the
/// status register, the address at which the task goes on, and, for the
/// way into the kernel, the token of the kernel's address space, the top of
/// the task's kernel stack and the address of the trap handler.
pub struct TrapContext {
    pub x: [u64; 32],
    pub sstatus: u64,
    pub sepc: u64,
    pub kernel_satp: u64,
    pub kernel_sp: u64,
    pub trap_handler: u64,
}

/// A trap context as a value.
pub struct TrapContextView {
    pub x: Seq<u64>,
    pub sstatus: u64,
    pub sepc: u64,
    pub kernel_satp: u64,
    pub kernel_sp: u64,
    pub trap_handler: u64,
}

impl View for TrapContext {
    type V = TrapContextView;

    open spec fn view(&self) -> TrapContextView {
        TrapContextView {
            x: self.x@,
            sstatus: self.sstatus,
            sepc: self.sepc,
            kernel_satp: self.kernel_satp,
            kernel_sp: self.kernel_sp,
            trap_handler: self.trap_handler,
        }
    }
}

/// The status register with the bit cleared that tells the mode to return
/// to: the return is to user mode.
pub open spec fn user_status(sstatus: u64) -> u64 {
    sstatus & !0x100u64
}

impl TrapContextView {
    /// The 37 numbers of the trap context, in the order in which they are stored.
    pub open spec fn words(self) -> Seq<u64> {
        self.x + seq![self.sstatus, self.sepc, self.kernel_satp, self.kernel_sp, self.trap_handler]
    }

    /// The trap context with which a program begins: every register is
    /// zero but the stack pointer.
    pub open spec fn initial(
        entry: u64,
        sp: u64,
        kernel_satp: u64,
        kernel_sp: u64,
        trap_handler: u64,
        sstatus: u64,
    ) -> TrapContextView {
        TrapContextView {
            x: Seq::new(
                32,
                |i: int|
                    if i == 2 {
                        sp
                    } else {
                        0u64
                    },
            ),
            sstatus: user_status(sstatus),
            sepc: entry,
            kernel_satp,
            kernel_sp,
            trap_handler,
        }
    }
}

/// The trap context made of the 37 numbers `ws`.
pub open spec fn trap_cx_of(ws: Seq<u64>) -> TrapContextView {
    TrapContextView {
        x: ws.subrange(0, 32),
        sstatus: ws[32],
        sepc: ws[33],
        kernel_satp: ws[34],
        kernel_sp: ws[35],
        trap_handler: ws[36],
    }
}

/// The trap context stored at the beginning of the page `page`.
pub open spec fn trap_cx_at(page: Seq<u8>) -> TrapContextView {
    trap_cx_of(words64_at(page, 0, 37))
}

/// The page `page` with the trap context `cx` stored at its beginning.
pub open spec fn with_trap_cx(page: Seq<u8>, cx: TrapContextView) -> Seq<u8> {
    splice(page, 0, words64_bytes(cx.words()))
}

/// A trap context is made of its numbers.
pub proof fn lemma_trap_cx_words(cx: TrapContextView)
    requires
        cx.x.len() == 32,
    ensures
        cx.words().len() == 37,
        trap_cx_of(cx.words()) == cx,
{
    assert(cx.words().subrange(0, 32) =~= cx.x);
}

/// A trap context that was stored is the trap context that is read back.
pub proof fn lemma_trap_cx_stored(page: Seq<u8>, cx: TrapContextView)
    requires
        page.len() == 4096,
        cx.x.len() == 32,
    ensures
        trap_cx_at(with_trap_cx(page, cx)) == cx,
        with_trap_cx(page, cx).len() == 4096,
{
    lemma_trap_cx_words(cx);
    lemma_words64_stored(page, 0, cx.words());
}

impl TrapContext {
    /// Sets the stack pointer: register 2.
    pub fn set_sp(&mut self, sp: u64)
        ensures
            final(self)@ == (TrapContextView { x: old(self)@.x.update(2, sp), ..old(self)@ }),
    {
        self.x[2] = sp;
    }

    /// The trap context with which a program begins at `entry` with its
    /// stack at `sp`. `sstatus` is the status register as it stands; the
    /// task returns to user mode.
    pub fn app_init_context(
        entry: u64,
        sp: u64,
        kernel_satp: u64,
        kernel_sp: u64,
        trap_handler: u64,
        sstatus: u64,
    ) -> (cx: Self)
        ensures
            cx@ == TrapContextView::initial(entry, sp, kernel_satp, kernel_sp, trap_handler, sstatus),
    {
        let mut cx = Self {
            x: [0u64; 32],
            sstatus: sstatus & !0x100u64,
            sepc: entry,
            kernel_satp,
            kernel_sp,
            trap_handler,
        };
        cx.set_sp(sp);
        assert(cx@.x =~= TrapContextView::initial(entry, sp, kernel_satp, kernel_sp, trap_handler, sstatus).x);
        cx
    }

    /// The 37 numbers of the trap context, in the order in which they are stored.
    pub fn to_words(&self) -> (r: Vec<u64>)
        ensures
            r@ == self@.words(),
    {
        let mut r: Vec<u64> = Vec::new();
        let mut i: usize = 0;
        while i < 32
            invariant
                i <= 32,
                r@.len() == i,
                forall|k: int| 0 <= k < i ==> r@[k] == self.x@[k],
            decreases 32 - i,
        {
            r.push(self.x[i]);
            i += 1;
        }
        r.push(self.sstatus);
        r.push(self.sepc);
        r.push(self.kernel_satp);
        r.push(self.kernel_sp);
        r.push(self.trap_handler);
        assert(r@ =~= self@.words());
        r
    }

    /// Reads the trap context stored at the beginning of page `ppn`.
    pub fn load(pool: &FramePool, ppn: u64) -> (cx: Self)
        requires
            pool.memory.wf(),
            pool.memory.has(ppn),
        ensures
            cx@ == trap_cx_at(pool.mem()[ppn]),
    {
        let mut x = [0u64; 32];
        let mut i: usize = 0;
        while i < 32
            invariant
                i <= 32,
                pool.memory.wf(),
                pool.memory.has(ppn),
                forall|k: int| 0 <= k < i ==> x@[k] == le_u64(pool.mem()[ppn], 8 * k),
            decreases 32 - i,
        {
            x[i] = pool.memory.read_u64(ppn, 8 * i);
            i += 1;
        }
        let cx = Self {
            x,
            sstatus: pool.memory.read_u64(ppn, 256),
            sepc: pool.memory.read_u64(ppn, 264),
            kernel_satp: pool.memory.read_u64(ppn, 272),
            kernel_sp: pool.memory.read_u64(ppn, 280),
            trap_handler: pool.memory.read_u64(ppn, 288),
        };
        proof {
            let ws = words64_at(pool.mem()[ppn], 0, 37);
            assert(cx@.x =~= ws.subrange(0, 32));
            assert(ws[32] == le_u64(pool.mem()[ppn], 256));
            assert(ws[33] == le_u64(pool.mem()[ppn], 264));
            assert(ws[34] == le_u64(pool.mem()[ppn], 272));
            assert(ws[35] == le_u64(pool.mem()[ppn], 280));
            assert(ws[36] == le_u64(pool.mem()[ppn], 288));
        }
        cx
    }

    /// Stores the trap context at the beginning of page `ppn`.
    pub fn store(&self, pool: &mut FramePool, ppn: u64)
        requires
            old(pool).wf(),
            old(pool).memory.has(ppn),
        ensures
            final(pool).wf(),
            final(pool).allocator == old(pool).allocator,
            final(pool).memory.base() == old(pool).memory.base(),
            final(pool).memory.count() == old(pool).memory.count(),
            final(pool).mem() == old(pool).mem().insert(ppn, with_trap_cx(old(pool).mem()[ppn], self@)),
            trap_cx_at(final(pool).mem()[ppn]) == self@,
    {
        proof {
            pool.memory.lemma_view();
            lemma_trap_cx_stored(pool.mem()[ppn], self@);
        }
        let words = self.to_words();
        let bytes = crate::codec::words64_to_bytes(words.as_slice());
        pool.memory.write_bytes(ppn, 0, bytes.as_slice());
    }
}

} // verus!
