//! The saved register state of a thread.
use vstd::prelude::*;

verus! {

/// The saved state of a thread: the general registers x1..x31, the program
/// counter, and how the thread is to be entered.
#[derive(Clone, Copy)]
pub struct LocalContext {
    /// Scratch word used while switching.
    pub sctx: usize,
    /// Registers x1..x31; `x[n - 1]` holds xn.
    pub x: [usize; 31],
    /// Program counter to resume at.
    pub sepc: usize,
    /// Whether the thread runs in supervisor mode.
    pub supervisor: bool,
    /// Whether interrupts are on while the thread runs.
    pub interrupt: bool,
}

impl LocalContext {
    /// A context with every register zero, entered in user mode with
    /// interrupts off.
    pub fn empty() -> (r: Self)
        ensures
            r.sctx == 0,
            forall|i: int| 0 <= i < 31 ==> #[trigger] r.x[i] == 0,
            !r.supervisor,
            !r.interrupt,
            r.sepc == 0,
    {
        LocalContext { sctx: 0, x: [0usize; 31], supervisor: false, interrupt: false, sepc: 0 }
    }

    /// A user context that starts at `pc`, with interrupts on.
    pub fn user(pc: usize) -> (r: Self)
        ensures
            r.sctx == 0,
            forall|i: int| 0 <= i < 31 ==> #[trigger] r.x[i] == 0,
            !r.supervisor,
            r.interrupt,
            r.sepc == pc,
    {
        LocalContext { sctx: 0, x: [0usize; 31], supervisor: false, interrupt: true, sepc: pc }
    }

    /// A supervisor-mode context that starts at `pc`.
    pub fn thread(pc: usize, interrupt: bool) -> (r: Self)
        ensures
            r.sctx == 0,
            forall|i: int| 0 <= i < 31 ==> #[trigger] r.x[i] == 0,
            r.supervisor,
            r.interrupt == interrupt,
            r.sepc == pc,
    {
        LocalContext { sctx: 0, x: [0usize; 31], supervisor: true, interrupt, sepc: pc }
    }

    /// Register xn.
    pub fn x(&self, n: usize) -> (r: usize)
        requires
            1 <= n <= 31,
        ensures
            r == self.x[n - 1],
    {
        self.x[n - 1]
    }

    /// Register xn, to change it.
    pub fn x_mut(&mut self, n: usize) -> (r: &mut usize)
        requires
            1 <= n <= 31,
        ensures
            *r == old(self).x[n - 1],
            final(self).x@ == old(self).x@.update(n - 1, *final(r)),
            final(self).sctx == old(self).sctx,
            final(self).sepc == old(self).sepc,
            final(self).supervisor == old(self).supervisor,
            final(self).interrupt == old(self).interrupt,
    {
        &mut self.x[n - 1]
    }

    /// Argument register an, that is x(n + 10).
    pub fn a(&self, n: usize) -> (r: usize)
        requires
            n <= 21,
        ensures
            r == self.x[n + 9],
    {
        self.x(n + 10)
    }

    /// Argument register an, to change it.
    pub fn a_mut(&mut self, n: usize) -> (r: &mut usize)
        requires
            n <= 21,
        ensures
            *r == old(self).x[n + 9],
            final(self).x@ == old(self).x@.update(n + 9, *final(r)),
            final(self).sctx == old(self).sctx,
            final(self).sepc == old(self).sepc,
            final(self).supervisor == old(self).supervisor,
            final(self).interrupt == old(self).interrupt,
    {
        self.x_mut(n + 10)
    }

    /// Return address register x1.
    pub fn ra(&self) -> (r: usize)
        ensures
            r == self.x[0],
    {
        self.x(1)
    }

    /// Stack pointer register x2.
    pub fn sp(&self) -> (r: usize)
        ensures
            r == self.x[1],
    {
        self.x(2)
    }

    /// Stack pointer register x2, to change it.
    pub fn sp_mut(&mut self) -> (r: &mut usize)
        ensures
            *r == old(self).x[1],
            final(self).x@ == old(self).x@.update(1, *final(r)),
            final(self).sctx == old(self).sctx,
            final(self).sepc == old(self).sepc,
            final(self).supervisor == old(self).supervisor,
            final(self).interrupt == old(self).interrupt,
    {
        self.x_mut(2)
    }

    /// The program counter.
    pub fn pc(&self) -> (r: usize)
        ensures
            r == self.sepc,
    {
        self.sepc
    }

    /// The program counter, to change it.
    pub fn pc_mut(&mut self) -> (r: &mut usize)
        ensures
            *r == old(self).sepc,
            final(self).sepc == *final(r),
            final(self).x == old(self).x,
            final(self).sctx == old(self).sctx,
            final(self).supervisor == old(self).supervisor,
            final(self).interrupt == old(self).interrupt,
    {
        &mut self.sepc
    }

    /// Moves the program counter past the current (uncompressed, 4-byte)
    /// instruction, wrapping around at the top of the address space.
    pub fn move_next(&mut self)
        ensures
            final(self).sepc == if old(self).sepc + 4 > usize::MAX {
                old(self).sepc + 4 - (usize::MAX + 1)
            } else {
                old(self).sepc + 4
            },
            final(self).x == old(self).x,
            final(self).sctx == old(self).sctx,
            final(self).supervisor == old(self).supervisor,
            final(self).interrupt == old(self).interrupt,
    {
        self.sepc = self.sepc.wrapping_add(4);
    }
}

} // verus!
