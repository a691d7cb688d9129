//! Saved register state of a trapped context.
use vstd::prelude::*;

verus! {

/// The RISC-V general-purpose registers plus the control state the trap
/// path saves and restores. `regs[2]` is the stack pointer.
#[derive(Clone, Debug)]
pub struct TrapFrame {
    pub regs: [usize; 32],
    pub sstatus: usize,
    pub sepc: usize,
}

impl TrapFrame {
    /// A fresh user context: all registers zero except the stack pointer,
    /// supervisor status clear, and the program counter at `entry`.
    pub fn new_user(entry: usize, stack: usize) -> (r: Self)
        ensures
            r.sepc == entry,
            r.sstatus == 0,
            r.regs@[2] == stack,
            forall|i: int| 0 <= i < 32 && i != 2 ==> r.regs@[i] == 0,
    {
        let mut regs: [usize; 32] = [0; 32];
        regs[2] = stack;
        TrapFrame { regs, sstatus: 0, sepc: entry }
    }
}

} // verus!
