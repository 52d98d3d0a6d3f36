//! The part of a task's state that a cooperative switch saves and
//! restores.

use vstd::prelude::*;

verus! {

/// The registers that a switch between tasks saves: the return address,
/// the stack pointer and the twelve callee-saved registers.
#[derive(Clone, Copy, Debug)]
pub struct TaskContext {
    ra: u64,
    sp: u64,
    s: [u64; 12],
}

impl TaskContext {
    /// The saved return address.
    pub closed spec fn spec_ra(&self) -> u64 {
        self.ra
    }

    /// The saved stack pointer.
    pub closed spec fn spec_sp(&self) -> u64 {
        self.sp
    }

    /// The saved callee-saved registers.
    pub closed spec fn spec_s(&self) -> Seq<u64> {
        self.s@
    }

    /// The saved callee-saved registers are all zero.
    pub open spec fn registers_clear(&self) -> bool {
        &&& self.spec_s().len() == 12
        &&& forall|i: int| 0 <= i < 12 ==> self.spec_s()[i] == 0
    }

    /// The context of a task that has never run: its first restore lands in
    /// the routine at `trap_return`, on the kernel stack whose top is
    /// `kstack_ptr`, with the callee-saved registers zero.
    pub fn goto_trap_return(kstack_ptr: u64, trap_return: u64) -> (cx: Self)
        ensures
            cx.spec_ra() == trap_return,
            cx.spec_sp() == kstack_ptr,
            cx.registers_clear(),
    {
        TaskContext { ra: trap_return, sp: kstack_ptr, s: [0;12] }
    }

    /// The saved return address.
    #[verifier::when_used_as_spec(spec_ra)]
    pub fn ra(&self) -> (r: u64)
        ensures
            r == self.spec_ra(),
    {
        self.ra
    }

    /// The saved stack pointer.
    #[verifier::when_used_as_spec(spec_sp)]
    pub fn sp(&self) -> (r: u64)
        ensures
            r == self.spec_sp(),
    {
        self.sp
    }

    /// The saved callee-saved register `i`.
    pub fn saved(&self, i: usize) -> (r: u64)
        requires
            i < 12,
        ensures
            r == self.spec_s()[i as int],
    {
        self.s[i]
    }
}

} // verus!
