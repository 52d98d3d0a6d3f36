//! The state of a task in user mode, as a trap saves it.

use crate::mm::address::PhysPageNum;
use crate::mm::memory::PhysMemory;
use riscv::register::sstatus::{Sstatus, SPP};
use vstd::prelude::*;

verus! {

/// The number of machine words of a trap context.
pub const TRAP_CONTEXT_WORDS: usize = 37;

/// The bits of the status register that remain when the previous privilege
/// is set to user mode: the fields of the register without bit 8.
pub const SSTATUS_USER_BITS: u64 = 0x8000_0003_000d_e662;

/// The status word `bits` with the previous privilege set to user mode.
///
/// Calls `Sstatus::from_bits`, `Sstatus::set_spp` with `SPP::User` and
/// `Sstatus::bits` of the crate riscv. On a machine with addresses of 64
/// bits the first keeps the bits of the register's fields, which are those
/// of `SSTATUS_USER_BITS` and bit 8, the second clears bit 8 and changes no
/// other bit, and the third returns the bits kept.
#[verifier::external_body]
fn with_user_privilege(bits: u64) -> (r: u64)
    requires
        usize::BITS == 64,
    ensures
        r == bits & SSTATUS_USER_BITS,
{
    let mut status = Sstatus::from_bits(bits as usize);
    status.set_spp(SPP::User);
    status.bits() as u64
}

/// What a trap saves of a task and what it needs to enter the kernel: the
/// 32 general registers, the status word and the program counter of the
/// task, and the token of the kernel's address space, the top of the task's
/// kernel stack and the address of the trap handler.
#[derive(Clone, Copy, Debug)]
pub struct TrapContext {
    pub x: [u64; 32],
    pub sstatus: u64,
    pub sepc: u64,
    pub kernel_satp: u64,
    pub kernel_sp: u64,
    pub trap_handler: u64,
}

impl TrapContext {
    /// The words of the context in the order in which memory holds them.
    pub open spec fn words(&self) -> Seq<u64> {
        self.x@ + seq![
            self.sstatus,
            self.sepc,
            self.kernel_satp,
            self.kernel_sp,
            self.trap_handler,
        ]
    }

    /// The context of an application that is about to run for the first
    /// time: every register zero but the stack pointer, which is `sp`, the
    /// program counter at `entry`, and the status word `sstatus` with the
    /// previous privilege set to user mode.
    pub fn app_init_context(
        entry: u64,
        sp: u64,
        kernel_satp: u64,
        kernel_sp: u64,
        trap_handler: u64,
        sstatus: u64,
    ) -> (cx: Self)
        requires
            usize::BITS == 64,
        ensures
            cx.x@.len() == 32,
            forall|i: int| 0 <= i < 32 ==> cx.x@[i] == if i == 2 {
                sp
            } else {
                0
            },
            cx.sstatus == sstatus & SSTATUS_USER_BITS,
            cx.sepc == entry,
            cx.kernel_satp == kernel_satp,
            cx.kernel_sp == kernel_sp,
            cx.trap_handler == trap_handler,
    {
        let status = with_user_privilege(sstatus);
        let mut cx = TrapContext {
            x: [0;32],
            sstatus: status,
            sepc: entry,
            kernel_satp,
            kernel_sp,
            trap_handler,
        };
        cx.x[2] = sp;
        cx
    }

    /// Takes the call out of the context of a task that has asked for a
    /// system call: the number of the call, from register 17, and its three
    /// arguments, from registers 10 to 12. The program counter moves on
    /// past the instruction that asked.
    pub fn ecall(&mut self) -> (r: (u64, [u64; 3]))
        requires
            old(self).sepc <= u64::MAX - 4,
        ensures
            final(self).sepc == old(self).sepc + 4,
            final(self).x == old(self).x,
            final(self).sstatus == old(self).sstatus,
            final(self).kernel_satp == old(self).kernel_satp,
            final(self).kernel_sp == old(self).kernel_sp,
            final(self).trap_handler == old(self).trap_handler,
            r.0 == old(self).x@[17],
            r.1@ == seq![old(self).x@[10], old(self).x@[11], old(self).x@[12]],
    {
        self.sepc = self.sepc + 4;
        let args: [u64; 3] = [self.x[10], self.x[11], self.x[12]];
        proof {
            assert(args@ =~= seq![self.x@[10], self.x@[11], self.x@[12]]);
        }
        (self.x[17], args)
    }

    /// Puts the result of a system call into register 10.
    pub fn set_result(&mut self, value: u64)
        ensures
            final(self).x@ == old(self).x@.update(10, value),
            final(self).sepc == old(self).sepc,
            final(self).sstatus == old(self).sstatus,
            final(self).kernel_satp == old(self).kernel_satp,
            final(self).kernel_sp == old(self).kernel_sp,
            final(self).trap_handler == old(self).trap_handler,
    {
        self.x[10] = value;
    }

    /// Writes the context to the start of physical page `ppn`.
    pub fn store(&self, mem: &mut PhysMemory, ppn: PhysPageNum)
        requires
            old(mem).wf(),
            old(mem)@.dom().contains(ppn.0 as int),
        ensures
            final(mem).wf(),
            final(mem).spec_base() == old(mem).spec_base(),
            final(mem).spec_end() == old(mem).spec_end(),
            final(mem)@.dom() == old(mem)@.dom(),
            forall|p: int|
                p != ppn.0 && old(mem)@.dom().contains(p) ==> #[trigger] final(mem)@[p] == old(
                    mem,
                )@[p],
            final(mem)@[ppn.0 as int].subrange(0, TRAP_CONTEXT_WORDS as int) == self.words(),
            forall|i: int|
                TRAP_CONTEXT_WORDS <= i < 512 ==> final(mem)@[ppn.0 as int][i] == old(
                    mem,
                )@[ppn.0 as int][i],
    {
        let ghost m0 = mem@;
        let mut i: usize = 0;
        while i < 32
            invariant
                i <= 32,
                mem.wf(),
                mem.spec_base() == old(mem).spec_base(),
                mem.spec_end() == old(mem).spec_end(),
                mem@.dom() == m0.dom(),
                m0.dom().contains(ppn.0 as int),
                self.x@.len() == 32,
                forall|p: int| p != ppn.0 && m0.dom().contains(p) ==> #[trigger] mem@[p] == m0[p],
                forall|k: int| 0 <= k < i ==> mem@[ppn.0 as int][k] == self.x@[k],
                forall|k: int| i <= k < 512 ==> mem@[ppn.0 as int][k] == m0[ppn.0 as int][k],
            decreases 32 - i,
        {
            mem.write_word(ppn, i, self.x[i]);
            i += 1;
        }
        mem.write_word(ppn, 32, self.sstatus);
        mem.write_word(ppn, 33, self.sepc);
        mem.write_word(ppn, 34, self.kernel_satp);
        mem.write_word(ppn, 35, self.kernel_sp);
        mem.write_word(ppn, 36, self.trap_handler);
        proof {
            assert(mem@.dom() =~= m0.dom());
            assert(mem@[ppn.0 as int].subrange(0, TRAP_CONTEXT_WORDS as int) =~= self.words());
        }
    }

    /// Reads the context at the start of physical page `ppn`.
    pub fn load(mem: &PhysMemory, ppn: PhysPageNum) -> (cx: Self)
        requires
            mem.wf(),
            mem@.dom().contains(ppn.0 as int),
        ensures
            cx.words() == mem@[ppn.0 as int].subrange(0, TRAP_CONTEXT_WORDS as int),
    {
        let mut x: [u64; 32] = [0;32];
        let mut i: usize = 0;
        while i < 32
            invariant
                i <= 32,
                mem.wf(),
                mem@.dom().contains(ppn.0 as int),
                x@.len() == 32,
                forall|k: int| 0 <= k < i ==> x@[k] == mem@[ppn.0 as int][k],
            decreases 32 - i,
        {
            x[i] = mem.read_word(ppn, i);
            i += 1;
        }
        let cx = TrapContext {
            x,
            sstatus: mem.read_word(ppn, 32),
            sepc: mem.read_word(ppn, 33),
            kernel_satp: mem.read_word(ppn, 34),
            kernel_sp: mem.read_word(ppn, 35),
            trap_handler: mem.read_word(ppn, 36),
        };
        proof {
            assert(cx.words() =~= mem@[ppn.0 as int].subrange(0, TRAP_CONTEXT_WORDS as int));
        }
        cx
    }
}

} // verus!
