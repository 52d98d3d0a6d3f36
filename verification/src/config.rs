//! Layout constants of the machine and of every address space.

use vstd::prelude::*;

verus! {

/// Number of bits of the offset inside a page.
pub const PAGE_SIZE_BITS: u64 = 12;

/// Size of a page in bytes.
pub const PAGE_SIZE: u64 = 4096;

/// Number of machine words in a page.
pub const PAGE_WORDS: u64 = 512;

/// Width of a physical page number in bits.
pub const PPN_WIDTH: u64 = 44;

/// Width of a virtual page number in bits: three indices of nine bits.
pub const VPN_WIDTH: u64 = 27;

/// Size of the stack that every application gets in its own address space.
pub const USER_STACK_SIZE: u64 = 8192;

/// Size of the kernel stack that every application gets in the kernel's
/// address space.
pub const KERNEL_STACK_SIZE: u64 = 8192;

/// Virtual address of the trampoline page, the last page of every address
/// space.
pub const TRAMPOLINE: u64 = 0x7f_ffff_f000;

/// Virtual address of the page that holds a task's trap context, directly
/// below the trampoline.
pub const TRAP_CONTEXT: u64 = 0x7f_ffff_e000;

/// Bottom and top of the kernel stack of application `app_id` in the kernel's
/// address space. The stacks lie below the trampoline, each followed by one
/// unmapped guard page.
pub fn kernel_stack_position(app_id: u64) -> (r: (u64, u64))
    requires
        app_id < 0x10000,
    ensures
        r.1 == TRAMPOLINE - app_id * (KERNEL_STACK_SIZE + PAGE_SIZE),
        r.0 == r.1 - KERNEL_STACK_SIZE,
        r.0 % 4096 == 0,
        r.1 % 4096 == 0,
{
    let top: u64 = TRAMPOLINE - app_id * (KERNEL_STACK_SIZE + PAGE_SIZE);
    let bottom: u64 = top - KERNEL_STACK_SIZE;
    (bottom, top)
}

} // verus!

verus! {

/// What the machine and the kernel image fix and the library cannot know by
/// itself.
#[derive(Clone, Copy, Debug)]
pub struct Machine {
    /// The physical page of the trampoline code.
    pub trampoline: crate::mm::address::PhysPageNum,
    /// The address of the routine that handles traps from user mode.
    pub trap_handler: u64,
    /// The address of the routine that returns to user mode.
    pub trap_return: u64,
    /// The status word of the machine.
    pub sstatus: u64,
}

/// The largest number of applications whose kernel stacks fit below the
/// trampoline.
pub const MAX_APP_NUM: usize = 0x10000;

} // verus!
