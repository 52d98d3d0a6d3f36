use kernel_core::mm::address::PhysPageNum;
use kernel_core::mm::memory::PhysMemory;
use kernel_core::task::context::TaskContext;
use kernel_core::trap::context::{TrapContext, SSTATUS_USER_BITS, TRAP_CONTEXT_WORDS};

#[test]
fn first_context_of_an_application() {
    let cx = TrapContext::app_init_context(0x10000, 0x1_7000, 0x8000_0000_0000_0123, 0x7f_ffff_f000, 0x8020_0040, 0);
    let mut x = [0u64; 32];
    x[2] = 0x1_7000;
    assert_eq!(cx.x, x);
    assert_eq!(cx.sepc, 0x10000);
    assert_eq!(cx.kernel_satp, 0x8000_0000_0000_0123);
    assert_eq!(cx.kernel_sp, 0x7f_ffff_f000);
    assert_eq!(cx.trap_handler, 0x8020_0040);
    assert_eq!(cx.sstatus, 0);
}

#[test]
fn previous_privilege_is_set_to_user_mode() {
    let with = |bits: u64| TrapContext::app_init_context(0, 0, 0, 0, 0, bits).sstatus;
    // bit 8 says supervisor; it is cleared
    assert_eq!(with(0x100), 0);
    assert_eq!(with(0x122), 0x22);
    // the fields of the register stay, and nothing else
    assert_eq!(with(u64::MAX), 0x8000_0003_000d_e662);
    assert_eq!(with(u64::MAX), SSTATUS_USER_BITS);
    assert_eq!(with(0x8000_0000_0000_6122), 0x8000_0000_0000_6022);
    assert_eq!(with(0x1), 0);
    assert_eq!(with(0x2), 0x2);
}

#[test]
fn call_is_taken_out_of_the_registers() {
    let mut cx = TrapContext::app_init_context(0x10000, 0, 0, 0, 0, 0);
    cx.x[17] = 64;
    cx.x[10] = 1;
    cx.x[11] = 0x2000;
    cx.x[12] = 5;
    cx.x[13] = 77;
    let (id, args) = cx.ecall();
    assert_eq!(id, 64);
    assert_eq!(args, [1, 0x2000, 5]);
    assert_eq!(cx.sepc, 0x10004);
    cx.set_result(5);
    assert_eq!(cx.x[10], 5);
    assert_eq!(cx.x[11], 0x2000);
    assert_eq!(cx.x[17], 64);
    cx.set_result(-1i64 as u64);
    assert_eq!(cx.x[10], u64::MAX);
}

#[test]
fn context_is_kept_in_memory_word_for_word() {
    let mut mem = PhysMemory::new(PhysPageNum(0x10), 2);
    let mut cx = TrapContext::app_init_context(1, 2, 3, 4, 5, 0x20);
    for i in 0..32 {
        cx.x[i] = 100 + i as u64;
    }
    mem.write_word(PhysPageNum(0x10), TRAP_CONTEXT_WORDS, 0xffff);
    cx.store(&mut mem, PhysPageNum(0x10));
    for i in 0..32 {
        assert_eq!(mem.read_word(PhysPageNum(0x10), i), 100 + i as u64);
    }
    assert_eq!(mem.read_word(PhysPageNum(0x10), 32), 0x20);
    assert_eq!(mem.read_word(PhysPageNum(0x10), 33), 1);
    assert_eq!(mem.read_word(PhysPageNum(0x10), 34), 3);
    assert_eq!(mem.read_word(PhysPageNum(0x10), 35), 4);
    assert_eq!(mem.read_word(PhysPageNum(0x10), 36), 5);
    assert_eq!(mem.read_word(PhysPageNum(0x10), 37), 0xffff);
    assert_eq!(mem.read_word(PhysPageNum(0x11), 0), 0);
    let back = TrapContext::load(&mem, PhysPageNum(0x10));
    assert_eq!(back.x, cx.x);
    assert_eq!(
        (back.sstatus, back.sepc, back.kernel_satp, back.kernel_sp, back.trap_handler),
        (0x20, 1, 3, 4, 5)
    );
}

#[test]
fn task_that_has_never_run_returns_to_user_mode_first() {
    let cx = TaskContext::goto_trap_return(0x7f_ffff_d000, 0x8020_0abc);
    assert_eq!(cx.ra(), 0x8020_0abc);
    assert_eq!(cx.sp(), 0x7f_ffff_d000);
    for i in 0..12 {
        assert_eq!(cx.saved(i), 0);
    }
}
