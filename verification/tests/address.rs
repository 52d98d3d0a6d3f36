use kernel_core::config::{kernel_stack_position, TRAMPOLINE, TRAP_CONTEXT};
use kernel_core::mm::address::{PhysAddr, PhysPageNum, VirtAddr, VirtPageNum};

#[test]
fn addresses_are_cut_to_their_width() {
    assert_eq!(PhysAddr::new(u64::MAX), PhysAddr(0xff_ffff_ffff_ffff));
    assert_eq!(VirtAddr::new(u64::MAX), VirtAddr(0x7f_ffff_ffff));
    assert_eq!(PhysPageNum::new(u64::MAX), PhysPageNum(0xfff_ffff_ffff));
    assert_eq!(VirtPageNum::new(u64::MAX), VirtPageNum(0x7ff_ffff));
    assert_eq!(VirtAddr::new(0x1234), VirtAddr(0x1234));
}

#[test]
fn floor_and_ceil_find_the_pages() {
    assert_eq!(VirtAddr(0x1000).floor(), VirtPageNum(1));
    assert_eq!(VirtAddr(0x1fff).floor(), VirtPageNum(1));
    assert_eq!(VirtAddr(0x1000).ceil(), VirtPageNum(1));
    assert_eq!(VirtAddr(0x1001).ceil(), VirtPageNum(2));
    assert_eq!(VirtAddr(0).ceil(), VirtPageNum(0));
    assert_eq!(PhysAddr(0x8020_3fff).page(), PhysPageNum(0x80203));
    assert_eq!(PhysAddr(0x8020_3fff).floor(), PhysPageNum(0x80203));
    assert_eq!(PhysAddr(0x8020_3001).ceil(), PhysPageNum(0x80204));
    assert_eq!(PhysAddr(u64::MAX).ceil(), PhysPageNum(0x10_0000_0000_0000));
}

#[test]
fn offsets_and_alignment() {
    assert_eq!(VirtAddr(0x1234).page_offset(), 0x234);
    assert!(VirtAddr(0x2000).aligned());
    assert!(!VirtAddr(0x2001).aligned());
    assert_eq!(PhysAddr(0x1234).page_offset(), 0x234);
    assert!(PhysAddr(0).aligned());
    assert_eq!(VirtAddr(5).min(VirtAddr(7)), VirtAddr(5));
    assert_eq!(VirtAddr(9).min(VirtAddr(7)), VirtAddr(7));
}

#[test]
fn pages_start_at_their_first_address() {
    assert_eq!(VirtPageNum(3).start_addr(), VirtAddr(0x3000));
    assert_eq!(PhysPageNum(0x80200).start_addr(), PhysAddr(0x8020_0000));
    let mut vpn = VirtPageNum(7);
    vpn.step();
    assert_eq!(vpn, VirtPageNum(8));
}

#[test]
fn kernel_stacks_lie_below_the_trampoline() {
    assert_eq!(TRAP_CONTEXT + 4096, TRAMPOLINE);
    assert_eq!(kernel_stack_position(0), (TRAMPOLINE - 8192, TRAMPOLINE));
    assert_eq!(kernel_stack_position(1), (TRAMPOLINE - 12288 - 8192, TRAMPOLINE - 12288));
    assert_eq!(kernel_stack_position(3), (TRAMPOLINE - 3 * 12288 - 8192, TRAMPOLINE - 3 * 12288));
}
