use kernel_core::config::Machine;
use kernel_core::mm::address::{PhysPageNum, VirtPageNum};
use kernel_core::mm::frame_allocator::StackFrameAllocator;
use kernel_core::mm::memory::PhysMemory;
use kernel_core::mm::memory_set::MemorySet;
use kernel_core::mm::page_table::PageTable;
use kernel_core::mm::user::{check_user_range, read_user_bytes, write_user_bytes};
use kernel_core::syscall::{
    sys_exit, sys_get_time, sys_mmap, sys_munmap, sys_write, sys_yield, TimeVal, FD_STDOUT,
    SYSCALL_EXIT, SYSCALL_GET_TIME, SYSCALL_MMAP, SYSCALL_MUNMAP, SYSCALL_SET_PRIORITY,
    SYSCALL_WRITE, SYSCALL_YIELD,
};
use kernel_core::task::manager::{SwitchAction, TaskManager};
use kernel_core::task::task::TaskControlBlock;

const MACHINE: Machine = Machine {
    trampoline: PhysPageNum(0x80201),
    trap_handler: 0x8020_1234,
    trap_return: 0x8020_5678,
    sstatus: 0,
};

struct Kernel {
    allocator: StackFrameAllocator,
    mem: PhysMemory,
    manager: TaskManager,
}

fn put(out: &mut Vec<u8>, at: usize, bytes: &[u8]) {
    out[at..at + bytes.len()].copy_from_slice(bytes);
}

/// An image with one segment of two pages at 0x10000 that begins with
/// `bytes`.
fn image(bytes: &[u8]) -> Vec<u8> {
    let mut out = vec![0u8; 64 + 56];
    put(&mut out, 0, &[0x7f, 0x45, 0x4c, 0x46, 2, 1, 1, 0]);
    put(&mut out, 24, &0x10000u64.to_le_bytes());
    put(&mut out, 32, &64u64.to_le_bytes());
    put(&mut out, 54, &56u16.to_le_bytes());
    put(&mut out, 56, &1u16.to_le_bytes());
    put(&mut out, 64, &1u32.to_le_bytes());
    put(&mut out, 68, &6u32.to_le_bytes());
    put(&mut out, 72, &120u64.to_le_bytes());
    put(&mut out, 80, &0x10000u64.to_le_bytes());
    put(&mut out, 96, &(bytes.len() as u64).to_le_bytes());
    put(&mut out, 104, &8192u64.to_le_bytes());
    out.extend_from_slice(bytes);
    out
}

fn kernel(texts: &[&[u8]]) -> Kernel {
    let mut mem = PhysMemory::new(PhysPageNum(0x100), 512);
    let mut allocator = StackFrameAllocator::new();
    allocator.init(PhysPageNum(0x100), PhysPageNum(0x300));
    let mut space = MemorySet::new_bare(&mut allocator, &mut mem);
    space.map_trampoline(&mut allocator, &mut mem, MACHINE.trampoline);
    let mut manager = TaskManager::new();
    for (id, text) in texts.iter().enumerate() {
        let task = TaskControlBlock::new(&mut allocator, &mut mem, &mut space, &image(text), id, &MACHINE)
            .unwrap();
        manager.add(task);
    }
    manager.run_first(&mut allocator);
    Kernel { allocator, mem, manager }
}

#[test]
fn call_numbers() {
    assert_eq!(
        [
            SYSCALL_WRITE,
            SYSCALL_EXIT,
            SYSCALL_YIELD,
            SYSCALL_SET_PRIORITY,
            SYSCALL_GET_TIME,
            SYSCALL_MUNMAP,
            SYSCALL_MMAP
        ],
        [64, 93, 124, 140, 169, 215, 222]
    );
    assert_eq!(FD_STDOUT, 1);
}

#[test]
fn write_gives_the_bytes_of_the_current_task() {
    let k = kernel(&[b"hello, world", b"other task"]);
    assert_eq!(sys_write(&k.manager, &k.mem, 1, 0x10000, 12), (12, b"hello, world".to_vec()));
    assert_eq!(sys_write(&k.manager, &k.mem, 1, 0x10007, 5), (5, b"world".to_vec()));
    assert_eq!(sys_write(&k.manager, &k.mem, 1, 0x10000, 0), (0, Vec::new()));
}

#[test]
fn write_reaches_over_page_ends() {
    let text: Vec<u8> = (0..8192u32).map(|i| (i * 7 % 256) as u8).collect();
    let k = kernel(&[&text]);
    let (n, bytes) = sys_write(&k.manager, &k.mem, 1, 0x10ff0, 0x40);
    assert_eq!(n, 0x40);
    assert_eq!(bytes, text[0xff0..0x1030].to_vec());
    let (n, bytes) = sys_write(&k.manager, &k.mem, 1, 0x10000, 8192);
    assert_eq!(n, 8192);
    assert_eq!(bytes, text);
}

#[test]
fn write_to_another_file_fails() {
    let k = kernel(&[b"hello"]);
    for fd in [0u64, 2, 3, u64::MAX] {
        assert_eq!(sys_write(&k.manager, &k.mem, fd, 0x10000, 5), (-1, Vec::new()));
    }
}

#[test]
fn write_of_bytes_that_cannot_be_reached_fails() {
    let k = kernel(&[b"hello"]);
    assert_eq!(sys_write(&k.manager, &k.mem, 1, 0xf000, 5), (-1, Vec::new()));
    assert_eq!(sys_write(&k.manager, &k.mem, 1, 0x11ffc, 5), (-1, Vec::new()));
    assert_eq!(sys_write(&k.manager, &k.mem, 1, 0x11ffc, 4).0, 4);
    assert_eq!(sys_write(&k.manager, &k.mem, 1, u64::MAX, 5), (-1, Vec::new()));
    assert_eq!(sys_write(&k.manager, &k.mem, 1, 0x10000, u64::MAX), (-1, Vec::new()));
    // the trampoline is mapped to a page that the memory does not have
    assert_eq!(sys_write(&k.manager, &k.mem, 1, 0x7f_ffff_f000, 1), (-1, Vec::new()));
}

#[test]
fn yield_returns_zero_and_switches() {
    let mut k = kernel(&[b"a", b"b"]);
    assert_eq!(
        sys_yield(&mut k.manager, &mut k.allocator),
        (0, SwitchAction::Switch { current: 0, next: 1 })
    );
    assert_eq!(sys_write(&k.manager, &k.mem, 1, 0x10000, 1), (1, b"b".to_vec()));
    assert_eq!(
        sys_yield(&mut k.manager, &mut k.allocator),
        (0, SwitchAction::Switch { current: 0, next: 1 })
    );
    assert_eq!(sys_write(&k.manager, &k.mem, 1, 0x10000, 1), (1, b"a".to_vec()));
}

#[test]
fn exit_switches_to_the_next_task_or_halts() {
    let mut k = kernel(&[b"a", b"b"]);
    assert_eq!(sys_exit(&mut k.manager, &mut k.allocator, 0), SwitchAction::Init { next: 0 });
    assert_eq!(k.manager.len(), 1);
    assert_eq!(k.manager.task(0).app_id(), 1);
    assert_eq!(sys_exit(&mut k.manager, &mut k.allocator, -1), SwitchAction::Halt);
    assert_eq!(k.manager.len(), 0);
}

#[test]
fn time_is_split_into_seconds_and_microseconds() {
    assert_eq!(TimeVal::from_us(0), TimeVal { sec: 0, usec: 0 });
    assert_eq!(TimeVal::from_us(999_999), TimeVal { sec: 0, usec: 999_999 });
    assert_eq!(TimeVal::from_us(1_000_000), TimeVal { sec: 1, usec: 0 });
    assert_eq!(TimeVal::from_us(12_345_678_901), TimeVal { sec: 12_345, usec: 678_901 });
    assert_eq!(
        TimeVal::from_us(u64::MAX),
        TimeVal { sec: 18_446_744_073_709, usec: 551_615 }
    );
    let bytes = TimeVal { sec: 0x0102_0304_0506_0708, usec: 0xa1a2 }.to_bytes();
    assert_eq!(bytes, vec![8, 7, 6, 5, 4, 3, 2, 1, 0xa2, 0xa1, 0, 0, 0, 0, 0, 0]);
}

#[test]
fn get_time_fills_the_record_of_the_task() {
    let mut k = kernel(&[&[0xff; 64], &[0xee; 64]]);
    assert_eq!(sys_get_time(&k.manager, &mut k.mem, 0x10008, 0, 3_000_007), 0);
    let token = k.manager.get_current_token();
    let mut want = vec![0xffu8; 8];
    want.extend_from_slice(&3u64.to_le_bytes());
    want.extend_from_slice(&7u64.to_le_bytes());
    want.extend_from_slice(&[0xff; 8]);
    assert_eq!(read_user_bytes(&k.mem, token, 0x10000, 32).unwrap(), want);
    // the other task's memory is as it was
    let other = k.manager.task(0).user_token();
    assert_eq!(read_user_bytes(&k.mem, other, 0x10000, 32).unwrap(), vec![0xee; 32]);
}

#[test]
fn get_time_may_lie_across_two_pages() {
    let mut k = kernel(&[&[]]);
    assert_eq!(sys_get_time(&k.manager, &mut k.mem, 0x10ffc, 0, 0x0000_0001_0000_0000 * 1_000_000 + 5), 0);
    let token = k.manager.get_current_token();
    let mut want = Vec::new();
    want.extend_from_slice(&0x1_0000_0000u64.to_le_bytes());
    want.extend_from_slice(&5u64.to_le_bytes());
    assert_eq!(read_user_bytes(&k.mem, token, 0x10ffc, 16).unwrap(), want);
    assert_eq!(read_user_bytes(&k.mem, token, 0x10ff0, 12).unwrap(), vec![0; 12]);
    assert_eq!(read_user_bytes(&k.mem, token, 0x1100c, 12).unwrap(), vec![0; 12]);
}

#[test]
fn get_time_fails_where_the_record_cannot_be_reached() {
    let mut k = kernel(&[&[]]);
    assert_eq!(sys_get_time(&k.manager, &mut k.mem, 0x11ff8, 0, 1), -1);
    assert_eq!(sys_get_time(&k.manager, &mut k.mem, 0xfff8, 0, 1), -1);
    assert_eq!(sys_get_time(&k.manager, &mut k.mem, u64::MAX - 3, 0, 1), -1);
    assert_eq!(sys_get_time(&k.manager, &mut k.mem, 0x11ff0, 0, 1), 0);
    let token = k.manager.get_current_token();
    assert_eq!(read_user_bytes(&k.mem, token, 0x11fe0, 16).unwrap(), vec![0; 16]);
}

#[test]
fn mmap_and_munmap_calls() {
    let mut k = kernel(&[b"a"]);
    assert_eq!(sys_mmap(&mut k.manager, &mut k.allocator, &mut k.mem, 4096, 4096, 0b011), 0);
    assert_eq!(sys_mmap(&mut k.manager, &mut k.allocator, &mut k.mem, 4096, 4096, 0b011), -1);
    let token = k.manager.get_current_token();
    assert!(write_user_bytes(&mut k.mem, token, 4096 + 10, &[1, 2, 3]));
    assert_eq!(read_user_bytes(&k.mem, token, 4096 + 9, 5).unwrap(), vec![0, 1, 2, 3, 0]);
    assert_eq!(sys_munmap(&mut k.manager, &mut k.allocator, &mut k.mem, 4096, 4096), 0);
    assert_eq!(sys_munmap(&mut k.manager, &mut k.allocator, &mut k.mem, 4096, 4096), -1);
    assert!(!check_user_range(&k.mem, token, 4096, 1));
    assert_eq!(sys_mmap(&mut k.manager, &mut k.allocator, &mut k.mem, 4097, 4096, 0b011), -1);
    assert_eq!(sys_mmap(&mut k.manager, &mut k.allocator, &mut k.mem, 4096, 4096, 0), -1);
    assert_eq!(sys_mmap(&mut k.manager, &mut k.allocator, &mut k.mem, 4096, 4096, 8), -1);
    // mapped again, the memory is fresh
    assert_eq!(sys_mmap(&mut k.manager, &mut k.allocator, &mut k.mem, 4096, 4096, 0b001), 0);
    assert_eq!(read_user_bytes(&k.mem, token, 4096, 4096).unwrap(), vec![0; 4096]);
    let e = PageTable::from_token(token).translate(&k.mem, VirtPageNum(1)).unwrap();
    assert!(e.readable() && !e.writable() && !e.executable());
}

#[test]
fn user_memory_that_cannot_be_reached() {
    let mut k = kernel(&[b"abc"]);
    let token = k.manager.get_current_token();
    assert!(check_user_range(&k.mem, token, 0x10000, 8192));
    assert!(!check_user_range(&k.mem, token, 0x10000, 8193));
    assert!(!check_user_range(&k.mem, token, 0xffff, 2));
    assert!(check_user_range(&k.mem, token, 0xffff, 0));
    assert!(!check_user_range(&k.mem, token, 0x7f_ffff_ffff, 2));
    assert!(read_user_bytes(&k.mem, token, 0xffff, 2).is_none());
    assert_eq!(read_user_bytes(&k.mem, token, 0x10000, 3).unwrap(), b"abc".to_vec());
    let before = read_user_bytes(&k.mem, token, 0x10000, 8192).unwrap();
    assert!(!write_user_bytes(&mut k.mem, token, 0x11ffe, &[9, 9, 9]));
    assert_eq!(read_user_bytes(&k.mem, token, 0x10000, 8192).unwrap(), before);
    assert!(write_user_bytes(&mut k.mem, token, 0x10ffe, &[9, 8, 7, 6]));
    assert_eq!(read_user_bytes(&k.mem, token, 0x10ffd, 6).unwrap(), vec![0, 9, 8, 7, 6, 0]);
    assert!(write_user_bytes(&mut k.mem, token, 0x10000, &[]));
}
