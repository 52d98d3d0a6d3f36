use kernel_core::config::{Machine, TRAMPOLINE, TRAP_CONTEXT};
use kernel_core::mm::address::{PhysPageNum, VirtPageNum};
use kernel_core::mm::frame_allocator::StackFrameAllocator;
use kernel_core::mm::memory::PhysMemory;
use kernel_core::mm::memory_set::MemorySet;
use kernel_core::mm::pte::{PTE_R, PTE_V, PTE_W};
use kernel_core::task::manager::{SwitchAction, TaskManager};
use kernel_core::task::scheduler::Scheduler;
use kernel_core::task::stride::StrideScheduler;
use kernel_core::task::task::TaskControlBlock;
use kernel_core::trap::context::{TrapContext, SSTATUS_USER_BITS};

const MACHINE: Machine = Machine {
    trampoline: PhysPageNum(0x80201),
    trap_handler: 0x8020_1234,
    trap_return: 0x8020_5678,
    sstatus: 0x8000_0000_0000_6122,
};

struct Kernel {
    allocator: StackFrameAllocator,
    mem: PhysMemory,
    space: MemorySet,
    manager: TaskManager,
}

fn put(out: &mut Vec<u8>, at: usize, bytes: &[u8]) {
    out[at..at + bytes.len()].copy_from_slice(bytes);
}

/// An image with one segment of one page at 0x10000.
fn image(entry: u64, bytes: &[u8]) -> Vec<u8> {
    let mut out = vec![0u8; 64 + 56];
    put(&mut out, 0, &[0x7f, 0x45, 0x4c, 0x46, 2, 1, 1, 0]);
    put(&mut out, 24, &entry.to_le_bytes());
    put(&mut out, 32, &64u64.to_le_bytes());
    put(&mut out, 54, &56u16.to_le_bytes());
    put(&mut out, 56, &1u16.to_le_bytes());
    put(&mut out, 64, &1u32.to_le_bytes());
    put(&mut out, 68, &5u32.to_le_bytes());
    put(&mut out, 72, &120u64.to_le_bytes());
    put(&mut out, 80, &0x10000u64.to_le_bytes());
    put(&mut out, 96, &(bytes.len() as u64).to_le_bytes());
    put(&mut out, 104, &4096u64.to_le_bytes());
    out.extend_from_slice(bytes);
    out
}

fn kernel(apps: usize) -> Kernel {
    let mut mem = PhysMemory::new(PhysPageNum(0x100), 512);
    let mut allocator = StackFrameAllocator::new();
    allocator.init(PhysPageNum(0x100), PhysPageNum(0x300));
    let mut space = MemorySet::new_bare(&mut allocator, &mut mem);
    space.map_trampoline(&mut allocator, &mut mem, MACHINE.trampoline);
    let mut manager = TaskManager::new();
    for id in 0..apps {
        let elf = image(0x10000 + id as u64, &[id as u8; 16]);
        let task =
            TaskControlBlock::new(&mut allocator, &mut mem, &mut space, &elf, id, &MACHINE).unwrap();
        manager.add(task);
    }
    Kernel { allocator, mem, space, manager }
}

fn running(manager: &TaskManager) -> Vec<usize> {
    (0..manager.len()).filter(|i| manager.task(*i).running()).map(|i| manager.task(i).app_id()).collect()
}

fn order(manager: &TaskManager) -> Vec<usize> {
    (0..manager.len()).map(|i| manager.task(i).app_id()).collect()
}

#[test]
fn new_task_is_ready_to_enter_user_mode() {
    let mut k = kernel(0);
    let elf = image(0x10abc, &[1, 2, 3]);
    let free = k.allocator.free_count();
    let task =
        TaskControlBlock::new(&mut k.allocator, &mut k.mem, &mut k.space, &elf, 2, &MACHINE).unwrap();
    assert!(!task.running());
    assert_eq!(task.app_id(), 2);
    let top = TRAMPOLINE - 2 * 12288;
    assert_eq!(task.context_ptr().ra(), MACHINE.trap_return);
    assert_eq!(task.context_ptr().sp(), top);
    for i in 0..12 {
        assert_eq!(task.context_ptr().saved(i), 0);
    }
    // the kernel stack: two pages below its top, readable and writable
    for v in [top / 4096 - 2, top / 4096 - 1] {
        let e = k.space.translate(&k.mem, VirtPageNum(v)).unwrap();
        assert_eq!(e.flags().bits(), PTE_V | PTE_R | PTE_W);
    }
    assert!(k.space.translate(&k.mem, VirtPageNum(top / 4096 - 3)).is_none());
    assert!(k.space.translate(&k.mem, VirtPageNum(top / 4096)).is_none());
    // the trap context lies in the page that the task maps for it
    let cx = task.trap_context(&k.mem);
    let token = task.user_token();
    assert_eq!(token >> 60, 8);
    let mapped = kernel_core::mm::page_table::PageTable::from_token(token)
        .translate(&k.mem, VirtPageNum(TRAP_CONTEXT / 4096))
        .unwrap()
        .ppn();
    assert_eq!(mapped, task.trap_cx_ppn());
    let mut x = [0u64; 32];
    x[2] = 0x14000;
    assert_eq!(cx.x, x);
    assert_eq!(cx.sepc, 0x10abc);
    assert_eq!(cx.sstatus, MACHINE.sstatus & SSTATUS_USER_BITS);
    assert_eq!(cx.sstatus, 0x8000_0000_0000_6022);
    assert_eq!(cx.kernel_satp, k.space.token());
    assert_eq!(cx.kernel_sp, top);
    assert_eq!(cx.trap_handler, MACHINE.trap_handler);
    assert!(k.allocator.free_count() < free);
}

#[test]
fn image_that_cannot_be_loaded_makes_no_task() {
    let mut k = kernel(1);
    let free = k.allocator.free_count();
    let mut elf = image(0, &[]);
    elf[3] = 0;
    assert!(
        TaskControlBlock::new(&mut k.allocator, &mut k.mem, &mut k.space, &elf, 1, &MACHINE).is_none()
    );
    assert_eq!(k.allocator.free_count(), free);
    assert!(k.space.translate(&k.mem, VirtPageNum((TRAMPOLINE - 12288) / 4096 - 1)).is_none());
}

#[test]
fn saved_context_can_be_written() {
    let mut k = kernel(2);
    let cx = *k.manager.task(0).context_ptr();
    *k.manager.context_ptr_mut(1) = kernel_core::task::context::TaskContext::goto_trap_return(11, 22);
    assert_eq!(k.manager.task(1).context_ptr().sp(), 11);
    assert_eq!(k.manager.task(1).context_ptr().ra(), 22);
    assert_eq!(k.manager.task(0).context_ptr().sp(), cx.sp());
    assert_eq!(order(&k.manager), vec![0, 1]);
}

#[test]
fn trap_context_can_be_replaced() {
    let mut k = kernel(2);
    let mut cx = k.manager.get_current_trap_cx(&k.mem);
    let other = k.manager.task(0).trap_context(&k.mem);
    cx.x[10] = 99;
    cx.sepc = 0x4242;
    k.manager.set_current_trap_cx(&mut k.mem, &cx);
    let back = k.manager.get_current_trap_cx(&k.mem);
    assert_eq!(back.x[10], 99);
    assert_eq!(back.sepc, 0x4242);
    assert_eq!(back.kernel_sp, cx.kernel_sp);
    let untouched = k.manager.task(0).trap_context(&k.mem);
    assert_eq!(untouched.x, other.x);
    assert_eq!(untouched.sepc, other.sepc);
}

#[test]
fn exactly_one_task_runs_after_every_switch() {
    let mut k = kernel(3);
    assert!(running(&k.manager).is_empty());
    assert_eq!(k.manager.run_first(&mut k.allocator), SwitchAction::Init { next: 2 });
    assert_eq!(running(&k.manager), vec![0]);
    for _ in 0..7 {
        let action = k.manager.yield_current(&mut k.allocator);
        assert_eq!(action, SwitchAction::Switch { current: 1, next: 2 });
        assert_eq!(running(&k.manager).len(), 1);
        assert!(k.manager.task(2).running());
    }
    assert_eq!(k.manager.exit_current(&mut k.allocator), SwitchAction::Init { next: 1 });
    assert_eq!(running(&k.manager).len(), 1);
    assert_eq!(k.manager.yield_current(&mut k.allocator), SwitchAction::Switch { current: 0, next: 1 });
    assert_eq!(running(&k.manager).len(), 1);
    assert_eq!(k.manager.exit_current(&mut k.allocator), SwitchAction::Init { next: 0 });
    assert_eq!(running(&k.manager).len(), 1);
    assert_eq!(k.manager.yield_current(&mut k.allocator), SwitchAction::Switch { current: 0, next: 0 });
    assert_eq!(running(&k.manager).len(), 1);
    assert_eq!(k.manager.exit_current(&mut k.allocator), SwitchAction::Halt);
    assert_eq!(k.manager.len(), 0);
}

#[test]
fn tasks_run_in_the_order_of_the_queue_again_and_again() {
    let mut k = kernel(3);
    let mut seen = Vec::new();
    k.manager.run_first(&mut k.allocator);
    seen.push(running(&k.manager)[0]);
    for _ in 0..8 {
        k.manager.yield_current(&mut k.allocator);
        seen.push(running(&k.manager)[0]);
    }
    assert_eq!(seen, vec![0, 1, 2, 0, 1, 2, 0, 1, 2]);
    assert_eq!(order(&k.manager), vec![0, 1, 2]);
}

#[test]
fn first_application_exits_then_the_second_then_the_kernel_halts() {
    let mut k = kernel(2);
    let free_before = k.allocator.free_count();
    assert_eq!(k.manager.run_first(&mut k.allocator), SwitchAction::Init { next: 1 });
    assert_eq!(running(&k.manager), vec![0]);
    assert_eq!(k.manager.exit_current(&mut k.allocator), SwitchAction::Init { next: 0 });
    assert_eq!(running(&k.manager), vec![1]);
    assert_eq!(order(&k.manager), vec![1]);
    let free_between = k.allocator.free_count();
    assert!(free_between > free_before);
    assert_eq!(k.manager.exit_current(&mut k.allocator), SwitchAction::Halt);
    assert_eq!(k.manager.len(), 0);
    assert_eq!(k.allocator.free_count(), free_between + (free_between - free_before));
    // whatever is asked of the empty queue, the answer is to halt
    assert_eq!(k.manager.yield_current(&mut k.allocator), SwitchAction::Halt);
    assert_eq!(k.manager.exit_current(&mut k.allocator), SwitchAction::Halt);
    assert_eq!(k.manager.run_first(&mut k.allocator), SwitchAction::Halt);
}

#[test]
fn exit_gives_the_pages_of_the_task_back() {
    let mut k = kernel(0);
    let before = k.allocator.free_count();
    let elf = image(0x10000, &[7; 100]);
    let task =
        TaskControlBlock::new(&mut k.allocator, &mut k.mem, &mut k.space, &elf, 0, &MACHINE).unwrap();
    let with_task = k.allocator.free_count();
    task.release(&mut k.allocator);
    // what stays taken are the two pages of the kernel stack, which lie
    // under the nodes of the trampoline
    assert_eq!(k.allocator.free_count(), before - 2);
    assert!(with_task < before - 2);
}

#[test]
fn yield_of_a_task_that_has_not_run_starts_the_first() {
    let mut k = kernel(2);
    assert_eq!(k.manager.run_next_task(&mut k.allocator, true), SwitchAction::Init { next: 1 });
    assert_eq!(order(&k.manager), vec![1, 0]);
    assert_eq!(running(&k.manager), vec![0]);
}

#[test]
fn mmap_of_the_manager_checks_its_arguments() {
    let mut k = kernel(2);
    k.manager.run_first(&mut k.allocator);
    let free = k.allocator.free_count();
    // the start is not the first address of a page
    assert_eq!(k.manager.mmap(&mut k.allocator, &mut k.mem, 0x20_0001, 4096, 3), -1);
    // no port bit, or a bit that is none
    assert_eq!(k.manager.mmap(&mut k.allocator, &mut k.mem, 0x20_0000, 4096, 0), -1);
    assert_eq!(k.manager.mmap(&mut k.allocator, &mut k.mem, 0x20_0000, 4096, 8), -1);
    assert_eq!(k.manager.mmap(&mut k.allocator, &mut k.mem, 0x20_0000, 4096, 0xb), -1);
    // beyond the address space
    assert_eq!(k.manager.mmap(&mut k.allocator, &mut k.mem, 0x7f_ffff_f000, 0x2000, 3), -1);
    assert_eq!(k.manager.mmap(&mut k.allocator, &mut k.mem, 0x1000, u64::MAX, 3), -1);
    // a page of the image is mapped already
    assert_eq!(k.manager.mmap(&mut k.allocator, &mut k.mem, 0x10000, 4096, 3), -1);
    assert_eq!(k.allocator.free_count(), free);
    assert_eq!(running(&k.manager), vec![0]);
}

#[test]
fn mmap_of_the_manager_gives_the_permissions_of_the_port() {
    let mut k = kernel(2);
    k.manager.run_first(&mut k.allocator);
    for port in 1..8u64 {
        let start = 0x20_0000 + port * 0x1_0000;
        assert_eq!(k.manager.mmap(&mut k.allocator, &mut k.mem, start, 4097, port), 0);
        let token = k.manager.get_current_token();
        let table = kernel_core::mm::page_table::PageTable::from_token(token);
        for v in [start / 4096, start / 4096 + 1] {
            let e = table.translate(&k.mem, VirtPageNum(v)).unwrap();
            assert_eq!(e.flags().bits(), 1 | 16 | ((port as u8) << 1));
            assert_eq!(e.readable(), port & 1 != 0);
            assert_eq!(e.writable(), port & 2 != 0);
            assert_eq!(e.executable(), port & 4 != 0);
        }
        assert!(table.translate(&k.mem, VirtPageNum(start / 4096 + 2)).is_none());
    }
    // the other task has none of it
    let other = kernel_core::mm::page_table::PageTable::from_token(k.manager.task(0).user_token());
    assert!(other.translate(&k.mem, VirtPageNum(0x210)).is_none());
}

#[test]
fn mmap_and_munmap_of_the_manager() {
    let mut k = kernel(1);
    k.manager.run_first(&mut k.allocator);
    assert_eq!(k.manager.mmap(&mut k.allocator, &mut k.mem, 4096, 4096, 0b011), 0);
    assert_eq!(k.manager.mmap(&mut k.allocator, &mut k.mem, 4096, 4096, 0b011), -1);
    assert_eq!(k.manager.munmap(&mut k.allocator, &mut k.mem, 4096, 4096), 0);
    assert_eq!(k.manager.munmap(&mut k.allocator, &mut k.mem, 4096, 4096), -1);
    assert_eq!(k.manager.munmap(&mut k.allocator, &mut k.mem, 0x7f_ffff_f000, 0x2000), -1);
    assert_eq!(k.manager.munmap(&mut k.allocator, &mut k.mem, 8, u64::MAX), -1);
    // the task still has its image
    let cx: TrapContext = k.manager.get_current_trap_cx(&k.mem);
    assert_eq!(cx.sepc, 0x10000);
}

/// Starts the first task, lets the running task yield `yields` times and
/// then lets every task exit; the result is the tasks in the order in which
/// they ran.
fn drive<S: Scheduler>(policy: &mut S, env: &mut S::Env, yields: usize) -> Vec<usize> {
    let mut ran = Vec::new();
    let mut current = policy.start(env);
    for _ in 0..yields {
        ran.push(current.unwrap());
        current = Some(policy.next_after_yield(env));
    }
    while let Some(id) = current {
        ran.push(id);
        current = policy.next_after_exit(env);
    }
    ran
}

#[test]
fn both_policies_serve_the_same_contract() {
    let mut k = kernel(3);
    let ran = drive(&mut k.manager, &mut k.allocator, 4);
    assert_eq!(ran, vec![0, 1, 2, 0, 1, 2, 0]);
    assert_eq!(k.manager.len(), 0);

    let mut stride: StrideScheduler<4> = StrideScheduler::new();
    for id in 0..3 {
        stride.add(id);
    }
    let ran = drive(&mut stride, &mut (), 6);
    assert_eq!(ran.len(), 9);
    // equal priorities: each task ran twice before the exits, then once more
    for id in 0..3 {
        assert_eq!(ran[..6].iter().filter(|x| **x == id).count(), 2);
        assert_eq!(ran[6..].iter().filter(|x| **x == id).count(), 1);
    }
    assert_eq!(stride.current_task(), None);
    assert_eq!(stride.ready_len(), 0);

    let mut none: StrideScheduler<4> = StrideScheduler::new();
    assert!(drive(&mut none, &mut (), 0).is_empty());
    let mut empty = kernel(0);
    assert!(drive(&mut empty.manager, &mut empty.allocator, 0).is_empty());
}
