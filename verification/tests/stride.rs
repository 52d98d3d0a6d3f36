use kernel_core::syscall::sys_set_priority;
use kernel_core::task::stride::{
    stride_add, stride_before, StrideScheduler, StrideTask, BIG_STRIDE, DEFAULT_PRIORITY,
};

#[test]
fn strides_are_compared_around_the_end() {
    assert!(stride_before(1, 2));
    assert!(!stride_before(2, 1));
    assert!(!stride_before(5, 5));
    assert!(stride_before(u64::MAX, 0));
    assert!(!stride_before(0, u64::MAX));
    assert!(stride_before(u64::MAX - 10, 10));
    assert!(stride_before(0, 0x7fff_ffff_ffff_ffff));
    assert!(!stride_before(0x7fff_ffff_ffff_ffff, 0));
    // exactly half way round, each comes before the other
    assert!(stride_before(0, 0x8000_0000_0000_0000));
    assert!(stride_before(0x8000_0000_0000_0000, 0));
    assert!(!stride_before(0, 0x8000_0000_0000_0001));
}

#[test]
fn strides_move_on_around_the_end() {
    assert_eq!(stride_add(1, 2), 3);
    assert_eq!(stride_add(u64::MAX, 1), 0);
    assert_eq!(stride_add(u64::MAX, u64::MAX), u64::MAX - 1);
    assert_eq!(stride_add(u64::MAX - 1, 1), u64::MAX);
    assert_eq!(stride_add(0, 0), 0);
    assert_eq!(stride_add(0x8000_0000_0000_0000, 0x8000_0000_0000_0000), 0);
}

#[test]
fn new_tasks_start_with_the_default_priority_at_stride_zero() {
    let mut s: StrideScheduler<8> = StrideScheduler::new();
    assert_eq!(s.current_task(), None);
    assert_eq!(s.run_first(), None);
    s.add(7);
    assert_eq!(s.ready_len(), 1);
    assert_eq!(s.ready_task(0), StrideTask { id: 7, priority: DEFAULT_PRIORITY, stride: 0 });
    assert_eq!(s.run_first(), Some(7));
    assert_eq!(s.current_task(), Some(StrideTask { id: 7, priority: 2, stride: 0 }));
    assert_eq!(s.ready_len(), 0);
}

#[test]
fn priority_below_two_is_refused() {
    let mut s: StrideScheduler<8> = StrideScheduler::new();
    s.add(0);
    assert_eq!(s.set_priority(5), -1);
    s.run_first();
    assert_eq!(s.set_priority(1), -1);
    assert_eq!(s.set_priority(0), -1);
    assert_eq!(s.set_priority(-3), -1);
    assert_eq!(s.set_priority(isize::MIN), -1);
    assert_eq!(s.current_task().unwrap().priority, 2);
    assert_eq!(s.set_priority(5), 5);
    assert_eq!(s.current_task().unwrap().priority, 5);
    assert_eq!(s.set_priority(2), 2);
    assert_eq!(sys_set_priority(&mut s, 1), -1);
    assert_eq!(sys_set_priority(&mut s, 5), 5);
    assert_eq!(s.current_task(), Some(StrideTask { id: 0, priority: 5, stride: 0 }));
}

#[test]
fn stride_moves_on_by_the_step_of_the_priority() {
    let mut s: StrideScheduler<8> = StrideScheduler::new();
    s.add(0);
    s.run_first();
    assert_eq!(s.yield_current(), 0);
    assert_eq!(s.current_task().unwrap().stride, BIG_STRIDE / 2);
    assert_eq!(s.set_priority(5), 5);
    assert_eq!(s.yield_current(), 0);
    assert_eq!(s.current_task().unwrap().stride, BIG_STRIDE / 2 + BIG_STRIDE / 5);
    assert_eq!(s.current_task().unwrap().stride, 0x7fff_ffff_ffff_ffff + 0x3333_3333_3333_3333);
    assert_eq!(s.yield_current(), 0);
    // around the end of the numbers
    assert_eq!(
        s.current_task().unwrap().stride,
        (0x7fff_ffff_ffff_ffffu64 + 0x3333_3333_3333_3333).wrapping_add(0x3333_3333_3333_3333)
    );
    assert_eq!(s.current_task().unwrap().stride, 0xe666_6666_6666_6665);
}

#[test]
fn task_with_the_least_stride_runs_next() {
    let mut s: StrideScheduler<8> = StrideScheduler::new();
    s.add(0);
    s.add(1);
    s.add(2);
    let first = s.run_first().unwrap();
    s.set_priority(1000);
    let second = s.yield_current();
    assert_ne!(second, first);
    s.set_priority(3);
    let third = s.yield_current();
    assert!(third != first && third != second);
    // now the first task, with its small step, is ahead of the others
    assert_eq!(s.yield_current(), first);
    assert_eq!(s.yield_current(), first);
}

#[test]
fn higher_priority_runs_more_often_in_proportion() {
    let mut s: StrideScheduler<4> = StrideScheduler::new();
    s.add(0);
    s.add(1);
    let mut current = s.run_first().unwrap();
    let mut set = [false, false];
    let mut runs = [0u64, 0u64];
    for _ in 0..30000 {
        if !set[current] {
            assert_eq!(s.set_priority(if current == 0 { 2 } else { 4 }), [2, 4][current]);
            set[current] = true;
        }
        runs[current] += 1;
        current = s.yield_current();
    }
    // steps of a half and of a quarter of the big stride: the task of
    // priority 4 runs twice as often as the task of priority 2
    assert_eq!(runs[0] + runs[1], 30000);
    assert!(runs[1] >= 2 * runs[0] - 4 && runs[1] <= 2 * runs[0] + 4, "{:?}", runs);
}

#[test]
fn equal_priorities_share_evenly() {
    let mut s: StrideScheduler<8> = StrideScheduler::new();
    for id in 0..5 {
        s.add(id);
    }
    let mut current = s.run_first().unwrap();
    let mut runs = [0u64; 5];
    for _ in 0..5000 {
        runs[current] += 1;
        current = s.yield_current();
    }
    for r in runs {
        assert_eq!(r, 1000);
    }
}

#[test]
fn exit_takes_the_task_out_for_good() {
    let mut s: StrideScheduler<8> = StrideScheduler::new();
    s.add(0);
    s.add(1);
    let first = s.run_first().unwrap();
    let second = s.exit_current().unwrap();
    assert_ne!(first, second);
    for _ in 0..10 {
        assert_eq!(s.yield_current(), second);
    }
    assert_eq!(s.exit_current(), None);
    assert_eq!(s.current_task(), None);
    assert_eq!(s.ready_len(), 0);
}

#[test]
fn task_added_later_starts_at_the_stride_of_the_running_task() {
    let mut s: StrideScheduler<8> = StrideScheduler::new();
    s.add(0);
    s.run_first();
    for _ in 0..3 {
        s.yield_current();
    }
    let stride = s.current_task().unwrap().stride;
    s.add(9);
    assert_eq!(s.ready_task(0), StrideTask { id: 9, priority: 2, stride });
    assert_eq!(s.yield_current(), 9);
}
