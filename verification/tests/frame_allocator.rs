use kernel_core::mm::address::PhysPageNum;
use kernel_core::mm::frame_allocator::{
    frame_alloc, frame_dealloc, init_frame_allocator, FrameTracker, StackFrameAllocator,
};
use kernel_core::mm::memory::PhysMemory;

fn allocator(start: u64, end: u64) -> StackFrameAllocator {
    let mut a = StackFrameAllocator::new();
    a.init(PhysPageNum(start), PhysPageNum(end));
    a
}

#[test]
fn fresh_pages_come_in_ascending_order() {
    let mut a = allocator(10, 13);
    assert_eq!(a.allocate(), Some(PhysPageNum(10)));
    assert_eq!(a.allocate(), Some(PhysPageNum(11)));
    assert_eq!(a.allocate(), Some(PhysPageNum(12)));
    assert_eq!(a.allocate(), None);
    assert_eq!(a.free_count(), 0);
}

#[test]
fn new_allocator_has_nothing_to_hand_out() {
    let mut a = StackFrameAllocator::new();
    assert_eq!(a.free_count(), 0);
    assert_eq!(a.allocate(), None);
}

#[test]
fn returned_fresh_page_is_handed_out_again() {
    let mut a = allocator(10, 20);
    a.allocate();
    let p = a.allocate().unwrap();
    assert_eq!(p, PhysPageNum(11));
    a.dealloc(p);
    assert_eq!(a.allocate(), Some(p));
}

#[test]
fn returned_recycled_page_is_handed_out_again() {
    let mut a = allocator(10, 20);
    for _ in 0..5 {
        a.allocate();
    }
    a.dealloc(PhysPageNum(11));
    a.dealloc(PhysPageNum(12));
    let p = a.allocate().unwrap();
    assert_eq!(p, PhysPageNum(11));
    a.dealloc(p);
    assert_eq!(a.allocate(), Some(PhysPageNum(11)));
}

#[test]
fn lowest_recycled_page_comes_first() {
    let mut a = allocator(10, 20);
    for _ in 0..6 {
        a.allocate();
    }
    a.dealloc(PhysPageNum(13));
    a.dealloc(PhysPageNum(11));
    a.dealloc(PhysPageNum(12));
    assert_eq!(a.allocate(), Some(PhysPageNum(11)));
    assert_eq!(a.allocate(), Some(PhysPageNum(12)));
    assert_eq!(a.allocate(), Some(PhysPageNum(13)));
    assert_eq!(a.allocate(), Some(PhysPageNum(16)));
}

#[test]
fn recycled_pages_are_preferred_over_fresh_ones() {
    let mut a = allocator(0, 100);
    for _ in 0..3 {
        a.allocate();
    }
    a.dealloc(PhysPageNum(0));
    assert_eq!(a.allocate(), Some(PhysPageNum(0)));
    assert_eq!(a.allocate(), Some(PhysPageNum(3)));
}

#[test]
fn return_of_the_top_page_folds_recycled_pages_below_it() {
    let mut a = allocator(10, 20);
    for _ in 0..4 {
        a.allocate();
    }
    assert_eq!(a.free_count(), 6);
    a.dealloc(PhysPageNum(11));
    a.dealloc(PhysPageNum(12));
    assert_eq!(a.free_count(), 8);
    a.dealloc(PhysPageNum(13));
    assert_eq!(a.free_count(), 9);
    assert!(a.is_allocated(PhysPageNum(10)));
    assert!(!a.is_allocated(PhysPageNum(11)));
    assert!(!a.is_allocated(PhysPageNum(12)));
    assert!(!a.is_allocated(PhysPageNum(13)));
    assert_eq!(a.allocate(), Some(PhysPageNum(11)));
    assert_eq!(a.allocate(), Some(PhysPageNum(12)));
    assert_eq!(a.allocate(), Some(PhysPageNum(13)));
    assert_eq!(a.allocate(), Some(PhysPageNum(14)));
}

#[test]
fn fold_stops_at_the_start_of_the_range() {
    let mut a = allocator(10, 12);
    a.allocate();
    a.allocate();
    a.dealloc(PhysPageNum(10));
    a.dealloc(PhysPageNum(11));
    assert_eq!(a.free_count(), 2);
    assert!(!a.is_allocated(PhysPageNum(9)));
    assert_eq!(a.allocate(), Some(PhysPageNum(10)));
}

#[test]
fn live_pages_never_share_a_number() {
    let mut a = allocator(0, 64);
    let mut live: Vec<u64> = Vec::new();
    let mut seed: u64 = 12345;
    for _ in 0..2000 {
        seed = seed.wrapping_mul(6364136223846793005).wrapping_add(1442695040888963407);
        let choice = (seed >> 33) % 3;
        if choice < 2 {
            if let Some(p) = a.allocate() {
                assert!(!live.contains(&p.0));
                live.push(p.0);
            } else {
                assert_eq!(live.len(), 64);
            }
        } else if !live.is_empty() {
            let i = ((seed >> 13) as usize) % live.len();
            let p = live.swap_remove(i);
            a.dealloc(PhysPageNum(p));
        }
        assert_eq!(a.free_count(), 64 - live.len() as u64);
        for p in live.iter() {
            assert!(a.is_allocated(PhysPageNum(*p)));
        }
    }
}

#[test]
fn frame_allocator_test() {
    let mut mem = PhysMemory::new(PhysPageNum(0x100), 16);
    let mut a = allocator(0x100, 0x110);
    let mut v: Vec<FrameTracker> = Vec::new();
    for i in 0..5 {
        let frame = frame_alloc(&mut a, &mut mem).unwrap();
        assert_eq!(frame.ppn(), PhysPageNum(0x100 + i));
        v.push(frame);
    }
    while let Some(frame) = v.pop() {
        frame_dealloc(&mut a, frame);
    }
    for i in 0..5 {
        let frame = frame_alloc(&mut a, &mut mem).unwrap();
        assert_eq!(frame.ppn(), PhysPageNum(0x100 + i));
        v.push(frame);
    }
    assert_eq!(a.free_count(), 11);
}

#[test]
fn handed_out_frames_are_filled_with_zeroes() {
    let mut mem = PhysMemory::new(PhysPageNum(0x100), 4);
    let mut a = allocator(0x100, 0x104);
    let frame = frame_alloc(&mut a, &mut mem).unwrap();
    let ppn = frame.ppn();
    for i in 0..512 {
        mem.write_word(ppn, i, 0xdead_beef_0000_0000 + i as u64);
    }
    frame_dealloc(&mut a, frame);
    let again = frame_alloc(&mut a, &mut mem).unwrap();
    assert_eq!(again.ppn(), ppn);
    for i in 0..512 {
        assert_eq!(mem.read_word(ppn, i), 0);
    }
}

#[test]
fn frame_alloc_fails_when_no_page_is_free() {
    let mut mem = PhysMemory::new(PhysPageNum(0x100), 2);
    let mut a = allocator(0x100, 0x102);
    assert!(frame_alloc(&mut a, &mut mem).is_some());
    assert!(frame_alloc(&mut a, &mut mem).is_some());
    assert!(frame_alloc(&mut a, &mut mem).is_none());
}

#[test]
fn init_frame_allocator_covers_the_memory_behind_the_kernel() {
    let mut a = StackFrameAllocator::new();
    init_frame_allocator(&mut a, 0x8020_3000, 0x8020_6fff);
    assert_eq!(a.free_count(), 4);
    assert_eq!(a.allocate(), Some(PhysPageNum(0x80203)));
    assert!(a.is_allocated(PhysPageNum(0x80203)));
    assert!(!a.is_allocated(PhysPageNum(0x80202)));
    assert!(!a.is_allocated(PhysPageNum(0x80204)));
}
