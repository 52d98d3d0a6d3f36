use kernel_core::task::priority_queue::PriorityQueue;

#[test]
fn items_leave_in_ascending_order() {
    let mut q: PriorityQueue<u64, 16> = PriorityQueue::new();
    for x in [5u64, 3, 9, 1, 7, 3, 8, 2, 6, 4] {
        q.push(x);
    }
    assert_eq!(q.len(), 10);
    let mut out = Vec::new();
    while let Some(x) = q.pop() {
        out.push(x);
    }
    assert_eq!(out, vec![1, 2, 3, 3, 4, 5, 6, 7, 8, 9]);
    assert!(q.is_empty());
}

#[test]
fn empty_queue_gives_nothing() {
    let mut q: PriorityQueue<u64, 4> = PriorityQueue::default();
    assert!(q.is_empty());
    assert_eq!(q.pop(), None);
    assert_eq!(q.len(), 0);
}

#[test]
fn pushes_and_pops_may_alternate() {
    let mut q: PriorityQueue<u64, 8> = PriorityQueue::new();
    q.push(1);
    q.push(2);
    q.push(3);
    q.push(4);
    assert_eq!(q.pop(), Some(1));
    q.push(0);
    assert_eq!(*q.get(0), 0);
    assert_eq!(q.pop(), Some(0));
    q.push(10);
    q.push(1);
    assert_eq!(q.pop(), Some(1));
    assert_eq!(q.pop(), Some(2));
    assert_eq!(q.pop(), Some(3));
    assert_eq!(q.pop(), Some(4));
    assert_eq!(q.pop(), Some(10));
    assert_eq!(q.pop(), None);
}

#[test]
fn long_runs_stay_ordered() {
    let mut q: PriorityQueue<u64, 256> = PriorityQueue::new();
    let mut seed: u64 = 99;
    let mut mirror: Vec<u64> = Vec::new();
    for _ in 0..3000 {
        seed = seed.wrapping_mul(6364136223846793005).wrapping_add(1442695040888963407);
        if (seed >> 40) % 2 == 0 && mirror.len() < 256 {
            let x = (seed >> 20) % 1000;
            q.push(x);
            mirror.push(x);
        } else {
            let least = mirror.iter().min().copied();
            assert_eq!(q.pop(), least);
            if let Some(x) = least {
                let i = mirror.iter().position(|y| *y == x).unwrap();
                mirror.swap_remove(i);
            }
        }
        assert_eq!(q.len(), mirror.len());
    }
}

#[test]
fn queue_can_be_filled_to_its_capacity() {
    let mut q: PriorityQueue<u64, 3> = PriorityQueue::new();
    q.push(3);
    q.push(2);
    q.push(1);
    assert_eq!(q.len(), 3);
    assert_eq!(q.pop(), Some(1));
}
