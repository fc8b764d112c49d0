use raknet::ack_queue::ACKQueue;

#[test]
fn ack_queue() {
    let mut y = ACKQueue::new();
    for x in 0..10 {
        y.add(x);
    }
    for x in 11..20 {
        y.add(x);
    }

    let (received, missing) = y.clear();
    assert_eq!(received, vec![(0, 9), (11, 19)]);
    assert_eq!(missing, vec![10]);
}

#[test]
fn ack_flush_partitions_window() {
    let mut q = ACKQueue::new();
    for x in [2u32, 3, 7, 0, 9, 8] {
        q.add(x);
    }
    let (received, missing) = q.clear();
    assert_eq!(received, vec![(0, 0), (2, 3), (7, 9)]);
    assert_eq!(missing, vec![1, 4, 5, 6]);
    // The next flush covers only what arrived since.
    q.add(12);
    let (received, missing) = q.clear();
    assert_eq!(received, vec![(12, 12)]);
    assert_eq!(missing, vec![10, 11]);
    // Numbers below the window are ignored.
    q.add(5);
    let (received, missing) = q.clear();
    assert!(received.is_empty());
    assert!(missing.is_empty());
}

#[test]
fn ack_add_is_idempotent() {
    let mut once = ACKQueue::new();
    let mut twice = ACKQueue::new();
    for x in [4u32, 1, 6] {
        once.add(x);
        twice.add(x);
        twice.add(x);
    }
    assert_eq!(once.clear(), twice.clear());
}

#[test]
fn ack_empty_flush() {
    let mut q = ACKQueue::new();
    let (received, missing) = q.clear();
    assert!(received.is_empty());
    assert!(missing.is_empty());
}
