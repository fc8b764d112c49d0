use raknet::frame::{Frame, FrameSet, Reliability};
use raknet::packet_queue::PacketQueue;
use raknet::received_queue::ReceivedQueue;
use raknet::split_queue::{SplitPacket, SplitPacketQueue};

fn fragment(id: u16, count: u32, index: u32, data: Vec<u8>) -> Frame {
    let mut f = Frame::new(Reliability::ReliableOrdered, data);
    f.split = true;
    f.split_id = id;
    f.split_count = count;
    f.split_index = index;
    f.order_index = 5;
    f
}

#[test]
fn split_reassembly_in_any_order() {
    for order in [[0u32, 1, 2], [2, 0, 1], [1, 2, 0]] {
        let mut q = SplitPacketQueue::new();
        for (k, i) in order.iter().enumerate() {
            q.add(fragment(7, 3, *i, vec![*i as u8; 2]));
            let done = q.get_and_clear();
            if k < 2 {
                assert!(done.is_empty());
            } else {
                assert_eq!(done.len(), 1);
                assert_eq!(done[0].get_all(), vec![0, 0, 1, 1, 2, 2]);
                let whole = done[0].get_frame();
                assert_eq!(whole.order_index, 5);
                assert_eq!(whole.reliability, Reliability::ReliableOrdered);
                assert!(!whole.split);
            }
        }
        assert!(q.get_and_clear().is_empty());
    }
}

#[test]
fn split_index_beyond_count_is_ignored() {
    let mut p = SplitPacket::new(2, 0, Reliability::Reliable);
    p.add(5, fragment(1, 2, 5, vec![1]));
    assert!(!p.is_full());
    p.add(0, fragment(1, 2, 0, vec![1]));
    p.add(0, fragment(1, 2, 0, vec![2]));
    assert!(!p.is_full());
    p.add(1, fragment(1, 2, 1, vec![3]));
    assert!(p.is_full());
    assert_eq!(p.get_all(), vec![2, 3]);
}

fn ordered(index: u32, byte: u8) -> Frame {
    let mut f = Frame::new(Reliability::ReliableOrdered, vec![byte]);
    f.order_index = index;
    f
}

#[test]
fn consecutive_frames_released_in_order_either_way() {
    let mut q = ReceivedQueue::new();
    q.add(ordered(0, 10));
    let first = q.get_all();
    q.add(ordered(1, 11));
    let second = q.get_all();
    assert_eq!(first.iter().chain(second.iter()).map(|f| f.data[0]).collect::<Vec<u8>>(), vec![10, 11]);

    let mut q = ReceivedQueue::new();
    q.add(ordered(1, 11));
    assert!(q.get_all().is_empty());
    q.add(ordered(0, 10));
    let both = q.get_all();
    assert_eq!(both.iter().map(|f| f.data[0]).collect::<Vec<u8>>(), vec![10, 11]);
}

#[test]
fn stale_and_repeated_frames_are_dropped() {
    let mut q = ReceivedQueue::new();
    q.add(ordered(0, 1));
    assert_eq!(q.get_all().len(), 1);
    q.add(ordered(0, 1));
    assert!(q.get_all().is_empty());
    q.add(ordered(2, 3));
    q.add(ordered(2, 4));
    q.add(ordered(1, 2));
    let out = q.get_all();
    assert_eq!(out.iter().map(|f| f.data[0]).collect::<Vec<u8>>(), vec![2, 3]);
}

#[test]
fn packet_queue_batches_and_numbers() {
    let mut q = PacketQueue::new(1500);
    q.add_frame(Frame::new(Reliability::Reliable, vec![1; 100]), 0);
    q.add_frame(Frame::new(Reliability::Reliable, vec![2; 100]), 0);
    let sets = q.get_packet(0);
    assert_eq!(sets.len(), 1);
    assert_eq!(sets[0].sequence_number, 0);
    assert_eq!(sets[0].header, 0x84);
    assert_eq!(sets[0].datas.len(), 2);
    assert!(q.get_packet(10).is_empty());

    let mut big = Frame::new(Reliability::ReliableOrdered, vec![3; 1000]);
    big.split = true;
    q.add_frame(Frame::new(Reliability::Reliable, vec![4; 10]), 20);
    q.add_frame(big, 20);
    let sets = q.get_packet(20);
    assert_eq!(sets.len(), 2);
    assert_eq!((sets[0].sequence_number, sets[0].header), (1, 0x84));
    assert_eq!((sets[1].sequence_number, sets[1].header), (2, 0x8c));
}

#[test]
fn packet_queue_resends_after_a_second_until_acked() {
    let mut q = PacketQueue::new(1500);
    q.add_frame(Frame::new(Reliability::Reliable, vec![1; 10]), 0);
    q.add_frame(Frame::new(Reliability::Reliable, vec![2; 2000]), 0);
    let sets = q.get_packet(0);
    assert_eq!(sets.len(), 2);
    // Not yet due.
    assert!(q.get_packet(1000).is_empty());
    q.received(1);
    // Only the unacknowledged one goes out again, renumbered.
    let again = q.get_packet(1001);
    assert_eq!(again.len(), 1);
    assert_eq!(again[0].sequence_number, 2);
    assert_eq!(again[0].datas[0].data, vec![1; 10]);
    // Its timer restarted.
    assert!(q.get_packet(2001).is_empty());
    assert_eq!(q.get_packet(2002).len(), 1);
}

#[test]
fn packet_queue_nack_renumbers_at_once() {
    let mut q = PacketQueue::new(1500);
    q.add_frame(Frame::new(Reliability::Reliable, vec![7; 10]), 0);
    let sets = q.get_packet(0);
    assert_eq!(sets[0].sequence_number, 0);
    q.resend(0, 5);
    let again = q.get_packet(5);
    assert_eq!(again.len(), 1);
    assert_eq!(again[0].sequence_number, 1);
    assert_eq!(again[0].datas[0].data, vec![7; 10]);
    q.received(0);
    assert!(q.get_packet(5000).iter().all(|s| s.sequence_number != 0));
}

#[test]
fn packet_queue_add_takes_only_the_next_number() {
    let mut q = PacketQueue::new(1500);
    let set = |n: u32| FrameSet { header: 0x84, sequence_number: n, datas: vec![Frame::new(Reliability::Reliable, vec![n as u8])] };
    q.add(set(1), 0);
    assert!(q.get_packet(0).is_empty());
    q.add(set(0), 0);
    q.add(set(1), 0);
    let out = q.get_packet(0);
    assert_eq!(out.iter().map(|s| s.sequence_number).collect::<Vec<u32>>(), vec![0, 1]);
}

#[test]
fn split_queue_default_is_empty() {
    let mut q = SplitPacketQueue::default();
    assert!(q.get_and_clear().is_empty());
}

#[test]
fn resend_timer_starts_at_dispatch() {
    let mut q = PacketQueue::new(1500);
    q.add_frame(Frame::new(Reliability::Reliable, vec![1; 10]), 0);
    // Sealed at 0 but handed out only at 900.
    assert_eq!(q.get_packet(900).len(), 1);
    assert!(q.get_packet(1500).is_empty());
    assert_eq!(q.get_packet(1901).len(), 1);
}
