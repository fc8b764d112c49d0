use raknet::codec::{DecodeError, Reader, Writer};
use raknet::frame::{Frame, FrameSet, Reliability};

fn encode_frame(f: &Frame) -> Vec<u8> {
    let mut w = Writer::new(Vec::new());
    f.encode(&mut w);
    w.into_inner()
}

#[test]
fn reliability_codes() {
    assert_eq!(Reliability::new(3), Ok(Reliability::ReliableOrdered));
    assert_eq!(Reliability::new(5), Err(DecodeError::UnknownReliability));
    assert_eq!(Reliability::ReliableSequenced.to_byte(), 4);
    assert!(Reliability::Reliable.reliable());
    assert!(!Reliability::UnreliableSequenced.reliable());
    assert!(Reliability::UnreliableSequenced.sequenced());
    assert!(Reliability::ReliableOrdered.sequenced_or_ordered());
    assert!(!Reliability::Reliable.sequenced_or_ordered());
}

#[test]
fn frame_round_trip_keeps_every_field() {
    let mut f = Frame::new(Reliability::ReliableOrdered, vec![1, 2, 3, 4, 5]);
    f.message_index = 0xabcdef;
    f.order_index = 17;
    f.split = true;
    f.split_count = 3;
    f.split_id = 9;
    f.split_index = 2;
    let bytes = encode_frame(&f);
    assert_eq!(bytes.len(), f.length());
    assert_eq!(bytes[0], (3 << 5) | 0x10);
    assert_eq!(&bytes[1..3], &[0, 40]);
    let mut r = Reader::new(&bytes);
    let g = Frame::decode(&mut r).unwrap();
    assert_eq!(g.reliability, Reliability::ReliableOrdered);
    assert_eq!(g.message_index, 0xabcdef);
    assert_eq!(g.order_index, 17);
    assert!(g.split);
    assert_eq!((g.split_count, g.split_id, g.split_index), (3, 9, 2));
    assert_eq!(g.data, vec![1, 2, 3, 4, 5]);
}

#[test]
fn frame_lengths_by_class() {
    let data = vec![0u8; 10];
    assert_eq!(Frame::new(Reliability::Unreliable, data.clone()).length(), 13);
    assert_eq!(Frame::new(Reliability::Reliable, data.clone()).length(), 16);
    assert_eq!(Frame::new(Reliability::ReliableOrdered, data.clone()).length(), 20);
    assert_eq!(Frame::new(Reliability::ReliableSequenced, data.clone()).length(), 23);
    let mut split = Frame::new(Reliability::Reliable, data);
    split.split = true;
    assert_eq!(split.length(), 26);
}

#[test]
fn unknown_reliability_is_rejected() {
    let bytes = vec![7u8 << 5, 0, 0];
    let mut r = Reader::new(&bytes);
    assert_eq!(Frame::decode(&mut r).err(), Some(DecodeError::UnknownReliability));
}

#[test]
fn frame_set_round_trip() {
    let mut a = Frame::new(Reliability::Reliable, vec![9, 9]);
    a.message_index = 4;
    let b = Frame::new(Reliability::Unreliable, vec![0x00, 1, 2, 3, 4, 5, 6, 7, 8]);
    let set = FrameSet { header: 0x84, sequence_number: 0x0a0b0c, datas: vec![a, b] };
    let bytes = set.encode();
    assert_eq!(&bytes[0..4], &[0x84, 0x0c, 0x0b, 0x0a]);
    let got = FrameSet::decode(&bytes).unwrap();
    assert_eq!(got.header, 0x84);
    assert_eq!(got.sequence_number, 0x0a0b0c);
    assert_eq!(got.datas.len(), 2);
    assert_eq!(got.datas[0].message_index, 4);
    assert_eq!(got.datas[0].data, vec![9, 9]);
    assert_eq!(got.datas[1].reliability, Reliability::Unreliable);
    assert_eq!(got.datas[1].data.len(), 9);
}

#[test]
fn truncated_frame_set_fails() {
    let set = FrameSet {
        header: 0x84,
        sequence_number: 1,
        datas: vec![Frame::new(Reliability::Reliable, vec![1, 2, 3])],
    };
    let bytes = set.encode();
    assert_eq!(FrameSet::decode(&bytes[..bytes.len() - 1]).err(), Some(DecodeError::UnexpectedEnd));
    assert_eq!(FrameSet::decode(&bytes[..3]).err(), Some(DecodeError::UnexpectedEnd));
}
