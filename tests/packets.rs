use raknet::codec::{Address, DecodeError};
use raknet::packets::{
    decode, encode, Ack, AlreadyConnected, ConnectedPing, ConnectedPong, ConnectionRequest,
    ConnectionRequestAccepted, Disconnected, IncompatibleProtocolVersion, Nack,
    NewIncomingConnection, OpenConnectionReply1, OpenConnectionReply2, OpenConnectionRequest1,
    OpenConnectionRequest2, UnconnectedPing, UnconnectedPong,
};

fn v4() -> Address {
    Address::V4 { ip: [192, 168, 1, 20], port: 19132 }
}

fn v6() -> Address {
    Address::V6 { ip: [0xfe, 0x80, 0, 0, 0, 0, 0, 0, 0x02, 0x11, 0x22, 0xff, 0xfe, 0x33, 0x44, 0x55], port: 1 }
}

#[test]
fn connected_ping_and_pong_round_trip() {
    let bytes = encode(ConnectedPing::new(1234567890123));
    assert_eq!(bytes[0], 0x00);
    assert_eq!(bytes.len(), 9);
    let p: ConnectedPing = decode(&bytes).unwrap();
    assert_eq!(p.client_timestamp, 1234567890123);

    let bytes = encode(ConnectedPong::new(-5, 77));
    assert_eq!(bytes[0], 0x03);
    let p: ConnectedPong = decode(&bytes).unwrap();
    assert_eq!((p.client_timestamp, p.server_timestamp), (-5, 77));
}

#[test]
fn unconnected_ping_round_trip() {
    let bytes = encode(UnconnectedPing::new(99, 114514));
    assert_eq!(bytes[0], 0x01);
    assert_eq!(bytes.len(), 33);
    let p: UnconnectedPing = decode(&bytes).unwrap();
    assert_eq!(p, UnconnectedPing::new(99, 114514));
}

#[test]
fn unconnected_pong_round_trip_with_motd_extremes() {
    for motd in [String::new(), String::from("MCPE;Dedicated Server;390;1.14.60;0;10;"), "x".repeat(65535)] {
        let bytes = encode(UnconnectedPong::new(7, 8, motd.clone()));
        assert_eq!(bytes[0], 0x1c);
        assert_eq!(bytes.len(), 35 + motd.len());
        let p: UnconnectedPong = decode(&bytes).unwrap();
        assert_eq!((p.time, p.guid), (7, 8));
        assert_eq!(p.motd, motd);
    }
}

#[test]
fn open_connection_request1_round_trip() {
    for mtu in [1496u16, 1204, 584, 49] {
        let bytes = encode(OpenConnectionRequest1::new(10, mtu));
        assert_eq!(bytes[0], 0x05);
        assert_eq!(bytes.len(), mtu as usize - 31);
        let p: OpenConnectionRequest1 = decode(&bytes).unwrap();
        assert_eq!(p, OpenConnectionRequest1::new(10, mtu));
    }
}

#[test]
fn open_connection_replies_round_trip() {
    let bytes = encode(OpenConnectionReply1::new(0, false, 1498));
    assert_eq!(bytes[0], 0x06);
    let p: OpenConnectionReply1 = decode(&bytes).unwrap();
    assert_eq!(p, OpenConnectionReply1::new(0, false, 1498));

    for address in [v4(), v6()] {
        let bytes = encode(OpenConnectionReply2::new(42, address, 1400, false));
        assert_eq!(bytes[0], 0x08);
        let p: OpenConnectionReply2 = decode(&bytes).unwrap();
        assert_eq!(p, OpenConnectionReply2::new(42, address, 1400, false));
    }
}

#[test]
fn open_connection_request2_round_trip() {
    for address in [v4(), v6()] {
        let bytes = encode(OpenConnectionRequest2::new(address, 1492, 114514));
        assert_eq!(bytes[0], 0x07);
        let p: OpenConnectionRequest2 = decode(&bytes).unwrap();
        assert_eq!(p, OpenConnectionRequest2::new(address, 1492, 114514));
    }
}

#[test]
fn connection_request_and_acceptance_round_trip() {
    let bytes = encode(ConnectionRequest::new(114514, 1000, false));
    assert_eq!(bytes[0], 0x09);
    let p: ConnectionRequest = decode(&bytes).unwrap();
    assert_eq!(p, ConnectionRequest::new(114514, 1000, false));

    for address in [v4(), v6()] {
        let accept = ConnectionRequestAccepted::new(address, 1000, 2000);
        let bytes = encode(accept);
        assert_eq!(bytes[0], 0x10);
        let p: ConnectionRequestAccepted = decode(&bytes).unwrap();
        assert_eq!(p, accept);

        let confirm = NewIncomingConnection::new(address, 1000, 1000);
        let bytes = encode(confirm);
        assert_eq!(bytes[0], 0x13);
        let p: NewIncomingConnection = decode(&bytes).unwrap();
        assert_eq!(p, confirm);
    }
}

#[test]
fn refusals_round_trip() {
    let bytes = encode(AlreadyConnected::new(114514));
    assert_eq!(bytes[0], 0x12);
    let p: AlreadyConnected = decode(&bytes).unwrap();
    assert_eq!(p.guid, 114514);

    let bytes = encode(IncompatibleProtocolVersion::new(10, 9));
    assert_eq!(bytes[0], 0x19);
    let p: IncompatibleProtocolVersion = decode(&bytes).unwrap();
    assert_eq!(p, IncompatibleProtocolVersion::new(10, 9));

    let bytes = encode(Disconnected {});
    assert_eq!(bytes, vec![0x15]);
    let p: Disconnected = decode(&bytes).unwrap();
    assert_eq!(p, Disconnected {});
}

#[test]
fn ack_and_nack_round_trip() {
    let bytes = encode(Ack::new((3, 3)));
    assert_eq!(bytes, vec![0xc0, 0, 1, 1, 3, 0, 0]);
    let p: Ack = decode(&bytes).unwrap();
    assert_eq!(p.get_all(), vec![3]);

    let bytes = encode(Ack::new((1, 0x10203)));
    assert_eq!(bytes, vec![0xc0, 0, 1, 0, 1, 0, 0, 3, 2, 1]);
    let p: Ack = decode(&bytes).unwrap();
    assert_eq!(p, Ack::new((1, 0x10203)));

    let bytes = encode(Nack::new((5, 7)));
    assert_eq!(bytes[0], 0xa0);
    let p: Nack = decode(&bytes).unwrap();
    assert_eq!(p.get_all(), vec![5, 6, 7]);
}

#[test]
fn decode_errors() {
    assert_eq!(decode::<ConnectedPing>(&[]).err(), Some(DecodeError::UnexpectedEnd));
    assert_eq!(decode::<ConnectedPing>(&[0, 1, 2]).err(), Some(DecodeError::UnexpectedEnd));
    let mut long = vec![0x05u8];
    long.extend(vec![0u8; 65520]);
    assert_eq!(decode::<OpenConnectionRequest1>(&long).err(), Some(DecodeError::SizeOverflow));
    let mut pong = encode(UnconnectedPong::new(1, 2, String::from("ab")));
    let n = pong.len();
    pong[n - 1] = 0xff;
    assert_eq!(decode::<UnconnectedPong>(&pong).err(), Some(DecodeError::InvalidUtf8));
}
