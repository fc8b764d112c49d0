use raknet::codec::Address;
use raknet::connection::{pong_motd, ping_bytes, ClientLink, LinkOutput, Listener, ListenerReply, ServerPeer};
use raknet::frame::{Frame, FrameSet, Reliability};
use raknet::handshake::{ConnectionFailedReason, Handshake, HandshakeOutcome, RAKNET_PROTOCOL_VERSION};
use raknet::packets::{
    decode, encode, AlreadyConnected, IncompatibleProtocolVersion, Nack, OpenConnectionReply1,
    OpenConnectionReply2, OpenConnectionRequest1, OpenConnectionRequest2, UnconnectedPong,
};
use raknet::session::{Session, SessionOutput};

fn server_addr() -> Address {
    Address::V4 { ip: [127, 0, 0, 1], port: 19132 }
}

fn client_addr() -> Address {
    Address::V4 { ip: [127, 0, 0, 1], port: 50000 }
}

fn sends(outs: &[LinkOutput]) -> Vec<Vec<u8>> {
    let mut v = Vec::new();
    for o in outs {
        if let LinkOutput::Send(b) = o {
            v.push(b.clone());
        }
    }
    v
}

fn session_sends(outs: &[SessionOutput]) -> Vec<Vec<u8>> {
    let mut v = Vec::new();
    for o in outs {
        if let SessionOutput::Send(b) = o {
            v.push(b.clone());
        }
    }
    v
}

fn request1_mtu(bytes: &[u8]) -> u16 {
    assert_eq!(bytes[0], 0x05);
    (bytes.len() + 31) as u16
}

#[test]
fn handshake_times_out_after_mtu_ladder() {
    let mut h = Handshake::new(114514, server_addr(), client_addr());
    let mut mtus = Vec::new();
    let step = h.start();
    mtus.push(request1_mtu(&step.send.unwrap()));
    loop {
        let step = h.on_retry();
        if let Some(outcome) = step.outcome {
            assert_eq!(outcome, HandshakeOutcome::Failed(ConnectionFailedReason::Timeout));
            break;
        }
        assert!(step.retry);
        mtus.push(request1_mtu(&step.send.unwrap()));
    }
    assert_eq!(mtus.len(), 13);
    assert_eq!(&mtus[0..4], &[1496; 4]);
    assert_eq!(&mtus[4..8], &[1204; 4]);
    assert_eq!(&mtus[8..13], &[584; 5]);
    assert!(h.on_retry().send.is_none());
}

#[test]
fn handshake_overall_timer() {
    let mut h = Handshake::new(1, server_addr(), client_addr());
    h.start();
    let step = h.on_timeout();
    assert_eq!(step.outcome, Some(HandshakeOutcome::Failed(ConnectionFailedReason::Timeout)));
}

#[test]
fn handshake_success_adds_headroom() {
    let mut h = Handshake::new(114514, server_addr(), client_addr());
    h.start();
    let reply1 = encode(OpenConnectionReply1::new(0, false, 1498));
    let step = h.on_datagram(&reply1);
    let request2: OpenConnectionRequest2 = decode(&step.send.unwrap()).unwrap();
    assert_eq!(request2, OpenConnectionRequest2::new(client_addr(), 1498, 114514));
    let reply2 = encode(OpenConnectionReply2::new(0, client_addr(), 1400, false));
    let step = h.on_datagram(&reply2);
    assert_eq!(step.outcome, Some(HandshakeOutcome::Success(1496)));
}

#[test]
fn handshake_refusals() {
    let mut h = Handshake::new(114514, server_addr(), client_addr());
    h.start();
    let step = h.on_datagram(&encode(IncompatibleProtocolVersion::new(0, 0)));
    assert_eq!(step.outcome, Some(HandshakeOutcome::Failed(ConnectionFailedReason::DifferentVersion)));

    let mut h = Handshake::new(114514, server_addr(), client_addr());
    h.start();
    let step = h.on_datagram(&encode(AlreadyConnected::new(0)));
    assert_eq!(step.outcome, Some(HandshakeOutcome::Failed(ConnectionFailedReason::AlreadyConnected)));
}

#[test]
fn listener_rejects_other_protocol_versions() {
    let mut server = Listener::new(7, String::from("motd"));
    let reply = server.handle_unconnected(&encode(OpenConnectionRequest1::new(0xff, 1496)), client_addr());
    match reply {
        ListenerReply::Reply(b) => {
            let refusal: IncompatibleProtocolVersion = decode(&b).unwrap();
            assert_eq!(refusal, IncompatibleProtocolVersion::new(RAKNET_PROTOCOL_VERSION, 7));
        },
        _ => panic!("expected a reply"),
    }
    let reply = server.handle_unconnected(&encode(OpenConnectionRequest1::new(RAKNET_PROTOCOL_VERSION, 1496)), client_addr());
    match reply {
        ListenerReply::Reply(b) => {
            let reply1: OpenConnectionReply1 = decode(&b).unwrap();
            assert_eq!(reply1, OpenConnectionReply1::new(7, false, 1496));
        },
        _ => panic!("expected a reply"),
    }
}

#[test]
fn listener_rejects_duplicate_guid() {
    let mut server = Listener::new(7, String::from("motd"));
    let request2 = encode(OpenConnectionRequest2::new(server_addr(), 1492, 114514));
    match server.handle_unconnected(&request2, client_addr()) {
        ListenerReply::Admit { reply, mtu, guid } => {
            assert_eq!((mtu, guid), (1492, 114514));
            let reply2: OpenConnectionReply2 = decode(&reply).unwrap();
            assert_eq!(reply2, OpenConnectionReply2::new(7, client_addr(), 1492, false));
        },
        _ => panic!("expected admission"),
    }
    let other = Address::V4 { ip: [127, 0, 0, 1], port: 50001 };
    match server.handle_unconnected(&request2, other) {
        ListenerReply::Reply(b) => {
            let refusal: AlreadyConnected = decode(&b).unwrap();
            assert_eq!(refusal.guid, 114514);
            let mut h = Handshake::new(114514, server_addr(), client_addr());
            h.start();
            let step = h.on_datagram(&b);
            assert_eq!(step.outcome, Some(HandshakeOutcome::Failed(ConnectionFailedReason::AlreadyConnected)));
        },
        _ => panic!("expected a refusal"),
    }
    server.connection_end(114514);
    assert!(matches!(server.handle_unconnected(&request2, other), ListenerReply::Admit { .. }));
}

#[test]
fn unconnected_ping_gets_motd() {
    let motd = String::from("MCPE;Steve;390;1.14.60;0;10;");
    let mut server = Listener::new(1, motd.clone());
    match server.handle_unconnected(&ping_bytes(123), client_addr()) {
        ListenerReply::Reply(b) => {
            assert_eq!(b[0], 0x1c);
            let pong: UnconnectedPong = decode(&b).unwrap();
            assert_eq!(pong.time, 123);
            assert_eq!(pong_motd(&b), Some(motd));
        },
        _ => panic!("expected a pong"),
    }
    server.set_motd(String::from("other"));
    match server.handle_unconnected(&ping_bytes(1), client_addr()) {
        ListenerReply::Reply(b) => assert_eq!(pong_motd(&b), Some(String::from("other"))),
        _ => panic!("expected a pong"),
    }
    assert_eq!(pong_motd(&[0x1c, 0]), None);
    assert_eq!(pong_motd(&[0x01]), None);
}

/// Carries every datagram of `from` to `to`, returning what `to` emitted.
fn carry_to_server(outs: &[LinkOutput], to: &mut ServerPeer, now: u64) -> Vec<LinkOutput> {
    let mut got = Vec::new();
    for b in sends(outs) {
        got.extend(to.handle(&b, now));
    }
    got
}

fn carry_to_client(outs: &[LinkOutput], to: &mut ClientLink, now: u64) -> Vec<LinkOutput> {
    let mut got = Vec::new();
    for b in sends(outs) {
        got.extend(to.handle(&b, now));
    }
    got
}

#[test]
fn basic_send_and_receive() {
    let mut client = ClientLink::new(1496, 114514, server_addr(), 0);
    let mut server = ServerPeer::new(1496, 114514, client_addr(), 0);
    let mut now = 10;
    let out = client.update(now);
    let back = carry_to_server(&out, &mut server, now);
    assert!(back.is_empty());
    let out = server.update(now);
    let back = carry_to_client(&out, &mut client, now);
    assert!(back.iter().any(|o| matches!(o, LinkOutput::Connected)));
    let got = carry_to_server(&back, &mut server, now);
    assert!(got.iter().any(|o| matches!(o, LinkOutput::Connected)));

    let payload: Vec<u8> = (0..4000u32).map(|i| 0xfe - (i % 200) as u8).collect();
    client.send(payload.clone(), now);
    now += 10;
    let out = client.update(now);
    assert!(sends(&out).len() >= 3);
    let got = carry_to_server(&out, &mut server, now);
    let packets: Vec<Vec<u8>> = got
        .iter()
        .filter_map(|o| if let LinkOutput::Packet(b) = o { Some(b.clone()) } else { None })
        .collect();
    assert_eq!(packets.len(), 1, "delivered {} messages", packets.len());
    assert_eq!(packets[0].len(), payload.len());
    assert!(packets[0] == payload, "payload differs");

    now += 5000;
    server.send(b"Hello".to_vec(), now);
    let out = server.update(now);
    let got = carry_to_client(&out, &mut client, now);
    assert!(got.iter().any(|o| matches!(o, LinkOutput::Packet(b) if b == b"Hello")));

    let out = client.disconnect(now);
    assert!(matches!(out.last(), Some(LinkOutput::Disconnected)));
    let got = carry_to_server(&out, &mut server, now);
    assert!(got.iter().any(|o| matches!(o, LinkOutput::Disconnected)));
}

#[test]
fn nack_triggers_retransmit_under_new_sequence() {
    let mut s = Session::new(1496, 0);
    s.send_to(vec![0xfe; 20], 0);
    let out = s.update(10);
    let datagrams = session_sends(&out);
    assert_eq!(datagrams.len(), 1);
    let first = FrameSet::decode(&datagrams[0]).unwrap();
    let nack = encode(Nack::new((first.sequence_number, first.sequence_number)));
    assert!(s.handle(&nack, 11).is_empty());
    let again = session_sends(&s.update(20));
    assert_eq!(again.len(), 1);
    let second = FrameSet::decode(&again[0]).unwrap();
    assert_ne!(second.sequence_number, first.sequence_number);
    assert_eq!(second.datas[0].data, first.datas[0].data);
}

#[test]
fn session_answers_ping_and_times_out() {
    let mut s = Session::new(1496, 0);
    let ping = encode(raknet::packets::ConnectedPing::new(55));
    let set = FrameSet { header: 0x84, sequence_number: 0, datas: vec![Frame::new(Reliability::Unreliable, ping)] };
    assert!(s.handle(&set.encode(), 5).is_empty());
    let out = session_sends(&s.update(6));
    let mut saw_pong = false;
    for d in &out {
        if d[0] & 0x80 != 0 && d[0] & 0x60 == 0 {
            let fs = FrameSet::decode(d).unwrap();
            for f in fs.datas {
                if f.data[0] == 0x03 {
                    let pong: raknet::packets::ConnectedPong = decode(&f.data).unwrap();
                    assert_eq!(pong.client_timestamp, 55);
                    saw_pong = true;
                }
            }
        }
    }
    assert!(saw_pong);
    let out = s.update(10_005);
    assert!(!matches!(out.last(), Some(SessionOutput::End)));
    let out = s.update(10_006);
    assert!(matches!(out.last(), Some(SessionOutput::End)));
    assert!(s.update(20_000).is_empty());
}

#[test]
fn client_acceptance_timeout() {
    let mut client = ClientLink::new(1496, 1, server_addr(), 0);
    let out = client.connection_timeout();
    assert!(matches!(out.as_slice(), [LinkOutput::Failed(ConnectionFailedReason::Timeout)]));
    assert!(client.connection_timeout().is_empty());
}

#[test]
fn session_fragments_reassemble() {
    let mut a = Session::new(1496, 0);
    let mut b = Session::new(1496, 0);
    let payload: Vec<u8> = (0..4000u32).map(|i| 0xfe - (i % 200) as u8).collect();
    a.send_to(payload.clone(), 0);
    let datagrams = session_sends(&a.update(10));
    assert_eq!(datagrams.len(), 3);
    let mut delivered = Vec::new();
    for d in &datagrams {
        let set = FrameSet::decode(d).unwrap();
        assert_eq!(set.datas.len(), 1);
        assert!(set.datas[0].split);
        for o in b.handle(d, 11) {
            match o {
                SessionOutput::Deliver(f) => delivered.push(f.data),
                SessionOutput::Send(_) => println!("send"),
                SessionOutput::End => println!("end"),
            }
        }
    }
    assert_eq!(delivered.len(), 1);
    assert!(delivered[0] == payload);
}

#[test]
fn unconfirmed_peer_is_dropped_after_accept_timer() {
    let mut peer = ServerPeer::new(1496, 9, client_addr(), 0);
    assert_eq!(peer.guid(), 9);
    assert_eq!(peer.address(), client_addr());
    let out = peer.accept_timeout(5000);
    assert!(matches!(out.last(), Some(LinkOutput::Disconnected)));
    assert!(peer.update(5010).is_empty());
}

#[test]
fn empty_datagrams_are_ignored() {
    let mut s = Session::new(1496, 0);
    assert!(s.handle(&[], 1).is_empty());
    let mut h = Handshake::new(1, server_addr(), client_addr());
    h.start();
    let step = h.on_datagram(&[]);
    assert!(step.send.is_none() && step.outcome.is_none());
    let mut l = Listener::new(1, String::new());
    assert!(matches!(l.handle_unconnected(&[], client_addr()), ListenerReply::Ignore));
    assert!(matches!(l.handle_unconnected(&[0x42, 1, 2], client_addr()), ListenerReply::Ignore));
}

fn ordered_set(seq: u32, order: u32, byte: u8) -> Vec<u8> {
    let mut f = Frame::new(Reliability::ReliableOrdered, vec![0xfe, byte]);
    f.message_index = order;
    f.order_index = order;
    FrameSet { header: 0x84, sequence_number: seq, datas: vec![f] }.encode()
}

fn delivered(outs: &[SessionOutput]) -> Vec<u8> {
    let mut v = Vec::new();
    for o in outs {
        if let SessionOutput::Deliver(f) = o {
            v.push(f.data[1]);
        }
    }
    v
}

#[test]
fn session_delivers_ordered_frames_in_order() {
    let mut s = Session::new(1496, 0);
    let first = delivered(&s.handle(&ordered_set(1, 1, 2), 1));
    assert!(first.is_empty());
    let second = delivered(&s.handle(&ordered_set(0, 0, 1), 2));
    assert_eq!(second, vec![1, 2]);
    // A retransmitted copy is not delivered again.
    assert!(delivered(&s.handle(&ordered_set(2, 1, 2), 3)).is_empty());
}

#[test]
fn ended_session_stays_silent() {
    let mut s = Session::new(1496, 0);
    let notice = FrameSet {
        header: 0x84,
        sequence_number: 0,
        datas: vec![Frame::new(Reliability::Reliable, encode(raknet::packets::Disconnected {}))],
    }
    .encode();
    let out = s.handle(&notice, 1);
    assert!(matches!(out.as_slice(), [SessionOutput::End]));
    assert!(s.handle(&notice, 2).is_empty());
    assert!(s.handle(&ordered_set(1, 0, 9), 3).is_empty());
    assert!(s.update(4).is_empty());
}

#[test]
fn timeout_sends_disconnect_notice() {
    let mut s = Session::new(1496, 0);
    let out = s.update(10_001);
    assert!(matches!(out.last(), Some(SessionOutput::End)));
    let mut saw_notice = false;
    for d in session_sends(&out) {
        if d[0] & 0x80 != 0 && d[0] & 0x60 == 0 {
            for f in FrameSet::decode(&d).unwrap().datas {
                if f.data == vec![0x15] {
                    assert_eq!(f.reliability, Reliability::ReliableOrdered);
                    saw_notice = true;
                }
            }
        }
    }
    assert!(saw_notice);
}

#[test]
fn server_peer_accepts_connection_request() {
    let mut peer = ServerPeer::new(1496, 114514, client_addr(), 0);
    let request = encode(raknet::packets::ConnectionRequest::new(114514, 777, false));
    let set = FrameSet { header: 0x84, sequence_number: 0, datas: vec![Frame::new(Reliability::Reliable, request)] };
    assert!(peer.handle(&set.encode(), 5).is_empty());
    let out = peer.update(6);
    let mut accepted = false;
    for d in sends(&out) {
        if d[0] & 0x80 != 0 && d[0] & 0x60 == 0 {
            for f in FrameSet::decode(&d).unwrap().datas {
                if f.data[0] == 0x10 {
                    let a: raknet::packets::ConnectionRequestAccepted = decode(&f.data).unwrap();
                    assert_eq!(a.client_address, client_addr());
                    assert_eq!(a.request_timestamp, 777);
                    assert_eq!(f.reliability, Reliability::ReliableOrdered);
                    accepted = true;
                }
            }
        }
    }
    assert!(accepted);
}
