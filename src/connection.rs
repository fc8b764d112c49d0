//! The two ends of an established connection, and the server's answers to
//! datagrams from peers it has no session with. Each wraps a [`Session`]
//! and turns what it delivers into events for the embedder.
use vstd::prelude::*;
use crate::codec::Address;
use crate::frame::{Frame, Reliability};
use crate::packet_queue::QueueView;
use crate::handshake::{ConnectionFailedReason, RAKNET_PROTOCOL_VERSION};
use crate::packets::{
    decode, encode, AlreadyConnected, ConnectionRequest, ConnectionRequestAccepted,
    IncompatibleProtocolVersion, NewIncomingConnection, OpenConnectionReply1, OpenConnectionReply2,
    OpenConnectionRequest1, OpenConnectionRequest2, Packet, UnconnectedPing, UnconnectedPong,
};
use crate::session::{
    after_send_to, after_system, disconnect_step, flush_step, handle_step, output_views, timestamp_of,
    update_step, OutputView, Session, SessionOutput, SessionView,
};
use vstd::utf8::encode_utf8;

verus! {

broadcast use crate::codec::lemma_uint_bytes_len;

/// What a connection asks its embedder to do.
pub enum LinkOutput {
    /// Send these bytes to the peer.
    Send(Vec<u8>),
    /// The connection is established.
    Connected,
    /// A message from the peer.
    Packet(Vec<u8>),
    /// The connection is over.
    Disconnected,
    /// The connection could not be completed.
    Failed(ConnectionFailedReason),
}

/// A connection output with its bytes as a sequence.
pub enum LinkView {
    Send(Seq<u8>),
    Connected,
    Packet(Seq<u8>),
    Disconnected,
    Failed(ConnectionFailedReason),
}

impl View for LinkOutput {
    type V = LinkView;

    open spec fn view(&self) -> LinkView {
        match self {
            LinkOutput::Send(b) => LinkView::Send(b@),
            LinkOutput::Connected => LinkView::Connected,
            LinkOutput::Packet(b) => LinkView::Packet(b@),
            LinkOutput::Disconnected => LinkView::Disconnected,
            LinkOutput::Failed(r) => LinkView::Failed(*r),
        }
    }
}

/// The views of a list of connection outputs.
pub open spec fn link_views(s: Seq<LinkOutput>) -> Seq<LinkView> {
    s.map_values(|o: LinkOutput| o@)
}

/// What a confirmed connection makes of a session output.
pub open spec fn confirmed_link(o: OutputView) -> LinkView {
    match o {
        OutputView::Send(b) => LinkView::Send(b),
        OutputView::Deliver(f) => LinkView::Packet(f.data),
        OutputView::End => LinkView::Disconnected,
    }
}

fn now_stamp(now: u64) -> (r: i64)
    ensures
        r == timestamp_of(now),
{
    if now > i64::MAX as u64 {
        i64::MAX
    } else {
        now as i64
    }
}

/// Every GUID but `guid`.
pub open spec fn other_than(guid: u64) -> spec_fn(u64) -> bool {
    |g: u64| g != guid
}

/// The server's answer to a datagram from a peer without a session.
pub enum ListenerReply {
    /// Nothing to answer.
    Ignore,
    /// Send these bytes back.
    Reply(Vec<u8>),
    /// Send these bytes back and open a session with the peer, which
    /// announced this MTU and GUID.
    Admit { reply: Vec<u8>, mtu: u16, guid: u64 },
}

/// The accept path of a server: its GUID, its description string and the
/// GUIDs that have a connection.
pub struct Listener {
    guid: u64,
    motd: String,
    connected_id: Vec<u64>,
}

impl Listener {
    pub closed spec fn spec_guid(&self) -> u64 {
        self.guid
    }

    pub closed spec fn spec_motd(&self) -> Seq<char> {
        self.motd@
    }

    /// The GUIDs with a connection.
    pub closed spec fn connected(&self) -> Seq<u64> {
        self.connected_id@
    }

    pub fn new(guid: u64, motd: String) -> (r: Self)
        ensures
            r.spec_guid() == guid,
            r.spec_motd() == motd@,
            r.connected() == Seq::<u64>::empty(),
    {
        Listener { guid, motd, connected_id: Vec::new() }
    }

    /// Replaces the description string sent in unconnected pongs.
    pub fn set_motd(&mut self, motd: String)
        ensures
            final(self).spec_motd() == motd@,
            final(self).spec_guid() == old(self).spec_guid(),
            final(self).connected() == old(self).connected(),
    {
        self.motd = motd;
    }

    /// Forgets a GUID whose connection ended.
    pub fn connection_end(&mut self, guid: u64)
        ensures
            final(self).connected() == old(self).connected().filter(other_than(guid)),
            final(self).spec_motd() == old(self).spec_motd(),
            final(self).spec_guid() == old(self).spec_guid(),
    {
        let mut kept: Vec<u64> = Vec::new();
        let mut i: usize = 0;
        while i < self.connected_id.len()
            invariant
                i <= self.connected_id@.len(),
                self.connected_id@ == old(self).connected_id@,
                self.motd@ == old(self).motd@,
                self.guid == old(self).guid,
                kept@ == self.connected_id@.take(i as int).filter(other_than(guid)),
            decreases self.connected_id@.len() - i,
        {
            let g = self.connected_id[i];
            proof {
                let t = self.connected_id@.take(i + 1);
                assert(t.drop_last() =~= self.connected_id@.take(i as int));
                assert(t.last() == g);
            }
            let ghost before = kept@;
            if g != guid {
                kept.push(g);
            }
            proof {
                let t = self.connected_id@.take(i + 1);
                let p = other_than(guid);
                assert(p(g) == (g != guid));
                let prev = self.connected_id@.take(i as int);
                assert(t =~= prev.push(g));
                prev.lemma_filter_push(g, p);
                assert(kept@ == t.filter(p));
            }
            i = i + 1;
        }
        assert(self.connected_id@.take(self.connected_id@.len() as int) =~= self.connected_id@);
        self.connected_id = kept;
    }

    fn is_connected(&self, guid: u64) -> (r: bool)
        ensures
            r == self.connected_id@.contains(guid),
    {
        let mut i: usize = 0;
        while i < self.connected_id.len()
            invariant
                i <= self.connected_id@.len(),
                forall|k: int| 0 <= k < i ==> self.connected_id@[k] != guid,
            decreases self.connected_id@.len() - i,
        {
            if self.connected_id[i] == guid {
                return true;
            }
            i = i + 1;
        }
        false
    }

    /// Answers a datagram from `peer`, which has no session: a ping gets a
    /// pong with the description string; a first request gets an
    /// incompatible-version answer or a first reply with the probed MTU; a
    /// second request gets an already-connected answer when its GUID has a
    /// connection, else a second reply and admission. Anything else, or a
    /// datagram that does not decode, is ignored.
    pub fn handle_unconnected(&mut self, bytes: &[u8], peer: Address) -> (r: ListenerReply)
        ensures
            final(self).spec_guid() == old(self).spec_guid(),
            final(self).spec_motd() == old(self).spec_motd(),
            ({
                let g = old(self).spec_guid();
                let body = bytes@.drop_first();
                if bytes@.len() == 0 {
                    r is Ignore && final(self).connected() == old(self).connected()
                } else if bytes@[0] == UnconnectedPing::spec_id() {
                    &&& final(self).connected() == old(self).connected()
                    &&& match UnconnectedPing::spec_read(body) {
                        Ok(ping) => if encode_utf8(old(self).spec_motd()).len() <= u16::MAX {
                            r matches ListenerReply::Reply(b) && b@ == seq![UnconnectedPong::spec_id()]
                                + UnconnectedPong::spec_write((ping.time, g, old(self).spec_motd()))
                        } else {
                            r is Ignore
                        },
                        Err(_) => r is Ignore,
                    }
                } else if bytes@[0] == OpenConnectionRequest1::spec_id() {
                    &&& final(self).connected() == old(self).connected()
                    &&& match OpenConnectionRequest1::spec_read(body) {
                        Ok(req) => if req.protocol_version != RAKNET_PROTOCOL_VERSION {
                            r matches ListenerReply::Reply(b) && b@ == seq![IncompatibleProtocolVersion::spec_id()]
                                + IncompatibleProtocolVersion::spec_write(
                                IncompatibleProtocolVersion { server_protocol: RAKNET_PROTOCOL_VERSION, server_guid: g },
                            )
                        } else {
                            r matches ListenerReply::Reply(b) && b@ == seq![OpenConnectionReply1::spec_id()]
                                + OpenConnectionReply1::spec_write(
                                OpenConnectionReply1 { guid: g, use_security: false, mtu_size: req.mtu_size },
                            )
                        },
                        Err(_) => r is Ignore,
                    }
                } else if bytes@[0] == OpenConnectionRequest2::spec_id() {
                    match OpenConnectionRequest2::spec_read(body) {
                        Ok(req) => if old(self).connected().contains(req.guid) {
                            &&& r matches ListenerReply::Reply(b) && b@ == seq![AlreadyConnected::spec_id()]
                                + AlreadyConnected::spec_write(AlreadyConnected { guid: req.guid })
                            &&& final(self).connected() == old(self).connected()
                        } else {
                            &&& r matches ListenerReply::Admit { reply, mtu, guid } && reply@ == seq![
                                OpenConnectionReply2::spec_id(),
                            ] + OpenConnectionReply2::spec_write(
                                OpenConnectionReply2 { guid: g, address: peer, mtu: req.mtu, encryption_enabled: 0 },
                            ) && mtu == req.mtu && guid == req.guid
                            &&& final(self).connected() == old(self).connected().push(req.guid)
                        },
                        Err(_) => r is Ignore && final(self).connected() == old(self).connected(),
                    }
                } else {
                    r is Ignore && final(self).connected() == old(self).connected()
                }
            }),
    {
        if bytes.len() == 0 {
            return ListenerReply::Ignore;
        }
        let id = bytes[0];
        if id == UnconnectedPing::id() {
            match decode::<UnconnectedPing>(bytes) {
                Ok(ping) => {
                    let raw = self.motd.as_str().as_bytes();
                    if raw.len() > 65535 {
                        return ListenerReply::Ignore;
                    }
                    let pong = UnconnectedPong::new(ping.time, self.guid, self.motd.clone());
                    ListenerReply::Reply(encode(pong))
                },
                Err(_) => ListenerReply::Ignore,
            }
        } else if id == OpenConnectionRequest1::id() {
            match decode::<OpenConnectionRequest1>(bytes) {
                Ok(request1) => {
                    if request1.protocol_version != RAKNET_PROTOCOL_VERSION {
                        let answer = IncompatibleProtocolVersion::new(RAKNET_PROTOCOL_VERSION, self.guid);
                        return ListenerReply::Reply(encode(answer));
                    }
                    let reply = OpenConnectionReply1::new(self.guid, false, request1.mtu_size);
                    ListenerReply::Reply(encode(reply))
                },
                Err(_) => ListenerReply::Ignore,
            }
        } else if id == OpenConnectionRequest2::id() {
            match decode::<OpenConnectionRequest2>(bytes) {
                Ok(request2) => {
                    if self.is_connected(request2.guid) {
                        let answer = AlreadyConnected::new(request2.guid);
                        return ListenerReply::Reply(encode(answer));
                    }
                    let reply2 = OpenConnectionReply2::new(self.guid, peer, request2.mtu, false);
                    self.connected_id.push(request2.guid);
                    ListenerReply::Admit { reply: encode(reply2), mtu: request2.mtu, guid: request2.guid }
                },
                Err(_) => ListenerReply::Ignore,
            }
        } else {
            ListenerReply::Ignore
        }
    }
}

/// The description string of an unconnected pong, if `bytes` is one.
pub fn pong_motd(bytes: &[u8]) -> (r: Option<String>)
    ensures
        bytes@.len() > 0 && bytes@[0] == UnconnectedPong::spec_id() ==> match UnconnectedPong::spec_read(
            bytes@.drop_first(),
        ) {
            Ok(v) => r matches Some(m) && m@ == v.2,
            Err(_) => r is None,
        },
        !(bytes@.len() > 0 && bytes@[0] == UnconnectedPong::spec_id()) ==> r is None,
{
    if bytes.len() == 0 || bytes[0] != UnconnectedPong::id() {
        return None;
    }
    match decode::<UnconnectedPong>(bytes) {
        Ok(pong) => Some(pong.motd),
        Err(_) => None,
    }
}

/// The unconnected ping that a standalone pinger sends at `time`.
pub fn ping_bytes(time: i64) -> (r: Vec<u8>)
    ensures
        r@ == seq![UnconnectedPing::spec_id()] + UnconnectedPing::spec_write(UnconnectedPing { time, guid: 0 }),
{
    encode(UnconnectedPing::new(time, 0))
}


/// One end of a connection: whether it still waits for the other side to
/// complete the connection, and its session.
pub struct PeerView {
    pub awaiting: bool,
    pub session: SessionView,
}

/// What the server's end at `address` does with a message `d` its session
/// delivered at `now`: before the peer confirms, a connection request
/// queues a reliable-ordered acceptance carrying the request's time and
/// `now`, and a confirmation completes the connection; other messages are
/// ignored until then, and afterwards every message goes to the embedder.
pub open spec fn server_frame_step(p: PeerView, address: Address, d: Seq<u8>, now: u64) -> (PeerView, Seq<LinkView>) {
    if !p.awaiting {
        (p, seq![LinkView::Packet(d)])
    } else if d.len() > 0 && d[0] == ConnectionRequest::spec_id() {
        match ConnectionRequest::spec_read(d.drop_first()) {
            Ok(req) => (
                PeerView {
                    session: after_system(
                        p.session,
                        seq![ConnectionRequestAccepted::spec_id()] + ConnectionRequestAccepted::spec_write(
                            ConnectionRequestAccepted {
                                client_address: address,
                                system_index: 0,
                                request_timestamp: req.time,
                                accepted_timestamp: timestamp_of(now),
                            },
                        ),
                        Reliability::ReliableOrdered,
                        now,
                    ),
                    ..p
                },
                Seq::empty(),
            ),
            Err(_) => (p, Seq::empty()),
        }
    } else if d.len() > 0 && d[0] == NewIncomingConnection::spec_id() {
        match NewIncomingConnection::spec_read(d.drop_first()) {
            Ok(_) => (PeerView { awaiting: false, ..p }, seq![LinkView::Connected]),
            Err(_) => (p, Seq::empty()),
        }
    } else {
        (p, Seq::empty())
    }
}

/// The server's end turning its session's outputs into connection outputs:
/// sends pass through, the end becomes a disconnection, and delivered
/// messages are acted on as [`server_frame_step`] says.
pub open spec fn server_relay(p: PeerView, address: Address, outs: Seq<OutputView>, now: u64) -> (PeerView, Seq<LinkView>)
    decreases outs.len(),
{
    if outs.len() == 0 {
        (p, Seq::empty())
    } else {
        let a = server_relay(p, address, outs.drop_last(), now);
        match outs.last() {
            OutputView::Send(b) => (a.0, a.1.push(LinkView::Send(b))),
            OutputView::End => (a.0, a.1.push(LinkView::Disconnected)),
            OutputView::Deliver(f) => {
                let b = server_frame_step(a.0, address, f.data, now);
                (b.0, a.1 + b.1)
            },
        }
    }
}

/// What the client's end with the server at `server` does with a message
/// `d` its session delivered at `now`: the first acceptance is confirmed
/// with a reliable-ordered message carrying the server's address and the
/// request time twice, which is sent at once, and the connection is
/// complete; a repeated acceptance is ignored; anything else goes to the
/// embedder.
pub open spec fn client_frame_step(p: PeerView, server: Address, d: Seq<u8>, now: u64) -> (PeerView, Seq<LinkView>) {
    if d.len() > 0 && d[0] == ConnectionRequestAccepted::spec_id() {
        if p.awaiting {
            match ConnectionRequestAccepted::spec_read(d.drop_first()) {
                Ok(acc) => {
                    let s1 = after_system(
                        p.session,
                        seq![NewIncomingConnection::spec_id()] + NewIncomingConnection::spec_write(
                            NewIncomingConnection {
                                server_address: server,
                                request_timestamp: acc.request_timestamp,
                                accepted_timestamp: acc.request_timestamp,
                            },
                        ),
                        Reliability::ReliableOrdered,
                        now,
                    );
                    let f = flush_step(s1, now);
                    (
                        PeerView { awaiting: false, session: f.0 },
                        f.1.map_values(|o: OutputView| confirmed_link(o)).push(LinkView::Connected),
                    )
                },
                Err(_) => (p, Seq::empty()),
            }
        } else {
            (p, Seq::empty())
        }
    } else {
        (p, seq![LinkView::Packet(d)])
    }
}

/// The client's end turning its session's outputs into connection outputs.
pub open spec fn client_relay(p: PeerView, server: Address, outs: Seq<OutputView>, now: u64) -> (PeerView, Seq<LinkView>)
    decreases outs.len(),
{
    if outs.len() == 0 {
        (p, Seq::empty())
    } else {
        let a = client_relay(p, server, outs.drop_last(), now);
        match outs.last() {
            OutputView::Send(b) => (a.0, a.1.push(LinkView::Send(b))),
            OutputView::End => (a.0, a.1.push(LinkView::Disconnected)),
            OutputView::Deliver(f) => {
                let b = client_frame_step(a.0, server, f.data, now);
                (b.0, a.1 + b.1)
            },
        }
    }
}

/// Appends what a confirmed connection makes of each session output.
fn push_confirmed(outs: Vec<SessionOutput>, out: &mut Vec<LinkOutput>)
    ensures
        link_views(final(out)@) == link_views(old(out)@) + output_views(outs@).map_values(
            |o: OutputView| confirmed_link(o),
        ),
{
    let ghost all = output_views(outs@);
    let ghost total = all.len();
    let ghost start = link_views(out@);
    let mut rest = outs;
    assert(output_views(rest@) =~= all.subrange(0, total as int));
    assert(start + all.take(0).map_values(|o: OutputView| confirmed_link(o)) =~= start);
    while rest.len() > 0
        invariant
            total == all.len(),
            rest@.len() <= total,
            output_views(rest@) == all.subrange(total - rest@.len(), total as int),
            link_views(out@) == start + all.take(total - rest@.len()).map_values(|o: OutputView| confirmed_link(o)),
        decreases rest@.len(),
    {
        let ghost k = total - rest@.len();
        let ghost before = rest@;
        let ghost out_before = link_views(out@);
        let o = rest.remove(0);
        assert(o@ == all[k]) by {
            assert(output_views(before)[0] == all.subrange(k, total as int)[0]);
        }
        assert(rest@ =~= before.subrange(1, before.len() as int));
        assert(output_views(rest@) =~= all.subrange(total - rest@.len(), total as int)) by {
            assert forall|j: int| 0 <= j < rest@.len() implies rest@[j]@ == all[k + 1 + j] by {
                assert(rest@[j] == before[j + 1]);
                assert(output_views(before)[j + 1] == all.subrange(k, total as int)[j + 1]);
            }
        }
        let ghost ov = o@;
        match o {
            SessionOutput::Send(b) => out.push(LinkOutput::Send(b)),
            SessionOutput::End => out.push(LinkOutput::Disconnected),
            SessionOutput::Deliver(f) => out.push(LinkOutput::Packet(f.data)),
        }
        assert(link_views(out@) =~= out_before.push(confirmed_link(ov)));
        assert(all.take(k + 1).map_values(|o: OutputView| confirmed_link(o)) =~= all.take(k).map_values(
            |o: OutputView| confirmed_link(o),
        ).push(confirmed_link(all[k])));
    }
    assert(all.take(total as int) =~= all);
}

/// The server's end of one connection.
pub struct ServerPeer {
    session: Session,
    address: Address,
    guid: u64,
    awaiting: bool,
}

impl ServerPeer {
    pub closed spec fn wf(&self) -> bool {
        self.session.wf()
    }

    /// The connection's state.
    pub closed spec fn peer_view(&self) -> PeerView {
        PeerView { awaiting: self.awaiting, session: self.session@ }
    }

    pub closed spec fn spec_address(&self) -> Address {
        self.address
    }

    pub closed spec fn spec_guid(&self) -> u64 {
        self.guid
    }

    /// A connection admitted at `now` with the peer at `address`, which
    /// announced `guid` and `mtu`.
    pub fn new(mtu: u16, guid: u64, address: Address, now: u64) -> (r: Self)
        ensures
            r.wf(),
            r.peer_view().awaiting,
            r.spec_address() == address,
            r.spec_guid() == guid,
            r.peer_view().session.mtu == mtu,
            r.peer_view().session.last_receive == now,
            !r.peer_view().session.disconnected,
    {
        ServerPeer { session: Session::new(mtu, now), address, guid, awaiting: true }
    }

    pub fn address(&self) -> (r: Address)
        ensures
            r == self.spec_address(),
    {
        self.address
    }

    pub fn guid(&self) -> (r: u64)
        ensures
            r == self.spec_guid(),
    {
        self.guid
    }

    /// Acts on a message the session delivered, as [`server_frame_step`] says.
    fn on_frame(&mut self, frame: Frame, now: u64, out: &mut Vec<LinkOutput>)
        requires
            old(self).wf(),
        ensures
            final(self).wf(),
            final(self).address == old(self).address,
            final(self).guid == old(self).guid,
            final(self).peer_view() == server_frame_step(old(self).peer_view(), old(self).address, frame@.data, now).0,
            link_views(final(out)@) == link_views(old(out)@) + server_frame_step(
                old(self).peer_view(),
                old(self).address,
                frame@.data,
                now,
            ).1,
    {
        let ghost start = link_views(out@);
        let ghost d = frame@.data;
        if !self.awaiting {
            out.push(LinkOutput::Packet(frame.data));
            assert(link_views(out@) =~= start + seq![LinkView::Packet(d)]);
            return;
        }
        assert(link_views(out@) =~= start + Seq::<LinkView>::empty());
        if frame.data.len() == 0 {
            return;
        }
        let id = frame.data[0];
        if id == ConnectionRequest::id() {
            match decode::<ConnectionRequest>(frame.data.as_slice()) {
                Ok(request) => {
                    let accept = ConnectionRequestAccepted::new(self.address, request.time, now_stamp(now));
                    proof {
                        crate::codec::lemma_address_bytes_len(self.address);
                    }
                    self.session.send_system_packet(accept, Reliability::ReliableOrdered, now);
                },
                Err(_) => {},
            }
        } else if id == NewIncomingConnection::id() {
            match decode::<NewIncomingConnection>(frame.data.as_slice()) {
                Ok(_) => {
                    out.push(LinkOutput::Connected);
                    assert(link_views(out@) =~= start + seq![LinkView::Connected]);
                    self.awaiting = false;
                },
                Err(_) => {},
            }
        }
    }

    /// Turns session outputs into connection outputs, as [`server_relay`] says.
    fn relay(&mut self, outs: Vec<SessionOutput>, now: u64) -> (r: Vec<LinkOutput>)
        requires
            old(self).wf(),
        ensures
            final(self).wf(),
            final(self).address == old(self).address,
            final(self).guid == old(self).guid,
            final(self).peer_view() == server_relay(old(self).peer_view(), old(self).address, output_views(outs@), now).0,
            link_views(r@) == server_relay(old(self).peer_view(), old(self).address, output_views(outs@), now).1,
    {
        let ghost all = output_views(outs@);
        let ghost total = all.len();
        let ghost p0 = self.peer_view();
        let mut rest = outs;
        let mut out: Vec<LinkOutput> = Vec::new();
        assert(output_views(rest@) =~= all.subrange(0, total as int));
        assert(link_views(out@) =~= Seq::<LinkView>::empty());
        assert(all.take(0) =~= Seq::<OutputView>::empty());
        while rest.len() > 0
            invariant
                self.wf(),
                self.address == old(self).address,
                self.guid == old(self).guid,
                total == all.len(),
                rest@.len() <= total,
                output_views(rest@) == all.subrange(total - rest@.len(), total as int),
                self.peer_view() == server_relay(p0, self.address, all.take(total - rest@.len()), now).0,
                link_views(out@) == server_relay(p0, self.address, all.take(total - rest@.len()), now).1,
            decreases rest@.len(),
        {
            let ghost k = total - rest@.len();
            let ghost before = rest@;
            let ghost out_before = link_views(out@);
            let o = rest.remove(0);
            assert(o@ == all[k]) by {
                assert(output_views(before)[0] == all.subrange(k, total as int)[0]);
            }
            assert(rest@ =~= before.subrange(1, before.len() as int));
            assert(output_views(rest@) =~= all.subrange(total - rest@.len(), total as int)) by {
                assert forall|j: int| 0 <= j < rest@.len() implies rest@[j]@ == all[k + 1 + j] by {
                    assert(rest@[j] == before[j + 1]);
                    assert(output_views(before)[j + 1] == all.subrange(k, total as int)[j + 1]);
                }
            }
            assert(all.take(k + 1).drop_last() =~= all.take(k));
            assert(all.take(k + 1).last() == all[k]);
            match o {
                SessionOutput::Send(b) => {
                    out.push(LinkOutput::Send(b));
                    assert(link_views(out@) =~= out_before.push(LinkView::Send(b@)));
                },
                SessionOutput::End => {
                    out.push(LinkOutput::Disconnected);
                    assert(link_views(out@) =~= out_before.push(LinkView::Disconnected));
                },
                SessionOutput::Deliver(f) => {
                    self.on_frame(f, now, &mut out);
                },
            }
        }
        assert(all.take(total as int) =~= all);
        out
    }

    /// Takes in a datagram from the peer: the session takes it in as
    /// [`handle_step`] says and its outputs go through [`server_relay`].
    pub fn handle(&mut self, bytes: &[u8], now: u64) -> (r: Vec<LinkOutput>)
        requires
            old(self).wf(),
        ensures
            final(self).wf(),
            ({
                let h = handle_step(old(self).peer_view().session, bytes@, now);
                let p = PeerView { session: h.0, ..old(self).peer_view() };
                &&& final(self).peer_view() == server_relay(p, old(self).spec_address(), h.1, now).0
                &&& link_views(r@) == server_relay(p, old(self).spec_address(), h.1, now).1
            }),
    {
        let outs = self.session.handle(bytes, now);
        self.relay(outs, now)
    }

    /// The periodic tick: the session's tick as [`update_step`] says, its
    /// outputs through [`server_relay`].
    pub fn update(&mut self, now: u64) -> (r: Vec<LinkOutput>)
        requires
            old(self).wf(),
        ensures
            final(self).wf(),
            ({
                let u = update_step(old(self).peer_view().session, now);
                let p = PeerView { session: u.0, ..old(self).peer_view() };
                &&& final(self).peer_view() == server_relay(p, old(self).spec_address(), u.1, now).0
                &&& link_views(r@) == server_relay(p, old(self).spec_address(), u.1, now).1
            }),
    {
        let outs = self.session.update(now);
        self.relay(outs, now)
    }

    /// Queues a message for the peer.
    pub fn send(&mut self, bytes: Vec<u8>, now: u64)
        requires
            old(self).wf(),
            bytes@.len() <= u32::MAX,
        ensures
            final(self).wf(),
            final(self).peer_view() == (PeerView {
                session: after_send_to(old(self).peer_view().session, bytes@, now),
                ..old(self).peer_view()
            }),
    {
        self.session.send_to(bytes, now);
    }

    /// Ends the connection: the session's disconnect as [`disconnect_step`]
    /// says, its sends passed on and its end reported.
    pub fn disconnect(&mut self, now: u64) -> (r: Vec<LinkOutput>)
        requires
            old(self).wf(),
        ensures
            final(self).wf(),
            ({
                let d = disconnect_step(old(self).peer_view().session, now);
                &&& final(self).peer_view() == PeerView { session: d.0, ..old(self).peer_view() }
                &&& link_views(r@) == d.1.map_values(|o: OutputView| confirmed_link(o))
            }),
    {
        let outs = self.session.disconnect(now);
        let mut out: Vec<LinkOutput> = Vec::new();
        assert(link_views(out@) =~= Seq::<LinkView>::empty());
        push_confirmed(outs, &mut out);
        assert(link_views(out@) =~= disconnect_step(old(self).peer_view().session, now).1.map_values(
            |o: OutputView| confirmed_link(o),
        ));
        out
    }

    /// The first-packet timer fired: a peer that has not confirmed the
    /// connection is disconnected.
    pub fn accept_timeout(&mut self, now: u64) -> (r: Vec<LinkOutput>)
        requires
            old(self).wf(),
        ensures
            final(self).wf(),
            old(self).peer_view().awaiting ==> {
                let d = disconnect_step(old(self).peer_view().session, now);
                &&& final(self).peer_view() == PeerView { session: d.0, ..old(self).peer_view() }
                &&& link_views(r@) == d.1.map_values(|o: OutputView| confirmed_link(o))
            },
            !old(self).peer_view().awaiting ==> r@.len() == 0 && final(self).peer_view() == old(self).peer_view(),
    {
        if self.awaiting {
            self.disconnect(now)
        } else {
            Vec::new()
        }
    }
}

/// The client's end of a connection, from the server's admission on.
pub struct ClientLink {
    session: Session,
    server: Address,
    guid: u64,
    awaiting: bool,
}

impl ClientLink {
    pub closed spec fn wf(&self) -> bool {
        self.session.wf()
    }

    /// The connection's state.
    pub closed spec fn peer_view(&self) -> PeerView {
        PeerView { awaiting: self.awaiting, session: self.session@ }
    }

    pub closed spec fn spec_server(&self) -> Address {
        self.server
    }

    /// Opens the session after a successful handshake at `now` and queues
    /// the connection request (the client's GUID, `now`, no security) as a
    /// reliable frame.
    pub fn new(mtu: u16, guid: u64, server: Address, now: u64) -> (r: Self)
        ensures
            r.wf(),
            r.peer_view().awaiting,
            r.spec_server() == server,
            ({
                let s = r.peer_view().session;
                &&& s.mtu == mtu
                &&& !s.disconnected
                &&& s.message_index == 1
                &&& s.queue == crate::session::queue_frame(
                    QueueView {
                        entries: Seq::empty(),
                        max: 0,
                        resend: Seq::empty(),
                        batch: Seq::empty(),
                        batch_size: 0,
                        mtu,
                    },
                    crate::session::system_frame(
                        seq![ConnectionRequest::spec_id()] + ConnectionRequest::spec_write(
                            ConnectionRequest { guid, time: timestamp_of(now), use_security: false },
                        ),
                        Reliability::Reliable,
                        0,
                        0,
                    ),
                    now,
                )
            }),
    {
        let mut session = Session::new(mtu, now);
        let request = ConnectionRequest::new(guid, now_stamp(now), false);
        session.send_system_packet(request, Reliability::Reliable, now);
        ClientLink { session, server, guid, awaiting: true }
    }

    /// Acts on a message the session delivered, as [`client_frame_step`] says.
    fn on_frame(&mut self, frame: Frame, now: u64, out: &mut Vec<LinkOutput>)
        requires
            old(self).wf(),
        ensures
            final(self).wf(),
            final(self).server == old(self).server,
            final(self).peer_view() == client_frame_step(old(self).peer_view(), old(self).server, frame@.data, now).0,
            link_views(final(out)@) == link_views(old(out)@) + client_frame_step(
                old(self).peer_view(),
                old(self).server,
                frame@.data,
                now,
            ).1,
    {
        let ghost start = link_views(out@);
        let ghost d = frame@.data;
        if frame.data.len() > 0 && frame.data[0] == ConnectionRequestAccepted::id() {
            assert(link_views(out@) =~= start + Seq::<LinkView>::empty());
            if !self.awaiting {
                return;
            }
            match decode::<ConnectionRequestAccepted>(frame.data.as_slice()) {
                Ok(accept) => {
                    self.awaiting = false;
                    let confirm = NewIncomingConnection::new(
                        self.server,
                        accept.request_timestamp,
                        accept.request_timestamp,
                    );
                    proof {
                        crate::codec::lemma_address_bytes_len(self.server);
                    }
                    self.session.send_system_packet(confirm, Reliability::ReliableOrdered, now);
                    let flushed = self.session.force_flush(now);
                    push_confirmed(flushed, out);
                    let ghost mid = link_views(out@);
                    out.push(LinkOutput::Connected);
                    assert(link_views(out@) =~= mid.push(LinkView::Connected));
                    assert(link_views(out@) =~= start + client_frame_step(old(self).peer_view(), old(self).server, d, now).1);
                },
                Err(_) => {},
            }
        } else {
            out.push(LinkOutput::Packet(frame.data));
            assert(link_views(out@) =~= start + seq![LinkView::Packet(d)]);
        }
    }

    /// Turns session outputs into connection outputs, as [`client_relay`] says.
    fn relay(&mut self, outs: Vec<SessionOutput>, now: u64) -> (r: Vec<LinkOutput>)
        requires
            old(self).wf(),
        ensures
            final(self).wf(),
            final(self).server == old(self).server,
            final(self).peer_view() == client_relay(old(self).peer_view(), old(self).server, output_views(outs@), now).0,
            link_views(r@) == client_relay(old(self).peer_view(), old(self).server, output_views(outs@), now).1,
    {
        let ghost all = output_views(outs@);
        let ghost total = all.len();
        let ghost p0 = self.peer_view();
        let mut rest = outs;
        let mut out: Vec<LinkOutput> = Vec::new();
        assert(output_views(rest@) =~= all.subrange(0, total as int));
        assert(link_views(out@) =~= Seq::<LinkView>::empty());
        assert(all.take(0) =~= Seq::<OutputView>::empty());
        while rest.len() > 0
            invariant
                self.wf(),
                self.server == old(self).server,
                total == all.len(),
                rest@.len() <= total,
                output_views(rest@) == all.subrange(total - rest@.len(), total as int),
                self.peer_view() == client_relay(p0, self.server, all.take(total - rest@.len()), now).0,
                link_views(out@) == client_relay(p0, self.server, all.take(total - rest@.len()), now).1,
            decreases rest@.len(),
        {
            let ghost k = total - rest@.len();
            let ghost before = rest@;
            let ghost out_before = link_views(out@);
            let o = rest.remove(0);
            assert(o@ == all[k]) by {
                assert(output_views(before)[0] == all.subrange(k, total as int)[0]);
            }
            assert(rest@ =~= before.subrange(1, before.len() as int));
            assert(output_views(rest@) =~= all.subrange(total - rest@.len(), total as int)) by {
                assert forall|j: int| 0 <= j < rest@.len() implies rest@[j]@ == all[k + 1 + j] by {
                    assert(rest@[j] == before[j + 1]);
                    assert(output_views(before)[j + 1] == all.subrange(k, total as int)[j + 1]);
                }
            }
            assert(all.take(k + 1).drop_last() =~= all.take(k));
            assert(all.take(k + 1).last() == all[k]);
            match o {
                SessionOutput::Send(b) => {
                    out.push(LinkOutput::Send(b));
                    assert(link_views(out@) =~= out_before.push(LinkView::Send(b@)));
                },
                SessionOutput::End => {
                    out.push(LinkOutput::Disconnected);
                    assert(link_views(out@) =~= out_before.push(LinkView::Disconnected));
                },
                SessionOutput::Deliver(f) => {
                    self.on_frame(f, now, &mut out);
                },
            }
        }
        assert(all.take(total as int) =~= all);
        out
    }

    /// Takes in a datagram from the server: the session takes it in as
    /// [`handle_step`] says and its outputs go through [`client_relay`].
    pub fn handle(&mut self, bytes: &[u8], now: u64) -> (r: Vec<LinkOutput>)
        requires
            old(self).wf(),
        ensures
            final(self).wf(),
            ({
                let h = handle_step(old(self).peer_view().session, bytes@, now);
                let p = PeerView { session: h.0, ..old(self).peer_view() };
                &&& final(self).peer_view() == client_relay(p, old(self).spec_server(), h.1, now).0
                &&& link_views(r@) == client_relay(p, old(self).spec_server(), h.1, now).1
            }),
    {
        let outs = self.session.handle(bytes, now);
        self.relay(outs, now)
    }

    /// The periodic tick: the session's tick as [`update_step`] says, its
    /// outputs through [`client_relay`].
    pub fn update(&mut self, now: u64) -> (r: Vec<LinkOutput>)
        requires
            old(self).wf(),
        ensures
            final(self).wf(),
            ({
                let u = update_step(old(self).peer_view().session, now);
                let p = PeerView { session: u.0, ..old(self).peer_view() };
                &&& final(self).peer_view() == client_relay(p, old(self).spec_server(), u.1, now).0
                &&& link_views(r@) == client_relay(p, old(self).spec_server(), u.1, now).1
            }),
    {
        let outs = self.session.update(now);
        self.relay(outs, now)
    }

    /// Queues a message for the server.
    pub fn send(&mut self, bytes: Vec<u8>, now: u64)
        requires
            old(self).wf(),
            bytes@.len() <= u32::MAX,
        ensures
            final(self).wf(),
            final(self).peer_view() == (PeerView {
                session: after_send_to(old(self).peer_view().session, bytes@, now),
                ..old(self).peer_view()
            }),
    {
        self.session.send_to(bytes, now);
    }

    /// Ends the connection: the session's disconnect as [`disconnect_step`]
    /// says, its sends passed on and its end reported.
    pub fn disconnect(&mut self, now: u64) -> (r: Vec<LinkOutput>)
        requires
            old(self).wf(),
        ensures
            final(self).wf(),
            ({
                let d = disconnect_step(old(self).peer_view().session, now);
                &&& final(self).peer_view() == PeerView { session: d.0, ..old(self).peer_view() }
                &&& link_views(r@) == d.1.map_values(|o: OutputView| confirmed_link(o))
            }),
    {
        let outs = self.session.disconnect(now);
        let mut out: Vec<LinkOutput> = Vec::new();
        assert(link_views(out@) =~= Seq::<LinkView>::empty());
        push_confirmed(outs, &mut out);
        assert(link_views(out@) =~= disconnect_step(old(self).peer_view().session, now).1.map_values(
            |o: OutputView| confirmed_link(o),
        ));
        out
    }

    /// The acceptance timer fired: if the server has not accepted, the
    /// attempt fails with a timeout and a later acceptance is ignored.
    pub fn connection_timeout(&mut self) -> (r: Vec<LinkOutput>)
        ensures
            old(self).peer_view().awaiting ==> link_views(r@) == seq![LinkView::Failed(ConnectionFailedReason::Timeout)]
                && final(self).peer_view() == (PeerView { awaiting: false, ..old(self).peer_view() }),
            !old(self).peer_view().awaiting ==> r@.len() == 0 && final(self).peer_view() == old(self).peer_view(),
            final(self).wf() == old(self).wf(),
    {
        let mut out: Vec<LinkOutput> = Vec::new();
        if self.awaiting {
            self.awaiting = false;
            out.push(LinkOutput::Failed(ConnectionFailedReason::Timeout));
            assert(link_views(out@) =~= seq![LinkView::Failed(ConnectionFailedReason::Timeout)]);
        }
        out
    }
}

} // verus!
