//! The per-connection session: outbound message framing and fragmentation,
//! inbound dispatch, acknowledgements, keep-alive and teardown. Time is
//! handed in as milliseconds; what the session wants sent or delivered
//! comes back as a list of outputs.
use vstd::prelude::*;
use crate::ack_queue::{ack_ranges, ack_missing, after_add, ACKQueue, AckState};
use crate::received_queue::{
    after_receive, index_after, lemma_distance_after, lemma_run_from, received_wf, released_keys,
    release_count, release_out, release_state, ReceivedQueue, ReceivedView,
};
use crate::split_queue::{
    full_splits, joined, open_splits, queue_after_add, split_full, split_queue_wf, split_wf, SplitPacketQueue,
    SplitView,
};
use crate::frame::{
    frame_header_len, frame_set_bytes, frame_set_read, Frame, FrameSet, FrameSetView, FrameView,
    Reliability, INDEX_LIMIT, MAX_FRAME_DATA,
};
use crate::packet_queue::{
    after_ack, after_add_frame, after_move, after_tick, after_moves, dispatch_all, queue_wf, undispatched,
    PacketQueue, QueueView,
};
use crate::packets::{
    decode, encode, range_record_bytes, range_record_read, seq_range, Ack, ConnectedPing, ConnectedPong, Disconnected, Nack,
    Packet,
};

verus! {

broadcast use crate::codec::lemma_uint_bytes_len;

/// A session output, with its bytes or frame as a view.
pub enum OutputView {
    Send(Seq<u8>),
    Deliver(FrameView),
    End,
}

/// What a session asks its owner to do.
pub enum SessionOutput {
    /// Send these bytes to the peer.
    Send(Vec<u8>),
    /// A message frame for the owner to act on.
    Deliver(Frame),
    /// The session has ended.
    End,
}

impl View for SessionOutput {
    type V = OutputView;

    open spec fn view(&self) -> OutputView {
        match self {
            SessionOutput::Send(b) => OutputView::Send(b@),
            SessionOutput::Deliver(f) => OutputView::Deliver(f@),
            SessionOutput::End => OutputView::End,
        }
    }
}

/// The views of a list of outputs.
pub open spec fn output_views(s: Seq<SessionOutput>) -> Seq<OutputView> {
    s.map_values(|o: SessionOutput| o@)
}

/// Milliseconds without inbound frames after which a session ends.
pub const RECEIVE_TIMEOUT_MS: u64 = 10000;

/// Milliseconds between keep-alive pings.
pub const PING_INTERVAL_MS: u64 = 3000;

/// Header bit of an acknowledgement datagram.
pub const ACK_FLAG: u8 = 0x40;

/// Header bit of a negative acknowledgement datagram.
pub const NACK_FLAG: u8 = 0x20;

/// Header bit of a frame set datagram.
pub const DATAGRAM_FLAG: u8 = 0x80;

/// Sends of the wire forms of frame sets.
pub open spec fn frame_set_sends(sets: Seq<FrameSetView>) -> Seq<OutputView> {
    sets.map_values(|v: FrameSetView| OutputView::Send(frame_set_bytes(v)))
}

/// The datagram that acknowledges the range `r`.
pub open spec fn ack_bytes(r: (u32, u32)) -> Seq<u8> {
    seq![0xc0u8] + range_record_bytes(1, r.0 == r.1, r)
}

/// The datagram that reports sequence number `m` as missing.
pub open spec fn nack_bytes(m: u32) -> Seq<u8> {
    seq![0xa0u8] + range_record_bytes(1, true, (m, m))
}

/// The acknowledgement sends of a flush: one per range, then one negative
/// acknowledgement per missing number.
pub open spec fn ack_sends(ranges: Seq<(u32, u32)>, missing: Seq<u32>) -> Seq<OutputView> {
    ranges.map_values(|r: (u32, u32)| OutputView::Send(ack_bytes(r))) + missing.map_values(
        |m: u32| OutputView::Send(nack_bytes(m)),
    )
}

/// The packet queue after frame `f` is queued at `now`.
pub open spec fn queue_frame(q: QueueView, f: FrameView, now: u64) -> QueueView {
    after_add_frame(q, f, (frame_header_len(f.reliability, f.split) + f.data.len()) as nat, now)
}

/// The frame that carries a control message `data` with class `rel`,
/// taking the next message and order indices where the class calls for them.
pub open spec fn system_frame(data: Seq<u8>, rel: Reliability, message_index: u32, order_index: u32) -> FrameView {
    FrameView {
        reliability: rel,
        message_index: if rel.is_reliable() {
            message_index
        } else {
            0
        },
        sequence_index: 0,
        order_index: if rel.is_sequenced_or_ordered() {
            order_index
        } else {
            0
        },
        split: false,
        split_count: 0,
        split_index: 0,
        split_id: 0,
        data,
    }
}

/// A millisecond clock reading as a wire timestamp.
pub open spec fn timestamp_of(now: u64) -> i64 {
    if now > i64::MAX as u64 {
        i64::MAX
    } else {
        now as i64
    }
}

fn timestamp(now: u64) -> (r: i64)
    ensures
        r == timestamp_of(now),
{
    if now > i64::MAX as u64 {
        i64::MAX
    } else {
        now as i64
    }
}

/// The packet queue after each of `keys` is negatively acknowledged in turn at `now`.
pub open spec fn queue_after_nacks(q: QueueView, keys: Seq<u32>, now: u64) -> QueueView
    decreases keys.len(),
{
    if keys.len() == 0 {
        q
    } else {
        after_move(queue_after_nacks(q, keys.drop_last(), now), keys.last(), now)
    }
}

/// The packet queue after each of `keys` is acknowledged in turn.
pub open spec fn queue_after_acks(q: QueueView, keys: Seq<u32>) -> QueueView
    decreases keys.len(),
{
    if keys.len() == 0 {
        q
    } else {
        after_ack(queue_after_acks(q, keys.drop_last()), keys.last())
    }
}

/// Space that a datagram's and an ordered frame's headers take from the MTU
/// when a message goes out whole.
pub const SINGLE_OVERHEAD: u16 = 46;

/// Space that the headers of a datagram and of a fragment take from the MTU.
pub const FRAGMENT_OVERHEAD: u16 = 61;

/// Exclusive upper bound of a message that goes out in one frame.
pub open spec fn single_limit(mtu: u16) -> nat {
    let m = if mtu > SINGLE_OVERHEAD {
        (mtu - SINGLE_OVERHEAD) as nat
    } else {
        0
    };
    if m > MAX_FRAME_DATA + 1 {
        (MAX_FRAME_DATA + 1) as nat
    } else {
        m
    }
}

/// Payload bytes carried by each fragment of a larger message.
pub open spec fn fragment_size(mtu: u16) -> nat {
    let m = if mtu > FRAGMENT_OVERHEAD {
        (mtu - FRAGMENT_OVERHEAD) as nat
    } else {
        1
    };
    if m > MAX_FRAME_DATA {
        MAX_FRAME_DATA as nat
    } else {
        m
    }
}

/// Number of fragments of a message of `len` bytes.
pub open spec fn fragment_count(len: nat, size: nat) -> nat {
    if size == 0 {
        0
    } else {
        ((len + size - 1) as int / size as int) as nat
    }
}

/// The 24-bit counter value `k` steps after `n`.
pub open spec fn counter_after(n: u32, k: int) -> u32 {
    ((n + k) % (INDEX_LIMIT as int)) as u32
}

/// Fragment `i` of `bytes`: the next `size` bytes, fewer at the end.
pub open spec fn fragment_bytes(bytes: Seq<u8>, size: nat, i: int) -> Seq<u8> {
    let start = i * size;
    let end = if (i + 1) * size > bytes.len() {
        bytes.len() as int
    } else {
        (i + 1) * size
    };
    bytes.subrange(start, end)
}

/// The frames that carry `bytes`: one reliable-ordered frame when it is
/// small enough, else fragments that share one split id, count and order
/// index, each with the next message index.
pub open spec fn message_frames(
    bytes: Seq<u8>,
    mtu: u16,
    message_index: u32,
    order_index: u32,
    split_id: u16,
) -> Seq<FrameView> {
    if bytes.len() < single_limit(mtu) {
        seq![
            FrameView {
                reliability: Reliability::ReliableOrdered,
                message_index,
                sequence_index: 0,
                order_index,
                split: false,
                split_count: 0,
                split_index: 0,
                split_id: 0,
                data: bytes,
            },
        ]
    } else {
        let size = fragment_size(mtu);
        let n = fragment_count(bytes.len(), size);
        Seq::new(
            n,
            |i: int|
                FrameView {
                    reliability: Reliability::ReliableOrdered,
                    message_index: counter_after(message_index, i),
                    sequence_index: 0,
                    order_index,
                    split: true,
                    split_count: n as u32,
                    split_index: i as u32,
                    split_id,
                    data: fragment_bytes(bytes, size, i),
                },
        )
    }
}

/// The packet queue after the frames `fs` are queued in turn at `now`.
pub open spec fn queue_after_frames(q: QueueView, fs: Seq<FrameView>, now: u64) -> QueueView
    decreases fs.len(),
{
    if fs.len() == 0 {
        q
    } else {
        let f = fs.last();
        after_add_frame(
            queue_after_frames(q, fs.drop_last(), now),
            f,
            (frame_header_len(f.reliability, f.split) + f.data.len()) as nat,
            now,
        )
    }
}


/// The session after `bytes` is queued at `now` as one message.
pub open spec fn after_send_to(o: SessionView, bytes: Seq<u8>, now: u64) -> SessionView {
    let fs = message_frames(bytes, o.mtu, o.message_index, o.order_index, o.split_id);
    SessionView {
        queue: queue_after_frames(o.queue, fs, now),
        message_index: counter_after(o.message_index, fs.len() as int),
        order_index: counter_after(o.order_index, 1),
        split_id: if bytes.len() < single_limit(o.mtu) {
            o.split_id
        } else {
            (if o.split_id == u16::MAX {
                0
            } else {
                o.split_id + 1
            }) as u16
        },
        ..o
    }
}

/// The session after a control message `data` with class `rel` is queued at
/// `now`, taking the next message and order indices where the class calls
/// for them.
pub open spec fn after_system(s: SessionView, data: Seq<u8>, rel: Reliability, now: u64) -> SessionView {
    SessionView {
        queue: queue_frame(s.queue, system_frame(data, rel, s.message_index, s.order_index), now),
        message_index: if rel.is_reliable() {
            counter_after(s.message_index, 1)
        } else {
            s.message_index
        },
        order_index: if rel.is_sequenced_or_ordered() {
            counter_after(s.order_index, 1)
        } else {
            s.order_index
        },
        ..s
    }
}

/// Sending what is due at `now`: the session after it, and the sends.
pub open spec fn flush_step(s: SessionView, now: u64) -> (SessionView, Seq<OutputView>) {
    let t = after_tick(s.queue, now);
    let m = after_moves(t, t.resend, now);
    (
        SessionView {
            queue: QueueView { entries: dispatch_all(m.entries, now), resend: Seq::empty(), ..m },
            ..s
        },
        frame_set_sends(undispatched(m.entries)),
    )
}

/// Reporting the received window: the session after it, and the sends.
pub open spec fn ack_step(s: SessionView) -> (SessionView, Seq<OutputView>) {
    (
        SessionView {
            ack: AckState { lowest: s.ack.highest, highest: s.ack.highest, received: Set::empty() },
            ..s
        },
        ack_sends(
            ack_ranges(s.ack.received, s.ack.lowest as int, s.ack.highest as int),
            ack_missing(s.ack.received, s.ack.lowest as int, s.ack.highest as int),
        ),
    )
}

/// The disconnect notice.
pub open spec fn disconnect_notice() -> Seq<u8> {
    seq![Disconnected::spec_id()] + Disconnected::spec_write(Disconnected {  })
}

/// Ending the session at `now`: the notice goes out reliable-ordered with
/// whatever else is due, then the end is reported.
pub open spec fn disconnect_step(s: SessionView, now: u64) -> (SessionView, Seq<OutputView>) {
    let f = flush_step(after_system(s, disconnect_notice(), Reliability::ReliableOrdered, now), now);
    (SessionView { disconnected: true, ..f.0 }, f.1.push(OutputView::End))
}

/// The keep-alive ping sent at `now`.
pub open spec fn ping_message(now: u64) -> Seq<u8> {
    seq![ConnectedPing::spec_id()] + ConnectedPing::spec_write(
        ConnectedPing { client_timestamp: timestamp_of(now) },
    )
}

/// The periodic tick at `now`: the session after it, and its outputs.
pub open spec fn update_step(s: SessionView, now: u64) -> (SessionView, Seq<OutputView>) {
    if s.disconnected {
        (s, Seq::empty())
    } else {
        let a = flush_step(s, now);
        let b = ack_step(a.0);
        if now > s.last_receive && now - s.last_receive > RECEIVE_TIMEOUT_MS {
            let c = disconnect_step(b.0, now);
            (c.0, a.1 + b.1 + c.1)
        } else if now > s.last_ping && now - s.last_ping > PING_INTERVAL_MS {
            (
                SessionView {
                    last_ping: now,
                    ..after_system(b.0, ping_message(now), Reliability::Unreliable, now)
                },
                a.1 + b.1,
            )
        } else {
            (b.0, a.1 + b.1)
        }
    }
}

/// Acting on one whole message frame at `now`: a ping is answered with an
/// unreliable pong, a pong is ignored, a disconnect notice ends the session
/// once, anything else is delivered. An ended session ignores everything;
/// an empty frame only counts as activity.
pub open spec fn packet_step(s: SessionView, f: FrameView, now: u64) -> (SessionView, Seq<OutputView>) {
    if s.disconnected {
        (s, Seq::empty())
    } else {
        let s1 = SessionView { last_receive: now, ..s };
        let d = f.data;
        if d.len() == 0 {
            (s1, Seq::empty())
        } else if d[0] == ConnectedPing::spec_id() {
            match ConnectedPing::spec_read(d.drop_first()) {
                Ok(p) => (
                    after_system(
                        s1,
                        seq![ConnectedPong::spec_id()] + ConnectedPong::spec_write(
                            ConnectedPong { client_timestamp: p.client_timestamp, server_timestamp: timestamp_of(now) },
                        ),
                        Reliability::Unreliable,
                        now,
                    ),
                    Seq::empty(),
                ),
                Err(_) => (s1, Seq::empty()),
            }
        } else if d[0] == ConnectedPong::spec_id() {
            (s1, Seq::empty())
        } else if d[0] == Disconnected::spec_id() {
            (SessionView { disconnected: true, ..s1 }, seq![OutputView::End])
        } else {
            (s1, seq![OutputView::Deliver(f)])
        }
    }
}

/// Acting on whole message frames in turn.
pub open spec fn packets_step(s: SessionView, fs: Seq<FrameView>, now: u64) -> (SessionView, Seq<OutputView>)
    decreases fs.len(),
{
    if fs.len() == 0 {
        (s, Seq::empty())
    } else {
        let a = packets_step(s, fs.drop_last(), now);
        let b = packet_step(a.0, fs.last(), now);
        (b.0, a.1 + b.1)
    }
}

/// Taking in a whole frame: on the unordered channels it is acted on at
/// once; on the others it is held and the frames now in order are released
/// and acted on.
pub open spec fn route_step(s: SessionView, f: FrameView, now: u64) -> (SessionView, Seq<OutputView>) {
    if !f.reliability.is_sequenced_or_ordered() {
        packet_step(s, f, now)
    } else {
        let r = after_receive(s.received, f);
        packets_step(SessionView { received: release_state(r), ..s }, release_out(r), now)
    }
}

/// Taking in whole frames in turn.
pub open spec fn routes_step(s: SessionView, fs: Seq<FrameView>, now: u64) -> (SessionView, Seq<OutputView>)
    decreases fs.len(),
{
    if fs.len() == 0 {
        (s, Seq::empty())
    } else {
        let a = routes_step(s, fs.drop_last(), now);
        let b = route_step(a.0, fs.last(), now);
        (b.0, a.1 + b.1)
    }
}

/// A whole message that the session hands to its owner rather than acting
/// on it itself.
pub open spec fn owner_message(f: FrameView) -> bool {
    &&& !f.split
    &&& f.data.len() > 0
    &&& f.data[0] != ConnectedPing::spec_id()
    &&& f.data[0] != ConnectedPong::spec_id()
    &&& f.data[0] != Disconnected::spec_id()
}

/// Two reliable-ordered messages with consecutive order indices reach the
/// owner in index order and once each, whichever of them arrives first; a
/// lost one that arrives later as a retransmission is the same case.
pub proof fn lemma_session_orders_messages(
    s: SessionView,
    a: FrameView,
    b: FrameView,
    now1: u64,
    now2: u64,
    a_first: bool,
)
    requires
        !s.disconnected,
        received_wf(s.received),
        s.received.pending == Map::<u32, FrameView>::empty(),
        a.reliability == Reliability::ReliableOrdered,
        b.reliability == Reliability::ReliableOrdered,
        owner_message(a),
        owner_message(b),
        a.order_index == s.received.next,
        b.order_index == index_after(s.received.next, 1),
    ensures
        a_first ==> {
            let x = route_step(s, a, now1);
            let y = route_step(x.0, b, now2);
            x.1 + y.1 == seq![OutputView::Deliver(a), OutputView::Deliver(b)]
        },
        !a_first ==> {
            let x = route_step(s, b, now1);
            let y = route_step(x.0, a, now2);
            x.1 + y.1 == seq![OutputView::Deliver(a), OutputView::Deliver(b)]
        },
{
    let k = s.received.next;
    let empty = Map::<u32, FrameView>::empty();
    lemma_distance_after(k, 0);
    lemma_distance_after(k, 1);
    lemma_distance_after(k, 2);
    let k1 = index_after(k, 1);
    let k2 = index_after(k, 2);
    assert(index_after(k, 0) == k);
    assert(k1 != k);
    assert(k2 != k && k2 != k1);
    assert(k1 < INDEX_LIMIT);
    assert(index_after(k1, 0) == k1);
    assert(index_after(k1, 1) == k2);
    if a_first {
        let r1 = after_receive(s.received, a);
        assert(r1.pending == empty.insert(k, a));
        lemma_run_from(r1.pending, k, 0, 1);
        assert(release_count(r1) == 1);
        assert(release_out(r1) =~= seq![a]);
        assert(released_keys(k, 1) =~= set![k]) by {
            assert(released_keys(k, 1).contains(k)) by {
                assert(k == index_after(k, 0));
            }
        }
        assert(release_state(r1).pending =~= empty);
        let s1 = SessionView { received: release_state(r1), ..s };
        assert(seq![a].drop_last() =~= Seq::<FrameView>::empty());
        assert(packets_step(s1, Seq::<FrameView>::empty(), now1) == (s1, Seq::<OutputView>::empty()));
        assert(packet_step(s1, a, now1).1 == seq![OutputView::Deliver(a)]);
        assert(packets_step(s1, seq![a], now1).1 =~= seq![OutputView::Deliver(a)]);
        let x = route_step(s, a, now1);
        assert(x.1 =~= seq![OutputView::Deliver(a)]);
        let r2 = after_receive(x.0.received, b);
        assert(x.0.received.next == k1);
        assert(r2.pending == empty.insert(k1, b));
        lemma_run_from(r2.pending, k1, 0, 1);
        assert(release_out(r2) =~= seq![b]);
        assert(seq![b].drop_last() =~= Seq::<FrameView>::empty());
        let s2 = SessionView { received: release_state(r2), ..x.0 };
        assert(!x.0.disconnected);
        assert(packets_step(s2, Seq::<FrameView>::empty(), now2) == (s2, Seq::<OutputView>::empty()));
        assert(packet_step(s2, b, now2).1 == seq![OutputView::Deliver(b)]);
        assert(packets_step(s2, seq![b], now2).1 =~= seq![OutputView::Deliver(b)]);
        let y = route_step(x.0, b, now2);
        assert(y.1 =~= seq![OutputView::Deliver(b)]);
        assert(x.1 + y.1 =~= seq![OutputView::Deliver(a), OutputView::Deliver(b)]);
    } else {
        let r1 = after_receive(s.received, b);
        assert(r1.pending == empty.insert(k1, b));
        lemma_run_from(r1.pending, k, 0, 0);
        assert(release_out(r1) =~= Seq::<FrameView>::empty());
        assert(released_keys(k, 0) =~= Set::<u32>::empty());
        assert(release_state(r1).pending =~= r1.pending);
        let x = route_step(s, b, now1);
        assert(x.1 =~= Seq::<OutputView>::empty());
        assert(x.0.received == r1);
        let r2 = after_receive(x.0.received, a);
        assert(r2.pending == empty.insert(k1, b).insert(k, a));
        lemma_run_from(r2.pending, k, 0, 2);
        assert(release_out(r2) =~= seq![a, b]);
        let y = route_step(x.0, a, now2);
        assert(seq![a, b].drop_last() =~= seq![a]);
        assert(seq![a].drop_last() =~= Seq::<FrameView>::empty());
        let s2 = SessionView { received: release_state(r2), ..x.0 };
        assert(packets_step(s2, Seq::<FrameView>::empty(), now2) == (s2, Seq::<OutputView>::empty()));
        let p1 = packet_step(s2, a, now2);
        assert(p1.1 == seq![OutputView::Deliver(a)]);
        assert(packets_step(s2, seq![a], now2).1 =~= seq![OutputView::Deliver(a)]);
        assert(!p1.0.disconnected);
        assert(packet_step(p1.0, b, now2).1 == seq![OutputView::Deliver(b)]);
        assert(packets_step(s2, seq![a, b], now2).1 =~= seq![OutputView::Deliver(a), OutputView::Deliver(b)]);
        assert(y.1 =~= seq![OutputView::Deliver(a), OutputView::Deliver(b)]);
        assert(x.1 + y.1 =~= seq![OutputView::Deliver(a), OutputView::Deliver(b)]);
    }
}

/// The whole message that a complete fragment set makes.
pub open spec fn reassembled(v: SplitView) -> FrameView {
    FrameView {
        reliability: v.reliability,
        message_index: 0,
        sequence_index: 0,
        order_index: v.order_index,
        split: false,
        split_count: 0,
        split_index: 0,
        split_id: 0,
        data: joined(v.parts, v.split_size as nat),
    }
}

/// Taking in one frame of a frame set: a fragment joins its message, and the
/// messages it completes are taken in as whole frames.
pub open spec fn frame_step(s: SessionView, f: FrameView, now: u64) -> (SessionView, Seq<OutputView>) {
    if f.split {
        let q = queue_after_add(s.splits, f);
        routes_step(
            SessionView { splits: open_splits(q), ..s },
            full_splits(q).map_values(|v: SplitView| reassembled(v)),
            now,
        )
    } else {
        route_step(s, f, now)
    }
}

/// Taking in the frames of a frame set in turn.
pub open spec fn frames_step(s: SessionView, fs: Seq<FrameView>, now: u64) -> (SessionView, Seq<OutputView>)
    decreases fs.len(),
{
    if fs.len() == 0 {
        (s, Seq::empty())
    } else {
        let a = frames_step(s, fs.drop_last(), now);
        let b = frame_step(a.0, fs.last(), now);
        (b.0, a.1 + b.1)
    }
}

/// Taking in a datagram at `now`. An ended session, an empty datagram, one
/// that does not decode, or one of no known kind changes nothing.
pub open spec fn handle_step(s: SessionView, bytes: Seq<u8>, now: u64) -> (SessionView, Seq<OutputView>) {
    if bytes.len() == 0 || s.disconnected {
        (s, Seq::empty())
    } else if bytes[0] & ACK_FLAG != 0 {
        match range_record_read(bytes.drop_first()) {
            Ok((_, _, r)) => (
                SessionView { queue: queue_after_acks(s.queue, seq_range(r.0, r.1)), ..s },
                Seq::empty(),
            ),
            Err(_) => (s, Seq::empty()),
        }
    } else if bytes[0] & NACK_FLAG != 0 {
        match range_record_read(bytes.drop_first()) {
            Ok((_, _, r)) => (
                SessionView { queue: queue_after_nacks(s.queue, seq_range(r.0, r.1), now), ..s },
                Seq::empty(),
            ),
            Err(_) => (s, Seq::empty()),
        }
    } else if bytes[0] & DATAGRAM_FLAG != 0 {
        match frame_set_read(bytes) {
            Ok(v) => frames_step(SessionView { ack: after_add(s.ack, v.sequence_number), ..s }, v.frames, now),
            Err(_) => (s, Seq::empty()),
        }
    } else {
        (s, Seq::empty())
    }
}

/// The session's state.
pub struct SessionView {
    pub ack: AckState,
    pub queue: QueueView,
    pub received: ReceivedView,
    pub splits: Seq<(u16, SplitView)>,
    pub mtu: u16,
    pub message_index: u32,
    pub order_index: u32,
    pub split_id: u16,
    pub last_ping: u64,
    pub last_receive: u64,
    pub disconnected: bool,
}

/// One connection's transport state.
pub struct Session {
    ack_queue: ACKQueue,
    packet_queue: PacketQueue,
    received: ReceivedQueue,
    splits: SplitPacketQueue,
    mtu: u16,
    message_index: u32,
    order_index: u32,
    split_id: u16,
    last_ping: u64,
    last_receive: u64,
    disconnected: bool,
}

impl View for Session {
    type V = SessionView;

    closed spec fn view(&self) -> SessionView {
        SessionView {
            ack: self.ack_queue@,
            queue: self.packet_queue@,
            received: self.received@,
            splits: self.splits@,
            mtu: self.mtu,
            message_index: self.message_index,
            order_index: self.order_index,
            split_id: self.split_id,
            last_ping: self.last_ping,
            last_receive: self.last_receive,
            disconnected: self.disconnected,
        }
    }
}

/// Copies `bytes[start..end]`.
fn copy_range(bytes: &Vec<u8>, start: usize, end: usize) -> (r: Vec<u8>)
    requires
        start <= end <= bytes@.len(),
    ensures
        r@ == bytes@.subrange(start as int, end as int),
{
    let mut out: Vec<u8> = Vec::new();
    let mut i: usize = start;
    while i < end
        invariant
            start <= i <= end,
            end <= bytes@.len(),
            out@ == bytes@.subrange(start as int, i as int),
        decreases end - i,
    {
        out.push(bytes[i]);
        i = i + 1;
        assert(out@ =~= bytes@.subrange(start as int, i as int));
    }
    out
}

/// A fragment index below the count starts inside the message.
proof fn lemma_fragment_start(len: nat, size: nat, i: nat)
    requires
        size > 0,
        i < fragment_count(len, size),
    ensures
        i * size < len,
{
    let n = fragment_count(len, size);
    assert(n * size <= len + size - 1) by (nonlinear_arith)
        requires
            n == (len + size - 1) as int / size as int,
            size > 0,
    ;
    assert(i * size + size <= n * size) by (nonlinear_arith)
        requires
            i + 1 <= n,
            size > 0,
    ;
}

impl Session {
    /// The session's parts are well formed and its counters 24-bit.
    pub closed spec fn wf(&self) -> bool {
        &&& self.ack_queue.wf()
        &&& queue_wf(self.packet_queue@)
        &&& received_wf(self.received@)
        &&& split_queue_wf(self.splits@)
        &&& self.message_index < INDEX_LIMIT
        &&& self.order_index < INDEX_LIMIT
        &&& self.packet_queue@.mtu == self.mtu
        &&& self.ack_queue@.highest <= INDEX_LIMIT
    }

    /// A session with a peer that negotiated `mtu`, opened at `now`.
    pub fn new(mtu: u16, now: u64) -> (r: Self)
        ensures
            r.wf(),
            r@.ack == (AckState { lowest: 0, highest: 0, received: Set::empty() }),
            r@.queue == (QueueView {
                entries: Seq::empty(),
                max: 0,
                resend: Seq::empty(),
                batch: Seq::empty(),
                batch_size: 0,
                mtu,
            }),
            r@.received == (ReceivedView { next: 0, pending: Map::empty() }),
            r@.splits == Seq::<(u16, SplitView)>::empty(),
            r@.mtu == mtu,
            r@.message_index == 0,
            r@.order_index == 0,
            r@.split_id == 0,
            r@.last_ping == now,
            r@.last_receive == now,
            !r@.disconnected,
    {
        Session {
            ack_queue: ACKQueue::new(),
            packet_queue: PacketQueue::new(mtu),
            received: ReceivedQueue::new(),
            splits: SplitPacketQueue::new(),
            mtu,
            message_index: 0,
            order_index: 0,
            split_id: 0,
            last_ping: now,
            last_receive: now,
            disconnected: false,
        }
    }

    /// Queues a message for the peer: one reliable-ordered frame, or
    /// fragments of it when it does not fit one datagram.
    #[verifier::rlimit(60)]
    pub fn send_to(&mut self, buff: Vec<u8>, now: u64)
        requires
            old(self).wf(),
            buff@.len() <= u32::MAX,
        ensures
            final(self).wf(),
            final(self)@ == after_send_to(old(self)@, buff@, now),
    {
        let ghost o = self@;
        let ghost fs = message_frames(buff@, o.mtu, o.message_index, o.order_index, o.split_id);
        let len = buff.len();
        let single: usize = if self.mtu > SINGLE_OVERHEAD {
            let m = (self.mtu - SINGLE_OVERHEAD) as usize;
            if m > MAX_FRAME_DATA + 1 { MAX_FRAME_DATA + 1 } else { m }
        } else {
            0
        };
        if len < single {
            let mut frame = Frame::new(Reliability::ReliableOrdered, buff);
            frame.message_index = self.message_index;
            frame.order_index = self.order_index;
            assert(frame@ == fs[0]);
            assert(fs.len() == 1);
            assert(fs.drop_last() =~= Seq::<FrameView>::empty());
            assert(queue_after_frames(o.queue, fs.drop_last(), now) == o.queue);
            self.packet_queue.add_frame(frame, now);
            assert(self@.queue == queue_after_frames(o.queue, fs, now));
            self.message_index = (self.message_index + 1) % INDEX_LIMIT;
            self.order_index = (self.order_index + 1) % INDEX_LIMIT;
        } else {
            let size: usize = if self.mtu > FRAGMENT_OVERHEAD {
                let m = (self.mtu - FRAGMENT_OVERHEAD) as usize;
                if m > MAX_FRAME_DATA { MAX_FRAME_DATA } else { m }
            } else {
                1
            };
            let n: u64 = ((len as u64) + (size as u64) - 1) / (size as u64);
            assert(n == fragment_count(len as nat, size as nat));
            assert(n <= len) by (nonlinear_arith)
                requires
                    n == (len + size - 1) as int / size as int,
                    size >= 1,
            ;
            assert(queue_after_frames(o.queue, fs.take(0), now) == o.queue);
            let mut i: u64 = 0;
            while i < n
                invariant
                    self.wf(),
                    self.mtu == o.mtu,
                    self.order_index == o.order_index,
                    self.split_id == o.split_id,
                    self@.ack == o.ack,
                    self@.received == o.received,
                    self@.splits == o.splits,
                    self@.last_ping == o.last_ping,
                    self@.last_receive == o.last_receive,
                    self@.disconnected == o.disconnected,
                    len == buff@.len(),
                    len <= u32::MAX,
                    !(len < single_limit(o.mtu)),
                    size == fragment_size(o.mtu),
                    n == fragment_count(len as nat, size as nat),
                    fs == message_frames(buff@, o.mtu, o.message_index, o.order_index, o.split_id),
                    fs.len() == n,
                    i <= n,
                    self@.queue == queue_after_frames(o.queue, fs.take(i as int), now),
                    self.message_index == counter_after(o.message_index, i as int),
                decreases n - i,
            {
                proof {
                    lemma_fragment_start(len as nat, size as nat, i as nat);
                    assert((i + 1) * size == i * size + size) by (nonlinear_arith);
                }
                let pos: usize = (i * (size as u64)) as usize;
                let end: usize = if len - pos < size { len } else { pos + size };
                let data = copy_range(&buff, pos, end);
                let mut frame = Frame::new(Reliability::ReliableOrdered, data);
                frame.split = true;
                frame.message_index = self.message_index;
                frame.order_index = self.order_index;
                frame.split_count = n as u32;
                frame.split_id = self.split_id;
                frame.split_index = i as u32;
                assert(frame@ == fs[i as int]);
                assert(fs.take(i + 1).drop_last() =~= fs.take(i as int));
                assert(fs.take(i + 1).last() == fs[i as int]);
                self.packet_queue.add_frame(frame, now);
                self.message_index = (self.message_index + 1) % INDEX_LIMIT;
                i = i + 1;
            }
            assert(fs.take(n as int) =~= fs);
            self.split_id = if self.split_id == u16::MAX { 0 } else { self.split_id + 1 };
            self.order_index = (self.order_index + 1) % INDEX_LIMIT;
        }
    }

    /// Hands every frame set that is due to the peer.
    fn flush_queue(&mut self, now: u64, out: &mut Vec<SessionOutput>)
        requires
            old(self).wf(),
        ensures
            final(self).wf(),
            ({
                let o = old(self)@;
                let t = after_tick(o.queue, now);
                let m = after_moves(t, t.resend, now);
                &&& final(self)@ == SessionView {
                    queue: QueueView { entries: dispatch_all(m.entries, now), resend: Seq::empty(), ..m },
                    ..o
                }
                &&& output_views(final(out)@) == output_views(old(out)@) + frame_set_sends(undispatched(m.entries))
            }),
            final(self)@ == flush_step(old(self)@, now).0,
            output_views(final(out)@) == output_views(old(out)@) + flush_step(old(self)@, now).1,
    {
        proof {
            let t = after_tick(self@.queue, now);
            crate::packet_queue::lemma_moves_keep_mtu(t, t.resend, now);
        }
        let sets = self.packet_queue.get_packet(now);
        let ghost start = output_views(out@);
        let ghost sv = sets@.map_values(|s: FrameSet| s@);
        let mut i: usize = 0;
        while i < sets.len()
            invariant
                i <= sets@.len(),
                sv == sets@.map_values(|s: FrameSet| s@),
                forall|k: int| 0 <= k < sets@.len() ==> crate::frame::frame_set_wf(#[trigger] sets@[k]@),
                output_views(out@) == start + frame_set_sends(sv.take(i as int)),
            decreases sets@.len() - i,
        {
            let bytes = sets[i].encode();
            let ghost before = output_views(out@);
            out.push(SessionOutput::Send(bytes));
            assert(output_views(out@) =~= before.push(OutputView::Send(frame_set_bytes(sv[i as int]))));
            assert(frame_set_sends(sv.take(i + 1)) =~= frame_set_sends(sv.take(i as int)).push(
                OutputView::Send(frame_set_bytes(sv[i as int])),
            ));
            i = i + 1;
        }
        assert(sv.take(sets@.len() as int) =~= sv);
    }

    /// Reports the received window to the peer: an acknowledgement per range
    /// and a negative acknowledgement per missing sequence number.
    fn flush_ack(&mut self, out: &mut Vec<SessionOutput>)
        requires
            old(self).wf(),
        ensures
            final(self).wf(),
            ({
                let o = old(self)@;
                &&& final(self)@ == SessionView {
                    ack: AckState { lowest: o.ack.highest, highest: o.ack.highest, received: Set::empty() },
                    ..o
                }
                &&& output_views(final(out)@) == output_views(old(out)@) + ack_sends(
                    ack_ranges(o.ack.received, o.ack.lowest as int, o.ack.highest as int),
                    ack_missing(o.ack.received, o.ack.lowest as int, o.ack.highest as int),
                )
            }),
            final(self)@ == ack_step(old(self)@).0,
            output_views(final(out)@) == output_views(old(out)@) + ack_step(old(self)@).1,
    {
        let ghost o = self@;
        proof {
            crate::ack_queue::lemma_flush_partitions(o.ack.received, o.ack.lowest as int, o.ack.highest as int);
        }
        let (ranges, missing) = self.ack_queue.clear();
        let ghost start = output_views(out@);
        let ghost rs = ranges@;
        let ghost ms = missing@;
        let mut i: usize = 0;
        while i < ranges.len()
            invariant
                i <= rs.len(),
                rs == ranges@,
                o.ack.highest <= INDEX_LIMIT,
                forall|k: int| 0 <= k < rs.len() ==> #[trigger] rs[k].0 <= rs[k].1 < o.ack.highest,
                output_views(out@) == start + rs.take(i as int).map_values(|r: (u32, u32)| OutputView::Send(ack_bytes(r))),
            decreases rs.len() - i,
        {
            let r = ranges[i];
            let bytes = encode(Ack::new(r));
            let ghost before = output_views(out@);
            out.push(SessionOutput::Send(bytes));
            assert(output_views(out@) =~= before.push(OutputView::Send(ack_bytes(r))));
            assert(rs.take(i + 1).map_values(|r: (u32, u32)| OutputView::Send(ack_bytes(r))) =~= rs.take(i as int).map_values(
                |r: (u32, u32)| OutputView::Send(ack_bytes(r)),
            ).push(OutputView::Send(ack_bytes(r))));
            i = i + 1;
        }
        assert(rs.take(rs.len() as int) =~= rs);
        let ghost mid = output_views(out@);
        let mut j: usize = 0;
        while j < missing.len()
            invariant
                j <= ms.len(),
                ms == missing@,
                o.ack.highest <= INDEX_LIMIT,
                forall|k: int| 0 <= k < ms.len() ==> #[trigger] ms[k] < o.ack.highest,
                output_views(out@) == mid + ms.take(j as int).map_values(|m: u32| OutputView::Send(nack_bytes(m))),
            decreases ms.len() - j,
        {
            let m = missing[j];
            let bytes = encode(Nack::new((m, m)));
            let ghost before = output_views(out@);
            out.push(SessionOutput::Send(bytes));
            assert(output_views(out@) =~= before.push(OutputView::Send(nack_bytes(m))));
            assert(ms.take(j + 1).map_values(|m: u32| OutputView::Send(nack_bytes(m))) =~= ms.take(j as int).map_values(
                |m: u32| OutputView::Send(nack_bytes(m)),
            ).push(OutputView::Send(nack_bytes(m))));
            j = j + 1;
        }
        assert(ms.take(ms.len() as int) =~= ms);
        assert(output_views(out@) =~= start + ack_sends(rs, ms));
    }

    /// Queues a control message with class `reliability`, taking the next
    /// message index if the class is reliable and the next order index if it
    /// is sequenced or ordered.
    pub fn send_system_packet<P: Packet>(&mut self, packet: P, reliability: Reliability, now: u64)
        requires
            old(self).wf(),
            P::wf(packet@),
            1 + P::spec_write(packet@).len() <= MAX_FRAME_DATA,
        ensures
            final(self).wf(),
            final(self)@ == after_system(old(self)@, seq![P::spec_id()] + P::spec_write(packet@), reliability, now),
    {
        let buff = encode(packet);
        let mut frame = Frame::new(reliability, buff);
        if reliability.reliable() {
            frame.message_index = self.message_index;
            self.message_index = (self.message_index + 1) % INDEX_LIMIT;
        }
        if reliability.sequenced_or_ordered() {
            frame.order_index = self.order_index;
            self.order_index = (self.order_index + 1) % INDEX_LIMIT;
        }
        self.packet_queue.add_frame(frame, now);
    }

    /// Marks the session ended and tells the owner.
    fn end(&mut self, out: &mut Vec<SessionOutput>)
        requires
            old(self).wf(),
        ensures
            final(self).wf(),
            final(self)@ == (SessionView { disconnected: true, ..old(self)@ }),
            output_views(final(out)@) == output_views(old(out)@).push(OutputView::End),
    {
        out.push(SessionOutput::End);
        self.disconnected = true;
        assert(output_views(out@) =~= output_views(old(out)@).push(OutputView::End));
    }

    /// Sends the disconnect notice with whatever else is due and ends.
    fn shut(&mut self, now: u64, out: &mut Vec<SessionOutput>)
        requires
            old(self).wf(),
        ensures
            final(self).wf(),
            final(self)@ == disconnect_step(old(self)@, now).0,
            output_views(final(out)@) == output_views(old(out)@) + disconnect_step(old(self)@, now).1,
    {
        let ghost start = output_views(out@);
        self.send_system_packet(Disconnected {  }, Reliability::ReliableOrdered, now);
        self.flush_queue(now, out);
        let ghost mid = output_views(out@);
        self.end(out);
        assert(output_views(out@) =~= start + disconnect_step(old(self)@, now).1);
    }

    /// Sends a disconnect notice as a reliable-ordered frame, flushes the
    /// queue and ends the session.
    pub fn disconnect(&mut self, now: u64) -> (r: Vec<SessionOutput>)
        requires
            old(self).wf(),
        ensures
            final(self).wf(),
            final(self)@ == disconnect_step(old(self)@, now).0,
            output_views(r@) == disconnect_step(old(self)@, now).1,
    {
        let mut out: Vec<SessionOutput> = Vec::new();
        assert(output_views(out@) =~= Seq::<OutputView>::empty());
        self.shut(now, &mut out);
        assert(output_views(out@) =~= disconnect_step(old(self)@, now).1);
        out
    }

    /// Sends the frame sets that are due, and nothing else.
    pub fn force_flush(&mut self, now: u64) -> (r: Vec<SessionOutput>)
        requires
            old(self).wf(),
        ensures
            final(self).wf(),
            final(self)@ == flush_step(old(self)@, now).0,
            output_views(r@) == flush_step(old(self)@, now).1,
    {
        let mut out: Vec<SessionOutput> = Vec::new();
        assert(output_views(out@) =~= Seq::<OutputView>::empty());
        self.flush_queue(now, &mut out);
        assert(output_views(out@) =~= flush_step(old(self)@, now).1);
        out
    }

    /// The periodic tick: sends what is due and the acknowledgements, ends
    /// the session (notice included) after [`RECEIVE_TIMEOUT_MS`] without
    /// inbound frames, and queues a ping every [`PING_INTERVAL_MS`]. An ended
    /// session does nothing.
    pub fn update(&mut self, now: u64) -> (r: Vec<SessionOutput>)
        requires
            old(self).wf(),
        ensures
            final(self).wf(),
            final(self)@ == update_step(old(self)@, now).0,
            output_views(r@) == update_step(old(self)@, now).1,
    {
        let mut out: Vec<SessionOutput> = Vec::new();
        assert(output_views(out@) =~= Seq::<OutputView>::empty());
        if self.disconnected {
            return out;
        }
        self.flush_queue(now, &mut out);
        self.flush_ack(&mut out);
        if now > self.last_receive && now - self.last_receive > RECEIVE_TIMEOUT_MS {
            let ghost mid = output_views(out@);
            self.shut(now, &mut out);
            assert(output_views(out@) =~= update_step(old(self)@, now).1);
            return out;
        }
        if now > self.last_ping && now - self.last_ping > PING_INTERVAL_MS {
            self.last_ping = now;
            self.send_system_packet(ConnectedPing::new(timestamp(now)), Reliability::Unreliable, now);
        }
        assert(output_views(out@) =~= update_step(old(self)@, now).1);
        out
    }

    /// Acts on one whole inbound message frame, as [`packet_step`] says.
    fn handle_packet(&mut self, frame: Frame, now: u64, out: &mut Vec<SessionOutput>)
        requires
            old(self).wf(),
        ensures
            final(self).wf(),
            final(self)@ == packet_step(old(self)@, frame@, now).0,
            output_views(final(out)@) == output_views(old(out)@) + packet_step(old(self)@, frame@, now).1,
    {
        let ghost start = output_views(out@);
        if self.disconnected {
            assert(output_views(out@) =~= start + Seq::<OutputView>::empty());
            return;
        }
        self.last_receive = now;
        if frame.data.len() == 0 {
            assert(output_views(out@) =~= start + Seq::<OutputView>::empty());
            return;
        }
        let id = frame.data[0];
        if id == 0x00 {
            match decode::<ConnectedPing>(frame.data.as_slice()) {
                Ok(ping) => {
                    let pong = ConnectedPong::new(ping.client_timestamp, timestamp(now));
                    self.send_system_packet(pong, Reliability::Unreliable, now);
                },
                Err(_) => {},
            }
            assert(output_views(out@) =~= start + Seq::<OutputView>::empty());
        } else if id == 0x03 {
            assert(output_views(out@) =~= start + Seq::<OutputView>::empty());
        } else if id == 0x15 {
            self.end(out);
            assert(output_views(out@) =~= start + seq![OutputView::End]);
        } else {
            let ghost f = frame@;
            out.push(SessionOutput::Deliver(frame));
            assert(output_views(out@) =~= start + seq![OutputView::Deliver(f)]);
        }
    }

    /// Acts on released frames in turn.
    fn handle_packets(&mut self, frames: Vec<Frame>, now: u64, out: &mut Vec<SessionOutput>)
        requires
            old(self).wf(),
        ensures
            final(self).wf(),
            final(self)@ == packets_step(old(self)@, frames@.map_values(|f: Frame| f@), now).0,
            output_views(final(out)@) == output_views(old(out)@) + packets_step(
                old(self)@,
                frames@.map_values(|f: Frame| f@),
                now,
            ).1,
    {
        let ghost fs = frames@.map_values(|f: Frame| f@);
        let ghost total = fs.len();
        let ghost start = output_views(out@);
        let mut rest = frames;
        assert(rest@.map_values(|f: Frame| f@) =~= fs.subrange(0, total as int));
        assert(start + packets_step(old(self)@, fs.take(0), now).1 =~= start);
        while rest.len() > 0
            invariant
                self.wf(),
                total == fs.len(),
                rest@.len() <= total,
                rest@.map_values(|f: Frame| f@) == fs.subrange(total - rest@.len(), total as int),
                self@ == packets_step(old(self)@, fs.take(total - rest@.len()), now).0,
                output_views(out@) == start + packets_step(old(self)@, fs.take(total - rest@.len()), now).1,
            decreases rest@.len(),
        {
            let ghost k = total - rest@.len();
            let ghost before = rest@;
            let f = rest.remove(0);
            assert(f@ == fs[k]) by {
                assert(before.map_values(|f: Frame| f@)[0] == fs.subrange(k, total as int)[0]);
            }
            assert(rest@ =~= before.subrange(1, before.len() as int));
            assert(rest@.map_values(|f: Frame| f@) =~= fs.subrange(total - rest@.len(), total as int)) by {
                assert forall|j: int| 0 <= j < rest@.len() implies rest@[j]@ == fs[k + 1 + j] by {
                    assert(rest@[j] == before[j + 1]);
                    assert(before.map_values(|f: Frame| f@)[j + 1] == fs.subrange(k, total as int)[j + 1]);
                }
            }
            assert(fs.take(k + 1).drop_last() =~= fs.take(k));
            assert(fs.take(k + 1).last() == fs[k]);
            let ghost o1 = output_views(out@);
            self.handle_packet(f, now, out);
            assert(output_views(out@) =~= start + packets_step(old(self)@, fs.take(k + 1), now).1);
        }
        assert(fs.take(total as int) =~= fs);
    }

    /// Takes in a whole frame, as [`route_step`] says.
    fn route(&mut self, frame: Frame, now: u64, out: &mut Vec<SessionOutput>)
        requires
            old(self).wf(),
        ensures
            final(self).wf(),
            final(self)@ == route_step(old(self)@, frame@, now).0,
            output_views(final(out)@) == output_views(old(out)@) + route_step(old(self)@, frame@, now).1,
    {
        if !frame.reliability.sequenced_or_ordered() {
            self.handle_packet(frame, now, out);
        } else {
            self.received.add(frame);
            let released = self.received.get_all();
            self.handle_packets(released, now, out);
        }
    }

    /// Takes in whole frames in turn.
    fn route_all(&mut self, frames: Vec<Frame>, now: u64, out: &mut Vec<SessionOutput>)
        requires
            old(self).wf(),
        ensures
            final(self).wf(),
            final(self)@ == routes_step(old(self)@, frames@.map_values(|f: Frame| f@), now).0,
            output_views(final(out)@) == output_views(old(out)@) + routes_step(
                old(self)@,
                frames@.map_values(|f: Frame| f@),
                now,
            ).1,
    {
        let ghost fs = frames@.map_values(|f: Frame| f@);
        let ghost total = fs.len();
        let ghost start = output_views(out@);
        let mut rest = frames;
        assert(rest@.map_values(|f: Frame| f@) =~= fs.subrange(0, total as int));
        assert(start + routes_step(old(self)@, fs.take(0), now).1 =~= start);
        while rest.len() > 0
            invariant
                self.wf(),
                total == fs.len(),
                rest@.len() <= total,
                rest@.map_values(|f: Frame| f@) == fs.subrange(total - rest@.len(), total as int),
                self@ == routes_step(old(self)@, fs.take(total - rest@.len()), now).0,
                output_views(out@) == start + routes_step(old(self)@, fs.take(total - rest@.len()), now).1,
            decreases rest@.len(),
        {
            let ghost k = total - rest@.len();
            let ghost before = rest@;
            let f = rest.remove(0);
            assert(f@ == fs[k]) by {
                assert(before.map_values(|f: Frame| f@)[0] == fs.subrange(k, total as int)[0]);
            }
            assert(rest@ =~= before.subrange(1, before.len() as int));
            assert(rest@.map_values(|f: Frame| f@) =~= fs.subrange(total - rest@.len(), total as int)) by {
                assert forall|j: int| 0 <= j < rest@.len() implies rest@[j]@ == fs[k + 1 + j] by {
                    assert(rest@[j] == before[j + 1]);
                    assert(before.map_values(|f: Frame| f@)[j + 1] == fs.subrange(k, total as int)[j + 1]);
                }
            }
            assert(fs.take(k + 1).drop_last() =~= fs.take(k));
            assert(fs.take(k + 1).last() == fs[k]);
            self.route(f, now, out);
            assert(output_views(out@) =~= start + routes_step(old(self)@, fs.take(k + 1), now).1);
        }
        assert(fs.take(total as int) =~= fs);
    }

    /// Takes in one frame of an inbound frame set, as [`frame_step`] says.
    fn receive_packet(&mut self, frame: Frame, now: u64, out: &mut Vec<SessionOutput>)
        requires
            old(self).wf(),
        ensures
            final(self).wf(),
            final(self)@ == frame_step(old(self)@, frame@, now).0,
            output_views(final(out)@) == output_views(old(out)@) + frame_step(old(self)@, frame@, now).1,
    {
        if frame.split {
            self.splits.add(frame);
            let ghost q1 = self@.splits;
            let mut whole = self.splits.get_and_clear();
            proof {
                crate::split_queue::lemma_full_splits_full(q1);
                assert forall|k: int| 0 <= k < whole@.len() implies split_full(#[trigger] whole@[k]@) by {
                    assert(whole@.map_values(|p: crate::split_queue::SplitPacket| p@)[k] == full_splits(q1)[k]);
                }
            }
            let ghost views = whole@.map_values(|p: crate::split_queue::SplitPacket| p@);
            let mut frames: Vec<Frame> = Vec::new();
            let mut i: usize = 0;
            while i < whole.len()
                invariant
                    i <= whole@.len(),
                    views == whole@.map_values(|p: crate::split_queue::SplitPacket| p@),
                    forall|k: int| 0 <= k < whole@.len() ==> split_wf(#[trigger] whole@[k]@) && split_full(whole@[k]@),
                    frames@.map_values(|f: Frame| f@) == views.take(i as int).map_values(|v: SplitView| reassembled(v)),
                decreases whole@.len() - i,
            {
                let f = whole[i].get_frame();
                let ghost before = frames@.map_values(|f: Frame| f@);
                frames.push(f);
                assert(frames@.map_values(|f: Frame| f@) =~= before.push(f@));
                assert(views.take(i + 1).map_values(|v: SplitView| reassembled(v)) =~= views.take(i as int).map_values(
                    |v: SplitView| reassembled(v),
                ).push(reassembled(views[i as int])));
                i = i + 1;
            }
            assert(views.take(whole@.len() as int) =~= views);
            self.route_all(frames, now, out);
        } else {
            self.route(frame, now, out);
        }
    }

    /// Takes in one datagram from the peer, as [`handle_step`] says: an
    /// acknowledgement drops the frame sets it names, a negative
    /// acknowledgement sends them again, and a frame set is recorded for
    /// acknowledgement and its frames taken in. An ended session ignores
    /// everything.
    pub fn handle(&mut self, bytes: &[u8], now: u64) -> (r: Vec<SessionOutput>)
        requires
            old(self).wf(),
        ensures
            final(self).wf(),
            final(self)@ == handle_step(old(self)@, bytes@, now).0,
            output_views(r@) == handle_step(old(self)@, bytes@, now).1,
    {
        let mut out: Vec<SessionOutput> = Vec::new();
        assert(output_views(out@) =~= Seq::<OutputView>::empty());
        if bytes.len() == 0 || self.disconnected {
            return out;
        }
        let header = bytes[0];
        if header & ACK_FLAG != 0 {
            match decode::<Ack>(bytes) {
                Ok(ack) => {
                    let seqs = ack.get_all();
                    let ghost q0 = self@.queue;
                    let mut i: usize = 0;
                    while i < seqs.len()
                        invariant
                            self.wf(),
                            i <= seqs@.len(),
                            self@ == (SessionView { queue: queue_after_acks(q0, seqs@.take(i as int)), ..old(self)@ }),
                        decreases seqs@.len() - i,
                    {
                        assert(seqs@.take(i + 1).drop_last() =~= seqs@.take(i as int));
                        self.packet_queue.received(seqs[i]);
                        i = i + 1;
                    }
                    assert(seqs@.take(seqs@.len() as int) =~= seqs@);
                },
                Err(_) => {},
            }
        } else if header & NACK_FLAG != 0 {
            match decode::<Nack>(bytes) {
                Ok(nack) => {
                    let seqs = nack.get_all();
                    let ghost q0 = self@.queue;
                    let mut i: usize = 0;
                    while i < seqs.len()
                        invariant
                            self.wf(),
                            i <= seqs@.len(),
                            self@ == (SessionView { queue: queue_after_nacks(q0, seqs@.take(i as int), now), ..old(self)@ }),
                        decreases seqs@.len() - i,
                    {
                        assert(seqs@.take(i + 1).drop_last() =~= seqs@.take(i as int));
                        self.packet_queue.resend(seqs[i], now);
                        i = i + 1;
                    }
                    assert(seqs@.take(seqs@.len() as int) =~= seqs@);
                },
                Err(_) => {},
            }
        } else if header & DATAGRAM_FLAG != 0 {
            match FrameSet::decode(bytes) {
                Ok(set) => {
                    proof {
                        crate::codec::lemma_uint_value_bound(bytes@.subrange(1, 4), crate::codec::Endian::Little);
                        reveal_with_fuel(crate::codec::pow256, 4);
                        assert(set.sequence_number < INDEX_LIMIT);
                    }
                    self.ack_queue.add(set.sequence_number);
                    let ghost s0 = self@;
                    let ghost fs = set@.frames;
                    let ghost total = fs.len();
                    let mut frames = set.datas;
                    assert(crate::frame::frame_views(frames@) =~= fs.subrange(0, total as int));
                    assert(Seq::<OutputView>::empty() + frames_step(s0, fs.take(0), now).1 =~= Seq::<OutputView>::empty());
                    while frames.len() > 0
                        invariant
                            self.wf(),
                            total == fs.len(),
                            frames@.len() <= total,
                            crate::frame::frame_views(frames@) == fs.subrange(total - frames@.len(), total as int),
                            self@ == frames_step(s0, fs.take(total - frames@.len()), now).0,
                            output_views(out@) == frames_step(s0, fs.take(total - frames@.len()), now).1,
                        decreases frames@.len(),
                    {
                        let ghost k = total - frames@.len();
                        let ghost before = frames@;
                        let f = frames.remove(0);
                        assert(f@ == fs[k]) by {
                            assert(crate::frame::frame_views(before)[0] == fs.subrange(k, total as int)[0]);
                        }
                        assert(frames@ =~= before.subrange(1, before.len() as int));
                        assert(crate::frame::frame_views(frames@) =~= fs.subrange(total - frames@.len(), total as int)) by {
                            assert forall|j: int| 0 <= j < frames@.len() implies frames@[j]@ == fs[k + 1 + j] by {
                                assert(frames@[j] == before[j + 1]);
                                assert(crate::frame::frame_views(before)[j + 1] == fs.subrange(k, total as int)[j + 1]);
                            }
                        }
                        assert(fs.take(k + 1).drop_last() =~= fs.take(k));
                        assert(fs.take(k + 1).last() == fs[k]);
                        self.receive_packet(f, now, &mut out);
                        assert(output_views(out@) =~= frames_step(s0, fs.take(k + 1), now).1);
                    }
                    assert(fs.take(total as int) =~= fs);
                },
                Err(_) => {},
            }
        }
        out
    }
}

} // verus!
