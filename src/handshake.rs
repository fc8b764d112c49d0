//! The client side of connection establishment: the open-connection request
//! ladder with its MTU probes, and the decisions taken on each reply. The
//! owner runs the timers and the socket; each call says what to send, whether
//! to arm the retry timer, and what came of the attempt.
use vstd::prelude::*;
use crate::codec::Address;
use crate::packets::{
    decode, encode, AlreadyConnected, IncompatibleProtocolVersion, OpenConnectionReply1,
    OpenConnectionReply2, OpenConnectionRequest1, OpenConnectionRequest2, Packet,
};

verus! {

/// The protocol version that both sides must speak.
pub const RAKNET_PROTOCOL_VERSION: u8 = 10;

/// Milliseconds between handshake retries.
pub const RETRY_INTERVAL_MS: u64 = 510;

/// Milliseconds after which the whole handshake fails.
pub const HANDSHAKE_TIMEOUT_MS: u64 = 10000;

/// Number of first requests sent before the handshake gives up.
pub const MAX_REQUEST1_ATTEMPTS: u32 = 13;

/// Added to the MTU that the server's second reply carries.
pub const MTU_HEADROOM: u16 = 96;

/// Why a connection attempt failed.
#[derive(Clone, Copy, Debug, PartialEq, Eq)]
pub enum ConnectionFailedReason {
    AlreadyConnected,
    DifferentVersion,
    Timeout,
}

/// How a handshake ended.
#[derive(Clone, Copy, Debug, PartialEq, Eq)]
pub enum HandshakeOutcome {
    /// The server admitted the client; the session uses this MTU.
    Success(u16),
    Failed(ConnectionFailedReason),
}

/// What the owner does after a handshake call.
pub struct HandshakeStep {
    /// A datagram for the server.
    pub send: Option<Vec<u8>>,
    /// Arm the retry timer.
    pub retry: bool,
    /// The handshake is over.
    pub outcome: Option<HandshakeOutcome>,
}

/// The MTU probed by first request number `attempt`, counting from zero, or
/// none once the ladder is exhausted.
pub open spec fn probe_mtu(attempt: u32) -> Option<u16> {
    if attempt < 4 {
        Some(1496u16)
    } else if attempt < 8 {
        Some(1204u16)
    } else if attempt < MAX_REQUEST1_ATTEMPTS {
        Some(584u16)
    } else {
        None
    }
}

/// The effective MTU for a second reply that carries `mtu`.
pub open spec fn effective_mtu(mtu: u16) -> u16 {
    if mtu as int + MTU_HEADROOM > u16::MAX {
        u16::MAX
    } else {
        (mtu + MTU_HEADROOM) as u16
    }
}

/// The handshake's state.
pub struct HandshakeView {
    pub guid: u64,
    pub address: Address,
    pub local: Address,
    pub request1_count: u32,
    pub waiting: bool,
    pub timer_armed: bool,
    pub finished: bool,
}

/// A client's connection attempt in progress.
pub struct Handshake {
    guid: u64,
    address: Address,
    local: Address,
    request1_count: u32,
    waiting: bool,
    timer_armed: bool,
    finished: bool,
}

impl View for Handshake {
    type V = HandshakeView;

    closed spec fn view(&self) -> HandshakeView {
        HandshakeView {
            guid: self.guid,
            address: self.address,
            local: self.local,
            request1_count: self.request1_count,
            waiting: self.waiting,
            timer_armed: self.timer_armed,
            finished: self.finished,
        }
    }
}

impl Handshake {
    /// An attempt by the client with `guid`, whose socket is at `local`, to
    /// reach the server at `address`.
    pub fn new(guid: u64, address: Address, local: Address) -> (r: Self)
        ensures
            r@ == (HandshakeView {
                guid,
                address,
                local,
                request1_count: 0,
                waiting: false,
                timer_armed: false,
                finished: false,
            }),
    {
        Handshake { guid, address, local, request1_count: 0, waiting: false, timer_armed: false, finished: false }
    }

    fn conclude(&mut self, outcome: HandshakeOutcome) -> (r: HandshakeStep)
        ensures
            final(self)@ == (HandshakeView { finished: true, waiting: false, ..old(self)@ }),
            r.send is None,
            !r.retry,
            r.outcome == Some(outcome),
    {
        self.finished = true;
        self.waiting = false;
        HandshakeStep { send: None, retry: false, outcome: Some(outcome) }
    }

    /// Sends the next first request on the MTU ladder, or gives up with a
    /// timeout once thirteen have gone unanswered.
    fn request1(&mut self) -> (r: HandshakeStep)
        ensures
            match probe_mtu(old(self)@.request1_count) {
                Some(mtu) => {
                    &&& final(self)@ == (HandshakeView {
                        request1_count: (old(self)@.request1_count + 1) as u32,
                        waiting: true,
                        ..old(self)@
                    })
                    &&& r.send matches Some(b) && b@ == seq![OpenConnectionRequest1::spec_id()]
                        + OpenConnectionRequest1::spec_write(
                        OpenConnectionRequest1 { protocol_version: RAKNET_PROTOCOL_VERSION, mtu_size: mtu },
                    )
                    &&& r.retry
                    &&& r.outcome is None
                },
                None => {
                    &&& final(self)@ == (HandshakeView { finished: true, waiting: false, ..old(self)@ })
                    &&& r.send is None
                    &&& !r.retry
                    &&& r.outcome == Some(HandshakeOutcome::Failed(ConnectionFailedReason::Timeout))
                },
            },
    {
        let mtu_size: u16 = if self.request1_count < 4 {
            1496
        } else if self.request1_count < 8 {
            1204
        } else if self.request1_count < MAX_REQUEST1_ATTEMPTS {
            584
        } else {
            return self.conclude(HandshakeOutcome::Failed(ConnectionFailedReason::Timeout));
        };
        self.request1_count = self.request1_count + 1;
        let request1 = OpenConnectionRequest1::new(RAKNET_PROTOCOL_VERSION, mtu_size);
        self.waiting = true;
        HandshakeStep { send: Some(encode(request1)), retry: true, outcome: None }
    }

    /// Starts the attempt: the owner arms the overall timer and the first
    /// request goes out.
    pub fn start(&mut self) -> (r: HandshakeStep)
        requires
            old(self)@.request1_count == 0,
        ensures
            final(self)@.timer_armed,
            final(self)@.request1_count == 1,
            final(self)@.waiting,
            r.send matches Some(b) && b@ == seq![OpenConnectionRequest1::spec_id()]
                + OpenConnectionRequest1::spec_write(
                OpenConnectionRequest1 { protocol_version: RAKNET_PROTOCOL_VERSION, mtu_size: 1496 },
            ),
            r.retry,
            r.outcome is None,
    {
        self.timer_armed = true;
        self.request1()
    }

    /// The retry timer fired without a reply: the next first request goes
    /// out, or the attempt times out.
    pub fn on_retry(&mut self) -> (r: HandshakeStep)
        ensures
            old(self)@.finished ==> final(self)@ == old(self)@ && r.send is None && !r.retry && r.outcome is None,
            !old(self)@.finished ==> match probe_mtu(old(self)@.request1_count) {
                Some(mtu) => {
                    &&& final(self)@.request1_count == old(self)@.request1_count + 1
                    &&& r.send matches Some(b) && b@ == seq![OpenConnectionRequest1::spec_id()]
                        + OpenConnectionRequest1::spec_write(
                        OpenConnectionRequest1 { protocol_version: RAKNET_PROTOCOL_VERSION, mtu_size: mtu },
                    )
                    &&& r.retry
                    &&& r.outcome is None
                },
                None => r.outcome == Some(HandshakeOutcome::Failed(ConnectionFailedReason::Timeout))
                    && final(self)@.finished && r.send is None && !r.retry,
            },
    {
        if self.finished {
            return HandshakeStep { send: None, retry: false, outcome: None };
        }
        self.request1()
    }

    /// The overall timer fired: the attempt times out.
    pub fn on_timeout(&mut self) -> (r: HandshakeStep)
        ensures
            old(self)@.finished ==> final(self)@ == old(self)@ && r.outcome is None,
            !old(self)@.finished ==> final(self)@.finished && r.outcome == Some(
                HandshakeOutcome::Failed(ConnectionFailedReason::Timeout),
            ),
            r.send is None,
            !r.retry,
    {
        if self.finished {
            return HandshakeStep { send: None, retry: false, outcome: None };
        }
        self.timer_armed = false;
        self.conclude(HandshakeOutcome::Failed(ConnectionFailedReason::Timeout))
    }

    /// A datagram from the server arrived. While a request is outstanding:
    /// a first reply brings the second request (with the client's address
    /// and the MTU the server chose), a second reply ends the attempt successfully with that MTU
    /// plus 96, an already-connected or incompatible-version answer ends it
    /// with that failure. Anything else, or a reply that does not decode,
    /// changes nothing.
    pub fn on_datagram(&mut self, bytes: &[u8]) -> (r: HandshakeStep)
        ensures
            !old(self)@.waiting || old(self)@.finished || bytes@.len() == 0 ==> final(self)@ == old(self)@
                && r.send is None && !r.retry && r.outcome is None,
            old(self)@.waiting && !old(self)@.finished && bytes@.len() > 0 ==> {
                let body = bytes@.drop_first();
                let o = old(self)@;
                if bytes@[0] == OpenConnectionReply1::spec_id() {
                    match OpenConnectionReply1::spec_read(body) {
                        Ok(reply) => {
                            &&& r.send matches Some(b) && b@ == seq![OpenConnectionRequest2::spec_id()]
                                + OpenConnectionRequest2::spec_write(
                                OpenConnectionRequest2 { address: o.local, mtu: reply.mtu_size, guid: o.guid },
                            )
                            &&& r.retry
                            &&& r.outcome is None
                            &&& final(self)@ == o
                        },
                        Err(_) => final(self)@ == o && r.send is None && r.outcome is None,
                    }
                } else if bytes@[0] == OpenConnectionReply2::spec_id() {
                    match OpenConnectionReply2::spec_read(body) {
                        Ok(reply) => {
                            &&& final(self)@.finished
                            &&& r.send is None
                            &&& !r.retry
                            &&& o.timer_armed ==> r.outcome == Some(HandshakeOutcome::Success(effective_mtu(reply.mtu)))
                            &&& !o.timer_armed ==> r.outcome is None
                        },
                        Err(_) => final(self)@ == o && r.send is None && r.outcome is None,
                    }
                } else if bytes@[0] == AlreadyConnected::spec_id() {
                    match AlreadyConnected::spec_read(body) {
                        Ok(_) => final(self)@.finished && r.send is None && !r.retry && r.outcome == Some(
                            HandshakeOutcome::Failed(ConnectionFailedReason::AlreadyConnected),
                        ),
                        Err(_) => final(self)@ == o && r.send is None && r.outcome is None,
                    }
                } else if bytes@[0] == IncompatibleProtocolVersion::spec_id() {
                    match IncompatibleProtocolVersion::spec_read(body) {
                        Ok(_) => final(self)@.finished && r.send is None && !r.retry && r.outcome == Some(
                            HandshakeOutcome::Failed(ConnectionFailedReason::DifferentVersion),
                        ),
                        Err(_) => final(self)@ == o && r.send is None && r.outcome is None,
                    }
                } else {
                    final(self)@ == o && r.send is None && !r.retry && r.outcome is None
                }
            },
    {
        let none = HandshakeStep { send: None, retry: false, outcome: None };
        if !self.waiting || self.finished || bytes.len() == 0 {
            return none;
        }
        let id = bytes[0];
        if id == OpenConnectionReply1::id() {
            match decode::<OpenConnectionReply1>(bytes) {
                Ok(reply1) => {
                    let request2 = OpenConnectionRequest2::new(self.local, reply1.mtu_size, self.guid);
                    HandshakeStep { send: Some(encode(request2)), retry: true, outcome: None }
                },
                Err(_) => none,
            }
        } else if id == OpenConnectionReply2::id() {
            match decode::<OpenConnectionReply2>(bytes) {
                Ok(reply2) => {
                    let mtu: u16 = if reply2.mtu > u16::MAX - MTU_HEADROOM {
                        u16::MAX
                    } else {
                        reply2.mtu + MTU_HEADROOM
                    };
                    if self.timer_armed {
                        self.timer_armed = false;
                        self.conclude(HandshakeOutcome::Success(mtu))
                    } else {
                        self.finished = true;
                        self.waiting = false;
                        none
                    }
                },
                Err(_) => none,
            }
        } else if id == AlreadyConnected::id() {
            match decode::<AlreadyConnected>(bytes) {
                Ok(_) => self.conclude(HandshakeOutcome::Failed(ConnectionFailedReason::AlreadyConnected)),
                Err(_) => none,
            }
        } else if id == IncompatibleProtocolVersion::id() {
            match decode::<IncompatibleProtocolVersion>(bytes) {
                Ok(_) => self.conclude(HandshakeOutcome::Failed(ConnectionFailedReason::DifferentVersion)),
                Err(_) => none,
            }
        } else {
            none
        }
    }
}

} // verus!
