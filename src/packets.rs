//! Typed records for the protocol's messages, each with its identifying first
//! byte and a body codec.
use vstd::prelude::*;
use vstd::utf8::{
    decode_utf8, encode_utf8, encode_utf8_decode_utf8, encode_utf8_valid_utf8, valid_utf8,
};
use crate::codec::{
    address_at, address_bytes, address_fits, address_len, i64_at, i64_bytes, lemma_address_round_trip,
    lemma_i64_field, lemma_u16_field, lemma_u24_field, lemma_u64_field, lemma_uint_bytes_len, lemma_uint_value_bound, magic, pow256,
    string_bytes, u16_at, u24_at, u64_at, uint_bytes, Address, DecodeError, Endian,
    Reader, Writer,
};

verus! {

broadcast use lemma_uint_bytes_len;

/// A message with a fixed first byte and a body codec.
pub trait Packet: Sized + View {
    /// The first byte of a datagram that carries this message.
    spec fn spec_id() -> u8;

    /// The body's fields fit their wire widths.
    spec fn wf(v: Self::V) -> bool;

    /// Wire form of the body (without the first byte).
    spec fn spec_write(v: Self::V) -> Seq<u8>;

    /// What a body decodes to.
    spec fn spec_read(s: Seq<u8>) -> Result<Self::V, DecodeError>;

    fn id() -> (r: u8)
        ensures
            r == Self::spec_id(),
    ;

    fn write(&self, w: &mut Writer)
        requires
            Self::wf(self@),
        ensures
            final(w)@ == old(w)@ + Self::spec_write(self@),
    ;

    fn read(payload: &[u8]) -> (r: Result<Self, DecodeError>)
        ensures
            match r {
                Ok(p) => Self::spec_read(payload@) == Ok::<Self::V, DecodeError>(p@),
                Err(e) => Self::spec_read(payload@) == Err::<Self::V, DecodeError>(e),
            },
    ;
}

/// A datagram carrying `p`: its first byte, then its body.
pub fn encode<T: Packet>(packet: T) -> (r: Vec<u8>)
    requires
        T::wf(packet@),
    ensures
        r@ == seq![T::spec_id()] + T::spec_write(packet@),
{
    let mut w = Writer::new(Vec::new());
    w.write_u8(T::id());
    packet.write(&mut w);
    w.into_inner()
}

/// Decodes the body of a datagram, whose first byte the caller has already
/// looked at.
pub fn decode<T: Packet>(buf: &[u8]) -> (r: Result<T, DecodeError>)
    ensures
        buf@.len() == 0 ==> r == Err::<T, DecodeError>(DecodeError::UnexpectedEnd),
        buf@.len() > 0 ==> match r {
            Ok(p) => T::spec_read(buf@.drop_first()) == Ok::<T::V, DecodeError>(p@),
            Err(e) => T::spec_read(buf@.drop_first()) == Err::<T::V, DecodeError>(e),
        },
{
    if buf.len() == 0 {
        return Err(DecodeError::UnexpectedEnd);
    }
    let body = slice_tail(buf);
    T::read(body)
}

/// Decoding a datagram that [`encode`] produced reads the body that follows
/// its first byte, so each message's body round trip carries over to whole
/// datagrams.
pub proof fn lemma_datagram_body<T: Packet>(v: T::V)
    ensures
        (seq![T::spec_id()] + T::spec_write(v)).len() > 0,
        (seq![T::spec_id()] + T::spec_write(v)).drop_first() == T::spec_write(v),
        (seq![T::spec_id()] + T::spec_write(v))[0] == T::spec_id(),
{
    assert((seq![T::spec_id()] + T::spec_write(v)).drop_first() =~= T::spec_write(v));
}

/// The slice without its first element.
fn slice_tail(buf: &[u8]) -> (r: &[u8])
    requires
        buf@.len() > 0,
    ensures
        r@ == buf@.drop_first(),
{
    let (_, tail) = buf.split_at(1);
    assert(tail@ =~= buf@.drop_first());
    tail
}

/// Keep-alive request sent inside a connection.
#[derive(Clone, Copy, Debug, PartialEq, Eq)]
pub struct ConnectedPing {
    pub client_timestamp: i64,
}

impl ConnectedPing {
    pub fn new(time: i64) -> (r: Self)
        ensures
            r.client_timestamp == time,
    {
        ConnectedPing { client_timestamp: time }
    }

    /// A connected ping survives encoding and decoding.
    pub proof fn lemma_round_trip(v: Self)
        ensures
            Self::spec_read(Self::spec_write(v)) == Ok::<Self, DecodeError>(v),
    {
        let s = Self::spec_write(v);
        assert(s.subrange(0, 8) =~= i64_bytes(v.client_timestamp, Endian::Big));
        lemma_i64_field(s, 0, Endian::Big, v.client_timestamp);
    }
}

impl View for ConnectedPing {
    type V = ConnectedPing;

    open spec fn view(&self) -> ConnectedPing {
        *self
    }
}

impl Packet for ConnectedPing {
    open spec fn spec_id() -> u8 {
        0x00
    }

    open spec fn wf(v: Self) -> bool {
        true
    }

    open spec fn spec_write(v: Self) -> Seq<u8> {
        i64_bytes(v.client_timestamp, Endian::Big)
    }

    open spec fn spec_read(s: Seq<u8>) -> Result<Self, DecodeError> {
        if s.len() < 8 {
            Err(DecodeError::UnexpectedEnd)
        } else {
            Ok(ConnectedPing { client_timestamp: i64_at(s, 0, Endian::Big) })
        }
    }

    fn id() -> (r: u8) {
        0x00
    }

    fn write(&self, w: &mut Writer) {
        w.write_i64(self.client_timestamp, Endian::Big);
    }

    fn read(payload: &[u8]) -> (r: Result<Self, DecodeError>) {
        let mut c = Reader::new(payload);
        let client_timestamp = c.read_i64(Endian::Big)?;
        Ok(ConnectedPing { client_timestamp })
    }
}


/// Liveness probe sent before a connection exists.
#[derive(Clone, Copy, Debug, PartialEq, Eq)]
pub struct UnconnectedPing {
    pub time: i64,
    pub guid: u64,
}

impl UnconnectedPing {
    pub fn new(time: i64, guid: u64) -> (r: Self)
        ensures
            r.time == time,
            r.guid == guid,
    {
        UnconnectedPing { time, guid }
    }

    /// An unconnected ping survives encoding and decoding.
    pub proof fn lemma_round_trip(v: Self)
        ensures
            Self::spec_read(Self::spec_write(v)) == Ok::<Self, DecodeError>(v),
    {
        let s = Self::spec_write(v);
        assert(s.subrange(0, 8) =~= i64_bytes(v.time, Endian::Big));
        assert(s.subrange(24, 32) =~= uint_bytes(v.guid as nat, 8, Endian::Big));
        lemma_i64_field(s, 0, Endian::Big, v.time);
        lemma_u64_field(s, 24, Endian::Big, v.guid);
    }
}

impl View for UnconnectedPing {
    type V = UnconnectedPing;

    open spec fn view(&self) -> UnconnectedPing {
        *self
    }
}

impl Packet for UnconnectedPing {
    open spec fn spec_id() -> u8 {
        0x01
    }

    open spec fn wf(v: Self) -> bool {
        true
    }

    open spec fn spec_write(v: Self) -> Seq<u8> {
        i64_bytes(v.time, Endian::Big) + magic() + uint_bytes(v.guid as nat, 8, Endian::Big)
    }

    open spec fn spec_read(s: Seq<u8>) -> Result<Self, DecodeError> {
        if s.len() < 32 {
            Err(DecodeError::UnexpectedEnd)
        } else {
            Ok(UnconnectedPing { time: i64_at(s, 0, Endian::Big), guid: u64_at(s, 24, Endian::Big) })
        }
    }

    fn id() -> (r: u8) {
        0x01
    }

    fn write(&self, w: &mut Writer) {
        let ghost start = w@;
        w.write_i64(self.time, Endian::Big);
        w.write_magic();
        w.write_u64(self.guid, Endian::Big);
        assert(w@ =~= start + Self::spec_write(self@));
    }

    fn read(payload: &[u8]) -> (r: Result<Self, DecodeError>) {
        let mut c = Reader::new(payload);
        let time = c.read_i64(Endian::Big)?;
        c.read_magic()?;
        let guid = c.read_u64(Endian::Big)?;
        Ok(UnconnectedPing { time, guid })
    }
}

/// Reply to a [`ConnectedPing`].
#[derive(Clone, Copy, Debug, PartialEq, Eq)]
pub struct ConnectedPong {
    pub client_timestamp: i64,
    pub server_timestamp: i64,
}

impl ConnectedPong {
    pub fn new(client_timestamp: i64, server_timestamp: i64) -> (r: Self)
        ensures
            r.client_timestamp == client_timestamp,
            r.server_timestamp == server_timestamp,
    {
        ConnectedPong { client_timestamp, server_timestamp }
    }

    /// A connected pong survives encoding and decoding.
    pub proof fn lemma_round_trip(v: Self)
        ensures
            Self::spec_read(Self::spec_write(v)) == Ok::<Self, DecodeError>(v),
    {
        let s = Self::spec_write(v);
        assert(s.subrange(0, 8) =~= i64_bytes(v.client_timestamp, Endian::Big));
        assert(s.subrange(8, 16) =~= i64_bytes(v.server_timestamp, Endian::Big));
        lemma_i64_field(s, 0, Endian::Big, v.client_timestamp);
        lemma_i64_field(s, 8, Endian::Big, v.server_timestamp);
    }
}

impl View for ConnectedPong {
    type V = ConnectedPong;

    open spec fn view(&self) -> ConnectedPong {
        *self
    }
}

impl Packet for ConnectedPong {
    open spec fn spec_id() -> u8 {
        0x03
    }

    open spec fn wf(v: Self) -> bool {
        true
    }

    open spec fn spec_write(v: Self) -> Seq<u8> {
        i64_bytes(v.client_timestamp, Endian::Big) + i64_bytes(v.server_timestamp, Endian::Big)
    }

    open spec fn spec_read(s: Seq<u8>) -> Result<Self, DecodeError> {
        if s.len() < 16 {
            Err(DecodeError::UnexpectedEnd)
        } else {
            Ok(
                ConnectedPong {
                    client_timestamp: i64_at(s, 0, Endian::Big),
                    server_timestamp: i64_at(s, 8, Endian::Big),
                },
            )
        }
    }

    fn id() -> (r: u8) {
        0x03
    }

    fn write(&self, w: &mut Writer) {
        let ghost start = w@;
        w.write_i64(self.client_timestamp, Endian::Big);
        w.write_i64(self.server_timestamp, Endian::Big);
        assert(w@ =~= start + Self::spec_write(self@));
    }

    fn read(payload: &[u8]) -> (r: Result<Self, DecodeError>) {
        let mut c = Reader::new(payload);
        let client_timestamp = c.read_i64(Endian::Big)?;
        let server_timestamp = c.read_i64(Endian::Big)?;
        Ok(ConnectedPong { client_timestamp, server_timestamp })
    }
}

/// Lowest MTU that [`OpenConnectionRequest1`] can be written with: its
/// body then holds the magic and the version, and no padding.
pub const MIN_REQUEST1_MTU: u16 = 49;

/// First handshake request. Its body is padded with zeros to 32 bytes less
/// than the MTU it probes; the receiver takes the MTU to be the body's length
/// plus 32.
#[derive(Clone, Copy, Debug, PartialEq, Eq)]
pub struct OpenConnectionRequest1 {
    pub protocol_version: u8,
    pub mtu_size: u16,
}

impl OpenConnectionRequest1 {
    pub fn new(protocol_version: u8, mtu_size: u16) -> (r: Self)
        ensures
            r.protocol_version == protocol_version,
            r.mtu_size == mtu_size,
    {
        OpenConnectionRequest1 { protocol_version, mtu_size }
    }

    /// A first request survives encoding and decoding: the padding makes the
    /// body 32 bytes shorter than the probed MTU.
    pub proof fn lemma_round_trip(v: Self)
        requires
            Self::wf(v),
        ensures
            Self::spec_read(Self::spec_write(v)) == Ok::<Self, DecodeError>(v),
    {
        let s = Self::spec_write(v);
        assert(s[16] == v.protocol_version);
    }
}

impl View for OpenConnectionRequest1 {
    type V = OpenConnectionRequest1;

    open spec fn view(&self) -> OpenConnectionRequest1 {
        *self
    }
}

impl Packet for OpenConnectionRequest1 {
    open spec fn spec_id() -> u8 {
        0x05
    }

    open spec fn wf(v: Self) -> bool {
        v.mtu_size >= MIN_REQUEST1_MTU
    }

    open spec fn spec_write(v: Self) -> Seq<u8> {
        magic() + seq![v.protocol_version] + Seq::new((v.mtu_size - MIN_REQUEST1_MTU) as nat, |i: int| 0u8)
    }

    open spec fn spec_read(s: Seq<u8>) -> Result<Self, DecodeError> {
        if s.len() < 17 {
            Err(DecodeError::UnexpectedEnd)
        } else if s.len() + 32 > u16::MAX {
            Err(DecodeError::SizeOverflow)
        } else {
            Ok(OpenConnectionRequest1 { protocol_version: s[16], mtu_size: (s.len() + 32) as u16 })
        }
    }

    fn id() -> (r: u8) {
        0x05
    }

    fn write(&self, w: &mut Writer) {
        let ghost start = w@;
        w.write_magic();
        w.write_u8(self.protocol_version);
        let n = self.mtu_size - MIN_REQUEST1_MTU;
        let mut i: u16 = 0;
        while i < n
            invariant
                i <= n,
                n == self.mtu_size - MIN_REQUEST1_MTU,
                w@ == start + magic() + seq![self.protocol_version] + Seq::new(
                    i as nat,
                    |k: int| 0u8,
                ),
            decreases n - i,
        {
            w.write_u8(0);
            i = i + 1;
            assert(w@ =~= start + magic() + seq![self.protocol_version] + Seq::new(
                i as nat,
                |k: int| 0u8,
            ));
        }
        assert(w@ =~= start + Self::spec_write(self@));
    }

    fn read(payload: &[u8]) -> (r: Result<Self, DecodeError>) {
        let mut c = Reader::new(payload);
        c.read_magic()?;
        let protocol_version = c.read_u8()?;
        if payload.len() > 65535 - 32 {
            return Err(DecodeError::SizeOverflow);
        }
        Ok(OpenConnectionRequest1 { protocol_version, mtu_size: (payload.len() + 32) as u16 })
    }
}

/// Server's answer to [`OpenConnectionRequest1`].
#[derive(Clone, Copy, Debug, PartialEq, Eq)]
pub struct OpenConnectionReply1 {
    pub guid: u64,
    pub use_security: bool,
    pub mtu_size: u16,
}

impl OpenConnectionReply1 {
    pub fn new(guid: u64, use_security: bool, mtu_size: u16) -> (r: Self)
        ensures
            r.guid == guid,
            r.use_security == use_security,
            r.mtu_size == mtu_size,
    {
        OpenConnectionReply1 { guid, use_security, mtu_size }
    }

    /// A first reply survives encoding and decoding.
    pub proof fn lemma_round_trip(v: Self)
        ensures
            Self::spec_read(Self::spec_write(v)) == Ok::<Self, DecodeError>(v),
    {
        let s = Self::spec_write(v);
        assert(s.subrange(16, 24) =~= uint_bytes(v.guid as nat, 8, Endian::Big));
        assert(s.subrange(25, 27) =~= uint_bytes(v.mtu_size as nat, 2, Endian::Big));
        lemma_u64_field(s, 16, Endian::Big, v.guid);
        lemma_u16_field(s, 25, Endian::Big, v.mtu_size);
        assert(s[24] == (if v.use_security { 1u8 } else { 0u8 }));
    }
}

impl View for OpenConnectionReply1 {
    type V = OpenConnectionReply1;

    open spec fn view(&self) -> OpenConnectionReply1 {
        *self
    }
}

impl Packet for OpenConnectionReply1 {
    open spec fn spec_id() -> u8 {
        0x06
    }

    open spec fn wf(v: Self) -> bool {
        true
    }

    open spec fn spec_write(v: Self) -> Seq<u8> {
        magic() + uint_bytes(v.guid as nat, 8, Endian::Big) + seq![
            if v.use_security {
                1u8
            } else {
                0u8
            },
        ] + uint_bytes(v.mtu_size as nat, 2, Endian::Big)
    }

    open spec fn spec_read(s: Seq<u8>) -> Result<Self, DecodeError> {
        if s.len() < 27 {
            Err(DecodeError::UnexpectedEnd)
        } else {
            Ok(
                OpenConnectionReply1 {
                    guid: u64_at(s, 16, Endian::Big),
                    use_security: s[24] != 0,
                    mtu_size: u16_at(s, 25, Endian::Big),
                },
            )
        }
    }

    fn id() -> (r: u8) {
        0x06
    }

    fn write(&self, w: &mut Writer) {
        let ghost start = w@;
        w.write_magic();
        w.write_u64(self.guid, Endian::Big);
        w.write_u8(
            if self.use_security {
                1
            } else {
                0
            },
        );
        w.write_u16(self.mtu_size, Endian::Big);
        assert(w@ =~= start + Self::spec_write(self@));
    }

    fn read(payload: &[u8]) -> (r: Result<Self, DecodeError>) {
        let mut c = Reader::new(payload);
        c.read_magic()?;
        let guid = c.read_u64(Endian::Big)?;
        let use_security = c.read_u8()? != 0;
        let mtu_size = c.read_u16(Endian::Big)?;
        Ok(OpenConnectionReply1 { guid, use_security, mtu_size })
    }
}

/// Second handshake request: the client's view of the server address, the
/// MTU it settled on and its GUID.
#[derive(Clone, Copy, Debug, PartialEq, Eq)]
pub struct OpenConnectionRequest2 {
    pub address: Address,
    pub mtu: u16,
    pub guid: u64,
}

impl OpenConnectionRequest2 {
    pub fn new(address: Address, mtu: u16, guid: u64) -> (r: Self)
        ensures
            r.address == address,
            r.mtu == mtu,
            r.guid == guid,
    {
        OpenConnectionRequest2 { address, mtu, guid }
    }

    /// A second request survives encoding and decoding.
    pub proof fn lemma_round_trip(v: Self)
        ensures
            Self::spec_read(Self::spec_write(v)) == Ok::<Self, DecodeError>(v),
    {
        let s = Self::spec_write(v);
        let a = address_bytes(v.address);
        let tail = uint_bytes(v.mtu as nat, 2, Endian::Big) + uint_bytes(v.guid as nat, 8, Endian::Big);
        assert(s =~= magic() + a + tail);
        lemma_address_round_trip(v.address, magic(), tail);
        let q: int = 16 + a.len() as int;
        assert(s.subrange(q, q + 2) =~= uint_bytes(v.mtu as nat, 2, Endian::Big));
        assert(s.subrange(q + 2, q + 10) =~= uint_bytes(v.guid as nat, 8, Endian::Big));
        lemma_u16_field(s, q, Endian::Big, v.mtu);
        lemma_u64_field(s, q + 2, Endian::Big, v.guid);
    }
}

impl View for OpenConnectionRequest2 {
    type V = OpenConnectionRequest2;

    open spec fn view(&self) -> OpenConnectionRequest2 {
        *self
    }
}

impl Packet for OpenConnectionRequest2 {
    open spec fn spec_id() -> u8 {
        0x07
    }

    open spec fn wf(v: Self) -> bool {
        true
    }

    open spec fn spec_write(v: Self) -> Seq<u8> {
        magic() + address_bytes(v.address) + uint_bytes(v.mtu as nat, 2, Endian::Big) + uint_bytes(
            v.guid as nat,
            8,
            Endian::Big,
        )
    }

    open spec fn spec_read(s: Seq<u8>) -> Result<Self, DecodeError> {
        if !address_fits(s, 16) {
            Err(DecodeError::UnexpectedEnd)
        } else {
            let q = 16 + address_len(s, 16);
            if s.len() < q + 10 {
                Err(DecodeError::UnexpectedEnd)
            } else {
                Ok(
                    OpenConnectionRequest2 {
                        address: address_at(s, 16),
                        mtu: u16_at(s, q, Endian::Big),
                        guid: u64_at(s, q + 2, Endian::Big),
                    },
                )
            }
        }
    }

    fn id() -> (r: u8) {
        0x07
    }

    fn write(&self, w: &mut Writer) {
        let ghost start = w@;
        w.write_magic();
        w.write_address(&self.address);
        w.write_u16(self.mtu, Endian::Big);
        w.write_u64(self.guid, Endian::Big);
        assert(w@ =~= start + Self::spec_write(self@));
    }

    fn read(payload: &[u8]) -> (r: Result<Self, DecodeError>) {
        let mut c = Reader::new(payload);
        if payload.len() < 16 {
            return Err(DecodeError::UnexpectedEnd);
        }
        c.read_magic()?;
        let address = c.read_address()?;
        let mtu = c.read_u16(Endian::Big)?;
        let guid = c.read_u64(Endian::Big)?;
        Ok(OpenConnectionRequest2 { address, mtu, guid })
    }
}

/// Server's answer to [`OpenConnectionRequest2`]: the connection is admitted.
#[derive(Clone, Copy, Debug, PartialEq, Eq)]
pub struct OpenConnectionReply2 {
    pub guid: u64,
    pub address: Address,
    pub mtu: u16,
    pub encryption_enabled: u8,
}

impl OpenConnectionReply2 {
    pub fn new(guid: u64, address: Address, mtu: u16, encryption_enabled: bool) -> (r: Self)
        ensures
            r.guid == guid,
            r.address == address,
            r.mtu == mtu,
            r.encryption_enabled == (if encryption_enabled {
                1u8
            } else {
                0u8
            }),
    {
        OpenConnectionReply2 {
            guid,
            address,
            mtu,
            encryption_enabled: if encryption_enabled {
                1
            } else {
                0
            },
        }
    }

    /// A second reply survives encoding and decoding.
    pub proof fn lemma_round_trip(v: Self)
        ensures
            Self::spec_read(Self::spec_write(v)) == Ok::<Self, DecodeError>(v),
    {
        let s = Self::spec_write(v);
        let a = address_bytes(v.address);
        let g = uint_bytes(v.guid as nat, 8, Endian::Big);
        let tail = uint_bytes(v.mtu as nat, 2, Endian::Big) + seq![v.encryption_enabled];
        assert(s =~= (magic() + g) + a + tail);
        lemma_address_round_trip(v.address, magic() + g, tail);
        let q: int = 24 + a.len() as int;
        assert(s.subrange(16, 24) =~= g);
        assert(s.subrange(q, q + 2) =~= uint_bytes(v.mtu as nat, 2, Endian::Big));
        lemma_u64_field(s, 16, Endian::Big, v.guid);
        lemma_u16_field(s, q, Endian::Big, v.mtu);
        assert(s[q + 2] == v.encryption_enabled);
    }
}

impl View for OpenConnectionReply2 {
    type V = OpenConnectionReply2;

    open spec fn view(&self) -> OpenConnectionReply2 {
        *self
    }
}

impl Packet for OpenConnectionReply2 {
    open spec fn spec_id() -> u8 {
        0x08
    }

    open spec fn wf(v: Self) -> bool {
        true
    }

    open spec fn spec_write(v: Self) -> Seq<u8> {
        magic() + uint_bytes(v.guid as nat, 8, Endian::Big) + address_bytes(v.address) + uint_bytes(
            v.mtu as nat,
            2,
            Endian::Big,
        ) + seq![v.encryption_enabled]
    }

    open spec fn spec_read(s: Seq<u8>) -> Result<Self, DecodeError> {
        if !address_fits(s, 24) {
            Err(DecodeError::UnexpectedEnd)
        } else {
            let q = 24 + address_len(s, 24);
            if s.len() < q + 3 {
                Err(DecodeError::UnexpectedEnd)
            } else {
                Ok(
                    OpenConnectionReply2 {
                        guid: u64_at(s, 16, Endian::Big),
                        address: address_at(s, 24),
                        mtu: u16_at(s, q, Endian::Big),
                        encryption_enabled: s[q + 2],
                    },
                )
            }
        }
    }

    fn id() -> (r: u8) {
        0x08
    }

    fn write(&self, w: &mut Writer) {
        let ghost start = w@;
        w.write_magic();
        w.write_u64(self.guid, Endian::Big);
        w.write_address(&self.address);
        w.write_u16(self.mtu, Endian::Big);
        w.write_u8(self.encryption_enabled);
        assert(w@ =~= start + Self::spec_write(self@));
    }

    fn read(payload: &[u8]) -> (r: Result<Self, DecodeError>) {
        let mut c = Reader::new(payload);
        if payload.len() < 24 {
            return Err(DecodeError::UnexpectedEnd);
        }
        c.read_magic()?;
        let guid = c.read_u64(Endian::Big)?;
        let address = c.read_address()?;
        let mtu = c.read_u16(Endian::Big)?;
        let encryption_enabled = c.read_u8()?;
        Ok(OpenConnectionReply2 { guid, address, mtu, encryption_enabled })
    }
}


/// First message inside a new connection, sent by the client.
#[derive(Clone, Copy, Debug, PartialEq, Eq)]
pub struct ConnectionRequest {
    pub guid: u64,
    pub time: i64,
    pub use_security: bool,
}

impl ConnectionRequest {
    pub fn new(guid: u64, time: i64, use_security: bool) -> (r: Self)
        ensures
            r.guid == guid,
            r.time == time,
            r.use_security == use_security,
    {
        ConnectionRequest { guid, time, use_security }
    }

    /// A connection request survives encoding and decoding.
    pub proof fn lemma_round_trip(v: Self)
        ensures
            Self::spec_read(Self::spec_write(v)) == Ok::<Self, DecodeError>(v),
    {
        let s = Self::spec_write(v);
        assert(s.subrange(0, 8) =~= uint_bytes(v.guid as nat, 8, Endian::Big));
        assert(s.subrange(8, 16) =~= i64_bytes(v.time, Endian::Big));
        lemma_u64_field(s, 0, Endian::Big, v.guid);
        lemma_i64_field(s, 8, Endian::Big, v.time);
        assert(s[16] == (if v.use_security { 1u8 } else { 0u8 }));
    }
}

impl View for ConnectionRequest {
    type V = ConnectionRequest;

    open spec fn view(&self) -> ConnectionRequest {
        *self
    }
}

impl Packet for ConnectionRequest {
    open spec fn spec_id() -> u8 {
        0x09
    }

    open spec fn wf(v: Self) -> bool {
        true
    }

    open spec fn spec_write(v: Self) -> Seq<u8> {
        uint_bytes(v.guid as nat, 8, Endian::Big) + i64_bytes(v.time, Endian::Big) + seq![
            if v.use_security {
                1u8
            } else {
                0u8
            },
        ]
    }

    open spec fn spec_read(s: Seq<u8>) -> Result<Self, DecodeError> {
        if s.len() < 17 {
            Err(DecodeError::UnexpectedEnd)
        } else {
            Ok(
                ConnectionRequest {
                    guid: u64_at(s, 0, Endian::Big),
                    time: i64_at(s, 8, Endian::Big),
                    use_security: s[16] != 0,
                },
            )
        }
    }

    fn id() -> (r: u8) {
        0x09
    }

    fn write(&self, w: &mut Writer) {
        let ghost start = w@;
        w.write_u64(self.guid, Endian::Big);
        w.write_i64(self.time, Endian::Big);
        w.write_u8(
            if self.use_security {
                1
            } else {
                0
            },
        );
        assert(w@ =~= start + Self::spec_write(self@));
    }

    fn read(payload: &[u8]) -> (r: Result<Self, DecodeError>) {
        let mut c = Reader::new(payload);
        let guid = c.read_u64(Endian::Big)?;
        let time = c.read_i64(Endian::Big)?;
        let use_security = c.read_u8()? != 0;
        Ok(ConnectionRequest { guid, time, use_security })
    }
}

/// Filler written where the protocol carries the peer's internal addresses.
pub open spec fn internal_filler() -> Seq<u8> {
    Seq::new(10, |i: int| 6u8)
}

fn write_internal_filler(w: &mut Writer)
    ensures
        final(w)@ == old(w)@ + internal_filler(),
{
    let ghost start = w@;
    let mut i: usize = 0;
    while i < 10
        invariant
            i <= 10,
            w@ == start + Seq::new(i as nat, |k: int| 6u8),
        decreases 10 - i,
    {
        w.write_u8(6);
        i = i + 1;
        assert(w@ =~= start + Seq::new(i as nat, |k: int| 6u8));
    }
}

/// Moves the reader to the last 16 bytes of its data, which hold two timestamps.
fn seek_timestamps(c: &mut Reader, len: usize) -> (r: Result<(), DecodeError>)
    requires
        old(c).data().len() == len,
        0 <= old(c).position() <= len,
    ensures
        final(c).data() == old(c).data(),
        match r {
            Ok(_) => old(c).position() + 16 <= len && final(c).position() == len - 16,
            Err(e) => old(c).position() + 16 > len && e == DecodeError::UnexpectedEnd,
        },
{
    let pos = c.pos();
    if (len as u64) < 16 || pos > (len as u64) - 16 {
        return Err(DecodeError::UnexpectedEnd);
    }
    c.next((len as u64) - 16 - pos);
    Ok(())
}

/// Server's acceptance of a [`ConnectionRequest`].
#[derive(Clone, Copy, Debug, PartialEq, Eq)]
pub struct ConnectionRequestAccepted {
    pub client_address: Address,
    pub system_index: u16,
    pub request_timestamp: i64,
    pub accepted_timestamp: i64,
}

impl ConnectionRequestAccepted {
    pub fn new(client_address: Address, request_timestamp: i64, accepted_timestamp: i64) -> (r:
        Self)
        ensures
            r.client_address == client_address,
            r.system_index == 0,
            r.request_timestamp == request_timestamp,
            r.accepted_timestamp == accepted_timestamp,
    {
        ConnectionRequestAccepted {
            client_address,
            system_index: 0,
            request_timestamp,
            accepted_timestamp,
        }
    }

    /// An acceptance survives encoding and decoding.
    pub proof fn lemma_round_trip(v: Self)
        ensures
            Self::spec_read(Self::spec_write(v)) == Ok::<Self, DecodeError>(v),
    {
        let s = Self::spec_write(v);
        let a = address_bytes(v.client_address);
        let tail = uint_bytes(v.system_index as nat, 2, Endian::Big) + internal_filler() + i64_bytes(
            v.request_timestamp,
            Endian::Big,
        ) + i64_bytes(v.accepted_timestamp, Endian::Big);
        assert(s =~= Seq::<u8>::empty() + a + tail);
        lemma_address_round_trip(v.client_address, Seq::empty(), tail);
        let q: int = a.len() as int;
        let n: int = s.len() as int;
        assert(s.subrange(q, q + 2) =~= uint_bytes(v.system_index as nat, 2, Endian::Big));
        assert(s.subrange(n - 16, n - 8) =~= i64_bytes(v.request_timestamp, Endian::Big));
        assert(s.subrange(n - 8, n) =~= i64_bytes(v.accepted_timestamp, Endian::Big));
        lemma_u16_field(s, q, Endian::Big, v.system_index);
        lemma_i64_field(s, n - 16, Endian::Big, v.request_timestamp);
        lemma_i64_field(s, n - 8, Endian::Big, v.accepted_timestamp);
    }
}

impl View for ConnectionRequestAccepted {
    type V = ConnectionRequestAccepted;

    open spec fn view(&self) -> ConnectionRequestAccepted {
        *self
    }
}

impl Packet for ConnectionRequestAccepted {
    open spec fn spec_id() -> u8 {
        0x10
    }

    open spec fn wf(v: Self) -> bool {
        true
    }

    open spec fn spec_write(v: Self) -> Seq<u8> {
        address_bytes(v.client_address) + uint_bytes(v.system_index as nat, 2, Endian::Big)
            + internal_filler() + i64_bytes(v.request_timestamp, Endian::Big) + i64_bytes(
            v.accepted_timestamp,
            Endian::Big,
        )
    }

    /// The timestamps are the last 16 bytes, whatever lies between them and
    /// the system index.
    open spec fn spec_read(s: Seq<u8>) -> Result<Self, DecodeError> {
        if !address_fits(s, 0) {
            Err(DecodeError::UnexpectedEnd)
        } else {
            let q = address_len(s, 0);
            if s.len() < q + 2 + 16 {
                Err(DecodeError::UnexpectedEnd)
            } else {
                Ok(
                    ConnectionRequestAccepted {
                        client_address: address_at(s, 0),
                        system_index: u16_at(s, q, Endian::Big),
                        request_timestamp: i64_at(s, s.len() - 16, Endian::Big),
                        accepted_timestamp: i64_at(s, s.len() - 8, Endian::Big),
                    },
                )
            }
        }
    }

    fn id() -> (r: u8) {
        0x10
    }

    fn write(&self, w: &mut Writer) {
        let ghost start = w@;
        w.write_address(&self.client_address);
        w.write_u16(self.system_index, Endian::Big);
        write_internal_filler(w);
        w.write_i64(self.request_timestamp, Endian::Big);
        w.write_i64(self.accepted_timestamp, Endian::Big);
        assert(w@ =~= start + Self::spec_write(self@));
    }

    fn read(payload: &[u8]) -> (r: Result<Self, DecodeError>) {
        let mut c = Reader::new(payload);
        let client_address = c.read_address()?;
        let system_index = c.read_u16(Endian::Big)?;
        seek_timestamps(&mut c, payload.len())?;
        let request_timestamp = c.read_i64(Endian::Big)?;
        let accepted_timestamp = c.read_i64(Endian::Big)?;
        Ok(ConnectionRequestAccepted { client_address, system_index, request_timestamp, accepted_timestamp })
    }
}

/// Client's confirmation that completes a connection.
#[derive(Clone, Copy, Debug, PartialEq, Eq)]
pub struct NewIncomingConnection {
    pub server_address: Address,
    pub request_timestamp: i64,
    pub accepted_timestamp: i64,
}

impl NewIncomingConnection {
    pub fn new(server_address: Address, request_timestamp: i64, accepted_timestamp: i64) -> (r:
        Self)
        ensures
            r.server_address == server_address,
            r.request_timestamp == request_timestamp,
            r.accepted_timestamp == accepted_timestamp,
    {
        NewIncomingConnection { server_address, request_timestamp, accepted_timestamp }
    }

    /// A connection confirmation survives encoding and decoding.
    pub proof fn lemma_round_trip(v: Self)
        ensures
            Self::spec_read(Self::spec_write(v)) == Ok::<Self, DecodeError>(v),
    {
        let s = Self::spec_write(v);
        let a = address_bytes(v.server_address);
        let tail = internal_filler() + i64_bytes(v.request_timestamp, Endian::Big) + i64_bytes(
            v.accepted_timestamp,
            Endian::Big,
        );
        assert(s =~= Seq::<u8>::empty() + a + tail);
        lemma_address_round_trip(v.server_address, Seq::empty(), tail);
        let n: int = s.len() as int;
        assert(s.subrange(n - 16, n - 8) =~= i64_bytes(v.request_timestamp, Endian::Big));
        assert(s.subrange(n - 8, n) =~= i64_bytes(v.accepted_timestamp, Endian::Big));
        lemma_i64_field(s, n - 16, Endian::Big, v.request_timestamp);
        lemma_i64_field(s, n - 8, Endian::Big, v.accepted_timestamp);
    }
}

impl View for NewIncomingConnection {
    type V = NewIncomingConnection;

    open spec fn view(&self) -> NewIncomingConnection {
        *self
    }
}

impl Packet for NewIncomingConnection {
    open spec fn spec_id() -> u8 {
        0x13
    }

    open spec fn wf(v: Self) -> bool {
        true
    }

    open spec fn spec_write(v: Self) -> Seq<u8> {
        address_bytes(v.server_address) + internal_filler() + i64_bytes(
            v.request_timestamp,
            Endian::Big,
        ) + i64_bytes(v.accepted_timestamp, Endian::Big)
    }

    /// The timestamps are the last 16 bytes, whatever lies between them and
    /// the address.
    open spec fn spec_read(s: Seq<u8>) -> Result<Self, DecodeError> {
        if !address_fits(s, 0) || s.len() < address_len(s, 0) + 16 {
            Err(DecodeError::UnexpectedEnd)
        } else {
            Ok(
                NewIncomingConnection {
                    server_address: address_at(s, 0),
                    request_timestamp: i64_at(s, s.len() - 16, Endian::Big),
                    accepted_timestamp: i64_at(s, s.len() - 8, Endian::Big),
                },
            )
        }
    }

    fn id() -> (r: u8) {
        0x13
    }

    fn write(&self, w: &mut Writer) {
        let ghost start = w@;
        w.write_address(&self.server_address);
        write_internal_filler(w);
        w.write_i64(self.request_timestamp, Endian::Big);
        w.write_i64(self.accepted_timestamp, Endian::Big);
        assert(w@ =~= start + Self::spec_write(self@));
    }

    fn read(payload: &[u8]) -> (r: Result<Self, DecodeError>) {
        let mut c = Reader::new(payload);
        let server_address = c.read_address()?;
        seek_timestamps(&mut c, payload.len())?;
        let request_timestamp = c.read_i64(Endian::Big)?;
        let accepted_timestamp = c.read_i64(Endian::Big)?;
        Ok(NewIncomingConnection { server_address, request_timestamp, accepted_timestamp })
    }
}

/// Announces the end of a connection. It has no body.
#[derive(Clone, Copy, Debug, PartialEq, Eq)]
pub struct Disconnected {}

impl Disconnected {
    /// A disconnect notice survives encoding and decoding.
    pub proof fn lemma_round_trip(v: Self)
        ensures
            Self::spec_read(Self::spec_write(v)) == Ok::<Self, DecodeError>(v),
    {
    }
}

impl View for Disconnected {
    type V = Disconnected;

    open spec fn view(&self) -> Disconnected {
        *self
    }
}

impl Packet for Disconnected {
    open spec fn spec_id() -> u8 {
        0x15
    }

    open spec fn wf(v: Self) -> bool {
        true
    }

    open spec fn spec_write(v: Self) -> Seq<u8> {
        Seq::empty()
    }

    open spec fn spec_read(s: Seq<u8>) -> Result<Self, DecodeError> {
        Ok(Disconnected {  })
    }

    fn id() -> (r: u8) {
        0x15
    }

    fn write(&self, w: &mut Writer) {
        assert(w@ =~= w@ + Seq::<u8>::empty());
    }

    fn read(payload: &[u8]) -> (r: Result<Self, DecodeError>) {
        Ok(Disconnected {  })
    }
}

/// Answer to a second connection attempt from a GUID that is already connected.
#[derive(Clone, Copy, Debug, PartialEq, Eq)]
pub struct AlreadyConnected {
    pub guid: u64,
}

impl AlreadyConnected {
    pub fn new(guid: u64) -> (r: Self)
        ensures
            r.guid == guid,
    {
        AlreadyConnected { guid }
    }

    /// An already-connected notice survives encoding and decoding.
    pub proof fn lemma_round_trip(v: Self)
        ensures
            Self::spec_read(Self::spec_write(v)) == Ok::<Self, DecodeError>(v),
    {
        let s = Self::spec_write(v);
        assert(s.subrange(16, 24) =~= uint_bytes(v.guid as nat, 8, Endian::Big));
        lemma_u64_field(s, 16, Endian::Big, v.guid);
    }
}

impl View for AlreadyConnected {
    type V = AlreadyConnected;

    open spec fn view(&self) -> AlreadyConnected {
        *self
    }
}

impl Packet for AlreadyConnected {
    open spec fn spec_id() -> u8 {
        0x12
    }

    open spec fn wf(v: Self) -> bool {
        true
    }

    open spec fn spec_write(v: Self) -> Seq<u8> {
        magic() + uint_bytes(v.guid as nat, 8, Endian::Big)
    }

    open spec fn spec_read(s: Seq<u8>) -> Result<Self, DecodeError> {
        if s.len() < 24 {
            Err(DecodeError::UnexpectedEnd)
        } else {
            Ok(AlreadyConnected { guid: u64_at(s, 16, Endian::Big) })
        }
    }

    fn id() -> (r: u8) {
        0x12
    }

    fn write(&self, w: &mut Writer) {
        let ghost start = w@;
        w.write_magic();
        w.write_u64(self.guid, Endian::Big);
        assert(w@ =~= start + Self::spec_write(self@));
    }

    fn read(payload: &[u8]) -> (r: Result<Self, DecodeError>) {
        let mut c = Reader::new(payload);
        c.read_magic()?;
        let guid = c.read_u64(Endian::Big)?;
        Ok(AlreadyConnected { guid })
    }
}

/// Server's refusal of a client whose protocol version differs from its own.
#[derive(Clone, Copy, Debug, PartialEq, Eq)]
pub struct IncompatibleProtocolVersion {
    pub server_protocol: u8,
    pub server_guid: u64,
}

impl IncompatibleProtocolVersion {
    pub fn new(protocol_v: u8, guid: u64) -> (r: Self)
        ensures
            r.server_protocol == protocol_v,
            r.server_guid == guid,
    {
        IncompatibleProtocolVersion { server_protocol: protocol_v, server_guid: guid }
    }

    /// A version refusal survives encoding and decoding.
    pub proof fn lemma_round_trip(v: Self)
        ensures
            Self::spec_read(Self::spec_write(v)) == Ok::<Self, DecodeError>(v),
    {
        let s = Self::spec_write(v);
        assert(s.subrange(17, 25) =~= uint_bytes(v.server_guid as nat, 8, Endian::Big));
        lemma_u64_field(s, 17, Endian::Big, v.server_guid);
    }
}

impl View for IncompatibleProtocolVersion {
    type V = IncompatibleProtocolVersion;

    open spec fn view(&self) -> IncompatibleProtocolVersion {
        *self
    }
}

impl Packet for IncompatibleProtocolVersion {
    open spec fn spec_id() -> u8 {
        0x19
    }

    open spec fn wf(v: Self) -> bool {
        true
    }

    open spec fn spec_write(v: Self) -> Seq<u8> {
        seq![v.server_protocol] + magic() + uint_bytes(v.server_guid as nat, 8, Endian::Big)
    }

    open spec fn spec_read(s: Seq<u8>) -> Result<Self, DecodeError> {
        if s.len() < 25 {
            Err(DecodeError::UnexpectedEnd)
        } else {
            Ok(
                IncompatibleProtocolVersion {
                    server_protocol: s[0],
                    server_guid: u64_at(s, 17, Endian::Big),
                },
            )
        }
    }

    fn id() -> (r: u8) {
        0x19
    }

    fn write(&self, w: &mut Writer) {
        let ghost start = w@;
        w.write_u8(self.server_protocol);
        w.write_magic();
        w.write_u64(self.server_guid, Endian::Big);
        assert(w@ =~= start + Self::spec_write(self@));
    }

    fn read(payload: &[u8]) -> (r: Result<Self, DecodeError>) {
        let mut c = Reader::new(payload);
        let server_protocol = c.read_u8()?;
        c.read_magic()?;
        let server_guid = c.read_u64(Endian::Big)?;
        Ok(IncompatibleProtocolVersion { server_protocol, server_guid })
    }
}


/// Server's answer to an [`UnconnectedPing`], carrying its description string.
#[derive(Clone, Debug)]
pub struct UnconnectedPong {
    pub time: i64,
    pub guid: u64,
    pub motd: String,
}

impl UnconnectedPong {
    pub fn new(time: i64, guid: u64, motd: String) -> (r: Self)
        ensures
            r.time == time,
            r.guid == guid,
            r.motd@ == motd@,
    {
        UnconnectedPong { time, guid, motd }
    }

    /// An unconnected pong survives encoding and decoding, its description
    /// included, as long as that fits the 16-bit length field.
    pub proof fn lemma_round_trip(v: (i64, u64, Seq<char>))
        requires
            Self::wf(v),
        ensures
            Self::spec_read(Self::spec_write(v)) == Ok::<(i64, u64, Seq<char>), DecodeError>(v),
    {
        let s = Self::spec_write(v);
        let b = encode_utf8(v.2);
        assert(s.subrange(0, 8) =~= i64_bytes(v.0, Endian::Big));
        assert(s.subrange(8, 16) =~= uint_bytes(v.1 as nat, 8, Endian::Big));
        assert(s.subrange(32, 34) =~= uint_bytes(b.len(), 2, Endian::Big));
        assert(s.subrange(34, 34 + b.len() as int) =~= b);
        lemma_i64_field(s, 0, Endian::Big, v.0);
        lemma_u64_field(s, 8, Endian::Big, v.1);
        lemma_u16_field(s, 32, Endian::Big, b.len() as u16);
        encode_utf8_valid_utf8(v.2);
        encode_utf8_decode_utf8(v.2);
    }
}

impl View for UnconnectedPong {
    type V = (i64, u64, Seq<char>);

    open spec fn view(&self) -> (i64, u64, Seq<char>) {
        (self.time, self.guid, self.motd@)
    }
}

impl Packet for UnconnectedPong {
    open spec fn spec_id() -> u8 {
        0x1c
    }

    open spec fn wf(v: (i64, u64, Seq<char>)) -> bool {
        encode_utf8(v.2).len() <= u16::MAX
    }

    open spec fn spec_write(v: (i64, u64, Seq<char>)) -> Seq<u8> {
        i64_bytes(v.0, Endian::Big) + uint_bytes(v.1 as nat, 8, Endian::Big) + magic()
            + string_bytes(v.2)
    }

    open spec fn spec_read(s: Seq<u8>) -> Result<(i64, u64, Seq<char>), DecodeError> {
        if s.len() < 34 {
            Err(DecodeError::UnexpectedEnd)
        } else {
            let n = u16_at(s, 32, Endian::Big) as int;
            if s.len() < 34 + n {
                Err(DecodeError::UnexpectedEnd)
            } else if !valid_utf8(s.subrange(34, 34 + n)) {
                Err(DecodeError::InvalidUtf8)
            } else {
                Ok(
                    (
                        i64_at(s, 0, Endian::Big),
                        u64_at(s, 8, Endian::Big),
                        decode_utf8(s.subrange(34, 34 + n)),
                    ),
                )
            }
        }
    }

    fn id() -> (r: u8) {
        0x1c
    }

    fn write(&self, w: &mut Writer) {
        let ghost start = w@;
        w.write_i64(self.time, Endian::Big);
        w.write_u64(self.guid, Endian::Big);
        w.write_magic();
        w.write_string(self.motd.as_str());
        assert(w@ =~= start + Self::spec_write(self@));
    }

    fn read(payload: &[u8]) -> (r: Result<Self, DecodeError>) {
        let mut c = Reader::new(payload);
        let time = c.read_i64(Endian::Big)?;
        let guid = c.read_u64(Endian::Big)?;
        c.read_magic()?;
        proof {
            lemma_uint_value_bound(payload@.subrange(32, 34), Endian::Big);
            reveal_with_fuel(pow256, 3);
        }
        let motd = c.read_string()?;
        Ok(UnconnectedPong { time, guid, motd })
    }
}

/// The sequence numbers from `lo` to `hi`, both included.
pub open spec fn seq_range(lo: u32, hi: u32) -> Seq<u32> {
    Seq::new(
        if hi >= lo {
            (hi - lo + 1) as nat
        } else {
            0
        },
        |i: int| (lo + i) as u32,
    )
}

/// Wire form of an acknowledgement record: the 16-bit big-endian record
/// count, a flag byte that says whether the range holds one number, then the
/// lower bound and, unless the flag is set, the upper bound, each a 24-bit
/// little-endian number.
pub open spec fn range_record_bytes(count: u16, single: bool, range: (u32, u32)) -> Seq<u8> {
    uint_bytes(count as nat, 2, Endian::Big) + seq![
        if single {
            1u8
        } else {
            0u8
        },
    ] + uint_bytes(range.0 as nat, 3, Endian::Little) + if single {
        Seq::empty()
    } else {
        uint_bytes(range.1 as nat, 3, Endian::Little)
    }
}

/// What an acknowledgement record decodes to.
pub open spec fn range_record_read(s: Seq<u8>) -> Result<(u16, bool, (u32, u32)), DecodeError> {
    if s.len() < 6 {
        Err(DecodeError::UnexpectedEnd)
    } else if s[2] != 0 {
        Ok((u16_at(s, 0, Endian::Big), true, (u24_at(s, 3, Endian::Little), u24_at(s, 3, Endian::Little))))
    } else if s.len() < 9 {
        Err(DecodeError::UnexpectedEnd)
    } else {
        Ok((u16_at(s, 0, Endian::Big), false, (u24_at(s, 3, Endian::Little), u24_at(s, 6, Endian::Little))))
    }
}

/// The record's range fits 24 bits and, when flagged as one number, holds one.
pub open spec fn range_record_wf(single: bool, range: (u32, u32)) -> bool {
    &&& range.0 < 0x100_0000
    &&& range.1 < 0x100_0000
    &&& single ==> range.0 == range.1
}

pub proof fn lemma_range_record_round_trip(count: u16, single: bool, range: (u32, u32))
    requires
        range_record_wf(single, range),
    ensures
        range_record_read(range_record_bytes(count, single, range)) == Ok::<
            (u16, bool, (u32, u32)),
            DecodeError,
        >((count, single, range)),
{
    let s = range_record_bytes(count, single, range);
    assert(s.subrange(0, 2) =~= uint_bytes(count as nat, 2, Endian::Big));
    assert(s.subrange(3, 6) =~= uint_bytes(range.0 as nat, 3, Endian::Little));
    lemma_u16_field(s, 0, Endian::Big, count);
    lemma_u24_field(s, 3, Endian::Little, range.0);
    if !single {
        assert(s.subrange(6, 9) =~= uint_bytes(range.1 as nat, 3, Endian::Little));
        lemma_u24_field(s, 6, Endian::Little, range.1);
    }
}

fn write_range_record(w: &mut Writer, count: u16, single: bool, range: (u32, u32))
    requires
        range_record_wf(single, range),
    ensures
        final(w)@ == old(w)@ + range_record_bytes(count, single, range),
{
    let ghost start = w@;
    w.write_u16(count, Endian::Big);
    w.write_u8(
        if single {
            1
        } else {
            0
        },
    );
    w.write_u24(range.0, Endian::Little);
    if !single {
        w.write_u24(range.1, Endian::Little);
    }
    assert(w@ =~= start + range_record_bytes(count, single, range));
}

fn read_range_record(payload: &[u8]) -> (r: Result<(u16, bool, (u32, u32)), DecodeError>)
    ensures
        r == range_record_read(payload@),
{
    let mut c = Reader::new(payload);
    let record_count = c.read_u16(Endian::Big)?;
    let single = c.read_u8()? != 0;
    let low = c.read_u24(Endian::Little)?;
    if single {
        Ok((record_count, true, (low, low)))
    } else {
        let high = c.read_u24(Endian::Little)?;
        Ok((record_count, false, (low, high)))
    }
}

/// The numbers from `lo` to `hi`, both included.
fn range_numbers(lo: u32, hi: u32) -> (r: Vec<u32>)
    ensures
        r@ == seq_range(lo, hi),
{
    let mut out: Vec<u32> = Vec::new();
    let mut i: u64 = lo as u64;
    while i <= hi as u64
        invariant
            lo <= i,
            hi >= lo ==> i <= hi + 1,
            hi < lo ==> i == lo,
            out@.len() == i - lo,
            forall|k: int| 0 <= k < out@.len() ==> out@[k] == lo + k,
        decreases hi + 1 - i,
    {
        out.push(i as u32);
        i = i + 1;
    }
    assert(out@ =~= seq_range(lo, hi));
    out
}

/// Acknowledges the datagrams whose sequence numbers lie in a range.
#[derive(Clone, Copy, Debug, PartialEq, Eq)]
pub struct Ack {
    pub record_count: u16,
    pub max_equals_min: bool,
    pub sequences: (u32, u32),
}

impl Ack {
    pub fn new(sequences: (u32, u32)) -> (r: Self)
        ensures
            r.record_count == 1,
            r.max_equals_min == (sequences.0 == sequences.1),
            r.sequences == sequences,
    {
        Ack { record_count: 1, max_equals_min: sequences.0 == sequences.1, sequences }
    }

    /// Every sequence number of the range, in increasing order.
    pub fn get_all(&self) -> (r: Vec<u32>)
        ensures
            r@ == seq_range(self.sequences.0, self.sequences.1),
    {
        range_numbers(self.sequences.0, self.sequences.1)
    }

    /// An acknowledgement survives encoding and decoding.
    pub proof fn lemma_round_trip(v: Self)
        requires
            Self::wf(v),
        ensures
            Self::spec_read(Self::spec_write(v)) == Ok::<Self, DecodeError>(v),
    {
        lemma_range_record_round_trip(v.record_count, v.max_equals_min, v.sequences);
    }
}

impl View for Ack {
    type V = Ack;

    open spec fn view(&self) -> Ack {
        *self
    }
}

impl Packet for Ack {
    open spec fn spec_id() -> u8 {
        0xc0
    }

    open spec fn wf(v: Self) -> bool {
        range_record_wf(v.max_equals_min, v.sequences)
    }

    open spec fn spec_write(v: Self) -> Seq<u8> {
        range_record_bytes(v.record_count, v.max_equals_min, v.sequences)
    }

    open spec fn spec_read(s: Seq<u8>) -> Result<Self, DecodeError> {
        match range_record_read(s) {
            Ok((c, m, q)) => Ok(Ack { record_count: c, max_equals_min: m, sequences: q }),
            Err(e) => Err(e),
        }
    }

    fn id() -> (r: u8) {
        0xc0
    }

    fn write(&self, w: &mut Writer) {
        write_range_record(w, self.record_count, self.max_equals_min, self.sequences);
    }

    fn read(payload: &[u8]) -> (r: Result<Self, DecodeError>) {
        let (record_count, max_equals_min, sequences) = read_range_record(payload)?;
        Ok(Ack { record_count, max_equals_min, sequences })
    }
}

/// Reports the datagrams whose sequence numbers lie in a range as missing.
#[derive(Clone, Copy, Debug, PartialEq, Eq)]
pub struct Nack {
    pub record_count: u16,
    pub max_equals_min: bool,
    pub sequences: (u32, u32),
}

impl Nack {
    pub fn new(sequences: (u32, u32)) -> (r: Self)
        ensures
            r.record_count == 1,
            r.max_equals_min == (sequences.0 == sequences.1),
            r.sequences == sequences,
    {
        Nack { record_count: 1, max_equals_min: sequences.0 == sequences.1, sequences }
    }

    /// Every sequence number of the range, in increasing order.
    pub fn get_all(&self) -> (r: Vec<u32>)
        ensures
            r@ == seq_range(self.sequences.0, self.sequences.1),
    {
        range_numbers(self.sequences.0, self.sequences.1)
    }

    /// A negative acknowledgement survives encoding and decoding.
    pub proof fn lemma_round_trip(v: Self)
        requires
            Self::wf(v),
        ensures
            Self::spec_read(Self::spec_write(v)) == Ok::<Self, DecodeError>(v),
    {
        lemma_range_record_round_trip(v.record_count, v.max_equals_min, v.sequences);
    }
}

impl View for Nack {
    type V = Nack;

    open spec fn view(&self) -> Nack {
        *self
    }
}

impl Packet for Nack {
    open spec fn spec_id() -> u8 {
        0xa0
    }

    open spec fn wf(v: Self) -> bool {
        range_record_wf(v.max_equals_min, v.sequences)
    }

    open spec fn spec_write(v: Self) -> Seq<u8> {
        range_record_bytes(v.record_count, v.max_equals_min, v.sequences)
    }

    open spec fn spec_read(s: Seq<u8>) -> Result<Self, DecodeError> {
        match range_record_read(s) {
            Ok((c, m, q)) => Ok(Nack { record_count: c, max_equals_min: m, sequences: q }),
            Err(e) => Err(e),
        }
    }

    fn id() -> (r: u8) {
        0xa0
    }

    fn write(&self, w: &mut Writer) {
        write_range_record(w, self.record_count, self.max_equals_min, self.sequences);
    }

    fn read(payload: &[u8]) -> (r: Result<Self, DecodeError>) {
        let (record_count, max_equals_min, sequences) = read_range_record(payload)?;
        Ok(Nack { record_count, max_equals_min, sequences })
    }
}

} // verus!
