//! Primitive wire encodings: unsigned integers of one to eight bytes in either
//! byte order, signed 64-bit integers, length-prefixed strings, the protocol
//! magic and socket addresses.
use vstd::prelude::*;
use vstd::utf8::{decode_utf8, encode_utf8, valid_utf8};

verus! {

/// Byte order of a multi-byte field.
#[derive(Clone, Copy, PartialEq, Eq, Debug)]
pub enum Endian {
    Big,
    Little,
}

/// `256` raised to `n`.
pub open spec fn pow256(n: nat) -> nat
    decreases n,
{
    if n == 0 {
        1
    } else {
        256 * pow256((n - 1) as nat)
    }
}

/// The `n` low-order bytes of `v`, least significant first.
pub open spec fn le_bytes(v: nat, n: nat) -> Seq<u8>
    decreases n,
{
    if n == 0 {
        Seq::empty()
    } else {
        seq![(v % 256) as u8] + le_bytes(v / 256, (n - 1) as nat)
    }
}

/// The number whose little-endian representation is `s`.
pub open spec fn le_value(s: Seq<u8>) -> nat
    decreases s.len(),
{
    if s.len() == 0 {
        0
    } else {
        s[0] as nat + 256 * le_value(s.drop_first())
    }
}

/// The `n`-byte representation of `v` in byte order `e`.
pub open spec fn uint_bytes(v: nat, n: nat, e: Endian) -> Seq<u8> {
    match e {
        Endian::Little => le_bytes(v, n),
        Endian::Big => le_bytes(v, n).reverse(),
    }
}

/// The number that the bytes `s` represent in byte order `e`.
pub open spec fn uint_value(s: Seq<u8>, e: Endian) -> nat {
    match e {
        Endian::Little => le_value(s),
        Endian::Big => le_value(s.reverse()),
    }
}

/// Two's complement of a signed 64-bit integer, as an unsigned one.
pub open spec fn i64_bits(v: i64) -> nat {
    if v >= 0 {
        v as nat
    } else {
        (v + 0x1_0000_0000_0000_0000) as nat
    }
}

/// The signed 64-bit integer whose two's complement is `u`.
pub open spec fn i64_of_bits(u: nat) -> int {
    if u < 0x8000_0000_0000_0000 {
        u as int
    } else {
        u - 0x1_0000_0000_0000_0000
    }
}

pub proof fn lemma_le_bytes_len(v: nat, n: nat)
    ensures
        le_bytes(v, n).len() == n,
    decreases n,
{
    if n > 0 {
        lemma_le_bytes_len(v / 256, (n - 1) as nat);
    }
}

pub proof fn lemma_pow256_positive(n: nat)
    ensures
        pow256(n) >= 1,
    decreases n,
{
    if n > 0 {
        lemma_pow256_positive((n - 1) as nat);
    }
}

/// Reading back the `n` low-order bytes of a number below `256^n` gives the number.
pub proof fn lemma_le_round_trip(v: nat, n: nat)
    requires
        v < pow256(n),
    ensures
        le_value(le_bytes(v, n)) == v,
    decreases n,
{
    if n > 0 {
        let p = pow256((n - 1) as nat);
        assert(v / 256 < p) by (nonlinear_arith)
            requires
                v < 256 * p,
        ;
        lemma_le_round_trip(v / 256, (n - 1) as nat);
        assert(le_bytes(v, n).drop_first() =~= le_bytes(v / 256, (n - 1) as nat));
    }
}

/// A little-endian value of `k` bytes is below `256^k`.
pub proof fn lemma_le_value_bound(s: Seq<u8>)
    ensures
        le_value(s) < pow256(s.len()),
    decreases s.len(),
{
    if s.len() > 0 {
        lemma_le_value_bound(s.drop_first());
        let r = le_value(s.drop_first());
        let p = pow256((s.len() - 1) as nat);
        assert(s[0] as nat + 256 * r < 256 * p) by (nonlinear_arith)
            requires
                r < p,
                s[0] < 256,
        ;
    }
}

/// Decoding the encoding of a number that fits in `n` bytes gives it back, in either byte order.
pub proof fn lemma_uint_round_trip(v: nat, n: nat, e: Endian)
    requires
        v < pow256(n),
    ensures
        uint_value(uint_bytes(v, n, e), e) == v,
        uint_bytes(v, n, e).len() == n,
{
    lemma_le_round_trip(v, n);
    lemma_le_bytes_len(v, n);
    assert(le_bytes(v, n).reverse().reverse() =~= le_bytes(v, n));
}

pub proof fn lemma_i64_round_trip(v: i64)
    ensures
        i64_bits(v) < pow256(8),
        i64_of_bits(i64_bits(v)) == v,
{
    reveal_with_fuel(pow256, 9);
}


/// Failure to decode a datagram or one of its fields.
#[derive(Clone, Copy, PartialEq, Eq, Debug)]
pub enum DecodeError {
    /// The buffer ended before the field did.
    UnexpectedEnd,
    /// A frame header named a reliability class outside the five known ones.
    UnknownReliability,
    /// A string field was not valid UTF-8.
    InvalidUtf8,
    /// A size read from the wire does not fit its field.
    SizeOverflow,
}

/// An append-only byte buffer with typed field writers.
pub struct Writer {
    inner: Vec<u8>,
}

impl View for Writer {
    type V = Seq<u8>;

    closed spec fn view(&self) -> Seq<u8> {
        self.inner@
    }
}

impl Writer {
    pub fn new(inner: Vec<u8>) -> (r: Self)
        ensures
            r@ == inner@,
    {
        Writer { inner }
    }

    /// The bytes written so far.
    pub fn into_inner(self) -> (r: Vec<u8>)
        ensures
            r@ == self@,
    {
        self.inner
    }

    pub fn write(&mut self, v: &[u8])
        ensures
            final(self)@ == old(self)@ + v@,
    {
        let ghost start = self@;
        let mut i: usize = 0;
        while i < v.len()
            invariant
                i <= v@.len(),
                self@ == start + v@.subrange(0, i as int),
            decreases v@.len() - i,
        {
            self.inner.push(v[i]);
            i = i + 1;
            assert(self@ =~= start + v@.subrange(0, i as int));
        }
        assert(v@.subrange(0, v@.len() as int) =~= v@);
    }

    pub fn write_u8(&mut self, v: u8)
        ensures
            final(self)@ == old(self)@.push(v),
    {
        self.inner.push(v);
    }

    /// Appends the `n` low-order bytes of `v` in byte order `e`.
    fn write_uint(&mut self, v: u64, n: usize, e: Endian)
        requires
            n <= 8,
            v < pow256(n as nat),
        ensures
            final(self)@ == old(self)@ + uint_bytes(v as nat, n as nat, e),
    {
        let mut le: Vec<u8> = Vec::new();
        let mut cur: u64 = v;
        let mut i: usize = 0;
        while i < n
            invariant
                i <= n,
                le@ + le_bytes(cur as nat, (n - i) as nat) == le_bytes(v as nat, n as nat),
                le@.len() == i,
            decreases n - i,
        {
            le.push((cur % 256) as u8);
            assert(le_bytes(cur as nat, (n - i) as nat) =~= seq![(cur % 256) as u8] + le_bytes(
                (cur / 256) as nat,
                (n - i - 1) as nat,
            ));
            cur = cur / 256;
            i = i + 1;
        }
        assert(le@ =~= le_bytes(v as nat, n as nat));
        match e {
            Endian::Little => {
                self.write(le.as_slice());
            },
            Endian::Big => {
                let ghost start = self@;
                let mut j: usize = n;
                while j > 0
                    invariant
                        j <= n,
                        le@.len() == n,
                        self@ == start + le@.reverse().subrange(0, (n - j) as int),
                    decreases j,
                {
                    j = j - 1;
                    self.inner.push(le[j]);
                    assert(self@ =~= start + le@.reverse().subrange(0, (n - j) as int));
                }
                assert(le@.reverse().subrange(0, n as int) =~= le@.reverse());
            },
        }
    }

    pub fn write_u16(&mut self, v: u16, e: Endian)
        ensures
            final(self)@ == old(self)@ + uint_bytes(v as nat, 2, e),
    {
        proof {
            reveal_with_fuel(pow256, 3);
        }
        self.write_uint(v as u64, 2, e);
    }

    pub fn write_u32(&mut self, v: u32, e: Endian)
        ensures
            final(self)@ == old(self)@ + uint_bytes(v as nat, 4, e),
    {
        proof {
            reveal_with_fuel(pow256, 5);
        }
        self.write_uint(v as u64, 4, e);
    }

    /// Appends a 24-bit field.
    pub fn write_u24(&mut self, v: u32, e: Endian)
        requires
            v < 0x100_0000,
        ensures
            final(self)@ == old(self)@ + uint_bytes(v as nat, 3, e),
    {
        proof {
            reveal_with_fuel(pow256, 4);
        }
        self.write_uint(v as u64, 3, e);
    }

    pub fn write_u64(&mut self, v: u64, e: Endian)
        ensures
            final(self)@ == old(self)@ + uint_bytes(v as nat, 8, e),
    {
        proof {
            reveal_with_fuel(pow256, 9);
        }
        self.write_uint(v, 8, e);
    }

    /// Appends the two's complement of `v`.
    pub fn write_i64(&mut self, v: i64, e: Endian)
        ensures
            final(self)@ == old(self)@ + uint_bytes(i64_bits(v), 8, e),
    {
        let u: u64 = if v >= 0 {
            v as u64
        } else {
            0xFFFF_FFFF_FFFF_FFFFu64 - ((-(v + 1)) as u64)
        };
        assert(u as nat == i64_bits(v));
        self.write_u64(u, e);
    }

    /// Number of bytes written so far.
    pub fn pos(&self) -> (r: usize)
        ensures
            r == self@.len(),
    {
        self.inner.len()
    }
}

/// A read cursor over a byte slice. The position may pass the end of the
/// slice; reads from there fail.
pub struct Reader<'a> {
    buf: &'a [u8],
    cursor: u64,
}

impl<'a> Reader<'a> {
    /// The bytes being read.
    pub closed spec fn data(&self) -> Seq<u8> {
        self.buf@
    }

    /// The offset of the next byte to read.
    pub closed spec fn position(&self) -> int {
        self.cursor as int
    }

    pub fn new(buf: &'a [u8]) -> (r: Self)
        ensures
            r.data() == buf@,
            r.position() == 0,
    {
        Reader { buf, cursor: 0 }
    }

    /// Takes the next `n` bytes.
    pub fn read(&mut self, n: usize) -> (r: Result<Vec<u8>, DecodeError>)
        ensures
            final(self).data() == old(self).data(),
            match r {
                Ok(v) => {
                    &&& old(self).position() + n <= old(self).data().len()
                    &&& v@ == old(self).data().subrange(
                        old(self).position(),
                        old(self).position() + n,
                    )
                    &&& final(self).position() == old(self).position() + n
                },
                Err(e) => {
                    &&& old(self).position() + n > old(self).data().len()
                    &&& e == DecodeError::UnexpectedEnd
                    &&& final(self).position() == old(self).position()
                },
            },
    {
        let len = self.buf.len();
        if self.cursor > len as u64 || n > len - (self.cursor as usize) {
            return Err(DecodeError::UnexpectedEnd);
        }
        let start = self.cursor as usize;
        let mut out: Vec<u8> = Vec::new();
        let mut i: usize = 0;
        while i < n
            invariant
                start + n <= self.buf@.len(),
                self.buf@.len() == len,
                i <= n,
                out@ == self.buf@.subrange(start as int, start + i),
            decreases n - i,
        {
            out.push(self.buf[start + i]);
            i = i + 1;
            assert(out@ =~= self.buf@.subrange(start as int, start + i));
        }
        self.cursor = (start + n) as u64;
        Ok(out)
    }

    pub fn read_u8(&mut self) -> (r: Result<u8, DecodeError>)
        ensures
            final(self).data() == old(self).data(),
            match r {
                Ok(v) => {
                    &&& old(self).position() < old(self).data().len()
                    &&& v == old(self).data()[old(self).position()]
                    &&& final(self).position() == old(self).position() + 1
                },
                Err(e) => {
                    &&& old(self).position() >= old(self).data().len()
                    &&& e == DecodeError::UnexpectedEnd
                    &&& final(self).position() == old(self).position()
                },
            },
    {
        if self.cursor >= self.buf.len() as u64 {
            return Err(DecodeError::UnexpectedEnd);
        }
        let v = self.buf[self.cursor as usize];
        self.cursor = self.cursor + 1;
        Ok(v)
    }

    /// Reads an `n`-byte unsigned field in byte order `e`.
    fn read_uint(&mut self, n: usize, e: Endian) -> (r: Result<u64, DecodeError>)
        requires
            n <= 8,
        ensures
            final(self).data() == old(self).data(),
            match r {
                Ok(v) => {
                    &&& old(self).position() + n <= old(self).data().len()
                    &&& v == uint_value(
                        old(self).data().subrange(
                            old(self).position(),
                            old(self).position() + n,
                        ),
                        e,
                    )
                    &&& final(self).position() == old(self).position() + n
                },
                Err(e) => {
                    &&& old(self).position() + n > old(self).data().len()
                    &&& e == DecodeError::UnexpectedEnd
                    &&& final(self).position() == old(self).position()
                },
            },
    {
        let bytes = self.read(n)?;
        let ghost s = bytes@;
        let ghost le = match e {
            Endian::Little => s,
            Endian::Big => s.reverse(),
        };
        let mut acc: u64 = 0;
        let mut i: usize = n;
        while i > 0
            invariant
                i <= n,
                n <= 8,
                bytes@ == s,
                s.len() == n,
                le.len() == n,
                le == (match e {
                    Endian::Little => s,
                    Endian::Big => s.reverse(),
                }),
                acc as nat == le_value(le.subrange(i as int, n as int)),
            decreases i,
        {
            i = i - 1;
            let b = match e {
                Endian::Little => bytes[i],
                Endian::Big => bytes[n - 1 - i],
            };
            assert(b == le[i as int]);
            proof {
                let rest = le.subrange(i + 1, n as int);
                assert(le.subrange(i as int, n as int).drop_first() =~= rest);
                lemma_le_value_bound(rest);
                lemma_pow_le8((n - i - 1) as nat);
                assert(acc * 256 + b < 0x1_0000_0000_0000_0000) by (nonlinear_arith)
                    requires
                        acc < pow256((n - i - 1) as nat),
                        pow256((n - i - 1) as nat) <= 0x100_0000_0000_0000,
                        b < 256,
                ;
            }
            acc = acc * 256 + b as u64;
        }
        assert(le.subrange(0, n as int) =~= le);
        Ok(acc)
    }

    pub fn read_u16(&mut self, e: Endian) -> (r: Result<u16, DecodeError>)
        ensures
            final(self).data() == old(self).data(),
            match r {
                Ok(v) => {
                    &&& old(self).position() + 2 <= old(self).data().len()
                    &&& v == uint_value(
                        old(self).data().subrange(
                            old(self).position(),
                            old(self).position() + 2,
                        ),
                        e,
                    )
                    &&& final(self).position() == old(self).position() + 2
                },
                Err(e) => {
                    &&& old(self).position() + 2 > old(self).data().len()
                    &&& e == DecodeError::UnexpectedEnd
                },
            },
    {
        let v = self.read_uint(2, e)?;
        proof {
            let s = old(self).data().subrange(old(self).position(), old(self).position() + 2);
            lemma_uint_value_bound(s, e);
            reveal_with_fuel(pow256, 3);
        }
        Ok(v as u16)
    }

    pub fn read_u24(&mut self, e: Endian) -> (r: Result<u32, DecodeError>)
        ensures
            final(self).data() == old(self).data(),
            match r {
                Ok(v) => {
                    &&& old(self).position() + 3 <= old(self).data().len()
                    &&& v == uint_value(
                        old(self).data().subrange(
                            old(self).position(),
                            old(self).position() + 3,
                        ),
                        e,
                    )
                    &&& v < 0x100_0000
                    &&& final(self).position() == old(self).position() + 3
                },
                Err(e) => {
                    &&& old(self).position() + 3 > old(self).data().len()
                    &&& e == DecodeError::UnexpectedEnd
                },
            },
    {
        let v = self.read_uint(3, e)?;
        proof {
            let s = old(self).data().subrange(old(self).position(), old(self).position() + 3);
            lemma_uint_value_bound(s, e);
            reveal_with_fuel(pow256, 4);
        }
        Ok(v as u32)
    }

    pub fn read_u32(&mut self, e: Endian) -> (r: Result<u32, DecodeError>)
        ensures
            final(self).data() == old(self).data(),
            match r {
                Ok(v) => {
                    &&& old(self).position() + 4 <= old(self).data().len()
                    &&& v == uint_value(
                        old(self).data().subrange(
                            old(self).position(),
                            old(self).position() + 4,
                        ),
                        e,
                    )
                    &&& final(self).position() == old(self).position() + 4
                },
                Err(e) => {
                    &&& old(self).position() + 4 > old(self).data().len()
                    &&& e == DecodeError::UnexpectedEnd
                },
            },
    {
        let v = self.read_uint(4, e)?;
        proof {
            let s = old(self).data().subrange(old(self).position(), old(self).position() + 4);
            lemma_uint_value_bound(s, e);
            reveal_with_fuel(pow256, 5);
        }
        Ok(v as u32)
    }

    pub fn read_u64(&mut self, e: Endian) -> (r: Result<u64, DecodeError>)
        ensures
            final(self).data() == old(self).data(),
            match r {
                Ok(v) => {
                    &&& old(self).position() + 8 <= old(self).data().len()
                    &&& v == uint_value(
                        old(self).data().subrange(
                            old(self).position(),
                            old(self).position() + 8,
                        ),
                        e,
                    )
                    &&& final(self).position() == old(self).position() + 8
                },
                Err(e) => {
                    &&& old(self).position() + 8 > old(self).data().len()
                    &&& e == DecodeError::UnexpectedEnd
                },
            },
    {
        self.read_uint(8, e)
    }

    /// Reads a two's complement 64-bit field.
    pub fn read_i64(&mut self, e: Endian) -> (r: Result<i64, DecodeError>)
        ensures
            final(self).data() == old(self).data(),
            match r {
                Ok(v) => {
                    &&& old(self).position() + 8 <= old(self).data().len()
                    &&& v == i64_of_bits(
                        uint_value(
                            old(self).data().subrange(
                                old(self).position(),
                                old(self).position() + 8,
                            ),
                            e,
                        ),
                    )
                    &&& final(self).position() == old(self).position() + 8
                },
                Err(e) => {
                    &&& old(self).position() + 8 > old(self).data().len()
                    &&& e == DecodeError::UnexpectedEnd
                },
            },
    {
        let u = self.read_u64(e)?;
        if u < 0x8000_0000_0000_0000u64 {
            Ok(u as i64)
        } else {
            Ok(-((0xFFFF_FFFF_FFFF_FFFFu64 - u) as i64) - 1)
        }
    }

    /// Skips `n` bytes; the position may pass the end of the data.
    pub fn next(&mut self, n: u64)
        requires
            old(self).position() + n <= u64::MAX,
        ensures
            final(self).data() == old(self).data(),
            final(self).position() == old(self).position() + n,
    {
        self.cursor = self.cursor + n;
    }

    pub fn pos(&self) -> (r: u64)
        ensures
            r == self.position(),
    {
        self.cursor
    }
}

/// The fixed 16-byte sequence that marks unconnected protocol messages.
pub open spec fn magic() -> Seq<u8> {
    seq![
        0x00u8, 0xff, 0xff, 0x00, 0xfe, 0xfe, 0xfe, 0xfe, 0xfd, 0xfd, 0xfd, 0xfd, 0x12, 0x34, 0x56,
        0x78,
    ]
}

/// A socket address: IPv4 or IPv6 octets and a port.
#[derive(Clone, Copy, Debug, PartialEq, Eq)]
#[allow(inconsistent_fields)]
pub enum Address {
    V4 { ip: [u8; 4], port: u16 },
    V6 { ip: [u8; 16], port: u16 },
}

/// Address family code written in front of an IPv6 address.
pub const IPV6_FAMILY: u16 = 23;

/// Wire form of an address: for IPv4 the byte 4, the octets each XORed
/// with 0xFF and the big-endian port; for IPv6 the byte 6, the little-endian
/// family code, the big-endian port, four zero bytes, the sixteen octets and
/// four zero bytes.
pub open spec fn address_bytes(a: Address) -> Seq<u8> {
    match a {
        Address::V4 { ip, port } => seq![
            4u8,
            (255 - ip[0]) as u8,
            (255 - ip[1]) as u8,
            (255 - ip[2]) as u8,
            (255 - ip[3]) as u8,
        ] + uint_bytes(port as nat, 2, Endian::Big),
        Address::V6 { ip, port } => seq![6u8] + uint_bytes(IPV6_FAMILY as nat, 2, Endian::Little)
            + uint_bytes(port as nat, 2, Endian::Big) + uint_bytes(0, 4, Endian::Big) + ip@
            + uint_bytes(0, 4, Endian::Big),
    }
}

/// Length of the address that starts at offset `p` of `s`, by its first byte.
pub open spec fn address_len(s: Seq<u8>, p: int) -> int {
    if s[p] == 4 {
        7
    } else {
        29
    }
}

/// An address starts at offset `p` of `s` and lies wholly inside it.
pub open spec fn address_fits(s: Seq<u8>, p: int) -> bool {
    0 <= p < s.len() && p + address_len(s, p) <= s.len()
}

/// The four IPv4 octets stored at `p + 1` of `s`.
pub open spec fn v4_octets(s: Seq<u8>, p: int) -> Seq<u8> {
    seq![
        (255 - s[p + 1]) as u8,
        (255 - s[p + 2]) as u8,
        (255 - s[p + 3]) as u8,
        (255 - s[p + 4]) as u8,
    ]
}

/// The address stored at offset `p` of `s`, when it fits.
pub open spec fn address_at(s: Seq<u8>, p: int) -> Address {
    if s[p] == 4 {
        Address::V4 {
            ip: choose|ip: [u8; 4]| ip@ == v4_octets(s, p),
            port: uint_value(s.subrange(p + 5, p + 7), Endian::Big) as u16,
        }
    } else {
        Address::V6 {
            ip: choose|ip: [u8; 16]| ip@ == s.subrange(p + 9, p + 25),
            port: uint_value(s.subrange(p + 3, p + 5), Endian::Big) as u16,
        }
    }
}

/// Decoding the wire form of an address gives the address back.
pub proof fn lemma_address_round_trip(a: Address, pre: Seq<u8>, post: Seq<u8>)
    ensures
        ({
            let s = pre + address_bytes(a) + post;
            &&& address_fits(s, pre.len() as int)
            &&& address_len(s, pre.len() as int) == address_bytes(a).len()
            &&& address_at(s, pre.len() as int) == a
        }),
{
    broadcast use vstd::array::group_array_axioms;

    let s = pre + address_bytes(a) + post;
    let p = pre.len() as int;
    reveal_with_fuel(pow256, 5);
    match a {
        Address::V4 { ip, port } => {
            lemma_uint_round_trip(port as nat, 2, Endian::Big);
            assert(address_bytes(a).len() == 7);
            assert(s[p] == 4);
            assert(s.subrange(p + 5, p + 7) =~= uint_bytes(port as nat, 2, Endian::Big));
            assert(s[p + 1] == (255 - ip[0]) as u8);
            assert(v4_octets(s, p) =~= ip@);
            let c = choose|c: [u8; 4]| c@ == v4_octets(s, p);
            assert(c@ =~= ip@);
            assert(c =~= ip);
            assert(uint_value(s.subrange(p + 5, p + 7), Endian::Big) == port);
        },
        Address::V6 { ip, port } => {
            lemma_uint_round_trip(IPV6_FAMILY as nat, 2, Endian::Little);
            lemma_uint_round_trip(port as nat, 2, Endian::Big);
            lemma_uint_round_trip(0, 4, Endian::Big);
            assert(s.subrange(p + 3, p + 5) =~= uint_bytes(port as nat, 2, Endian::Big));
            assert(s.subrange(p + 9, p + 25) =~= ip@);
            let c = choose|c: [u8; 16]| c@ == s.subrange(p + 9, p + 25);
            assert(c@ =~= ip@);
            assert(c =~= ip);
        },
    }
}

/// An address takes at most 29 bytes.
pub proof fn lemma_address_bytes_len(a: Address)
    ensures
        address_bytes(a).len() <= 29,
{
    broadcast use vstd::array::group_array_axioms;

    lemma_le_bytes_len(IPV6_FAMILY as nat, 2);
    match a {
        Address::V4 { ip, port } => {
            lemma_le_bytes_len(port as nat, 2);
        },
        Address::V6 { ip, port } => {
            lemma_le_bytes_len(port as nat, 2);
            lemma_le_bytes_len(0, 4);
            assert(ip@.len() == 16);
        },
    }
}

/// Relies on `String::from_utf8`: it succeeds exactly on valid UTF-8 and the
/// string holds the characters that the bytes encode.
#[verifier::external_body]
fn string_from_utf8(bytes: Vec<u8>) -> (r: Option<String>)
    ensures
        r is Some <==> valid_utf8(bytes@),
        r matches Some(s) ==> s@ == decode_utf8(bytes@),
{
    String::from_utf8(bytes).ok()
}

fn bytes_equal(a: &Vec<u8>, b: &Vec<u8>) -> (r: bool)
    ensures
        r == (a@ == b@),
{
    if a.len() != b.len() {
        return false;
    }
    let mut i: usize = 0;
    while i < a.len()
        invariant
            a@.len() == b@.len(),
            0 <= i <= a@.len(),
            a@.subrange(0, i as int) == b@.subrange(0, i as int),
        decreases a@.len() - i,
    {
        if a[i] != b[i] {
            assert(a@[i as int] != b@[i as int]);
            return false;
        }
        i = i + 1;
        assert(a@.subrange(0, i as int) =~= b@.subrange(0, i as int));
    }
    assert(a@ =~= a@.subrange(0, a@.len() as int));
    assert(b@ =~= b@.subrange(0, b@.len() as int));
    true
}

fn magic_bytes() -> (r: Vec<u8>)
    ensures
        r@ == magic(),
{
    let mut m: Vec<u8> = Vec::new();
    m.push(0x00);
    m.push(0xff);
    m.push(0xff);
    m.push(0x00);
    m.push(0xfe);
    m.push(0xfe);
    m.push(0xfe);
    m.push(0xfe);
    m.push(0xfd);
    m.push(0xfd);
    m.push(0xfd);
    m.push(0xfd);
    m.push(0x12);
    m.push(0x34);
    m.push(0x56);
    m.push(0x78);
    assert(m@ =~= magic());
    m
}

impl Writer {
    /// Appends a string as its 16-bit big-endian byte length and its UTF-8 bytes.
    pub fn write_string(&mut self, body: &str)
        requires
            encode_utf8(body@).len() <= u16::MAX,
        ensures
            final(self)@ == old(self)@ + uint_bytes(encode_utf8(body@).len(), 2, Endian::Big)
                + encode_utf8(body@),
    {
        let raw = body.as_bytes();
        self.write_u16(raw.len() as u16, Endian::Big);
        self.write(raw);
    }

    pub fn write_magic(&mut self)
        ensures
            final(self)@ == old(self)@ + magic(),
    {
        let m = magic_bytes();
        self.write(m.as_slice());
    }

    pub fn write_address(&mut self, address: &Address)
        ensures
            final(self)@ == old(self)@ + address_bytes(*address),
    {
        let ghost start = self@;
        match address {
            Address::V4 { ip, port } => {
                self.write_u8(4);
                self.write_u8(0xff - ip[0]);
                self.write_u8(0xff - ip[1]);
                self.write_u8(0xff - ip[2]);
                self.write_u8(0xff - ip[3]);
                self.write_u16(*port, Endian::Big);
            },
            Address::V6 { ip, port } => {
                self.write_u8(6);
                self.write_u16(IPV6_FAMILY, Endian::Little);
                self.write_u16(*port, Endian::Big);
                self.write_u32(0, Endian::Big);
                self.write(ip.as_slice());
                self.write_u32(0, Endian::Big);
            },
        }
        assert(self@ =~= start + address_bytes(*address));
    }
}

impl<'a> Reader<'a> {
    /// Reads a string written as a 16-bit big-endian byte length and UTF-8 bytes.
    pub fn read_string(&mut self) -> (r: Result<String, DecodeError>)
        ensures
            final(self).data() == old(self).data(),
            ({
                let s = old(self).data();
                let p = old(self).position();
                let n = uint_value(s.subrange(p, p + 2), Endian::Big);
                match r {
                    Ok(v) => {
                        &&& p + 2 + n <= s.len()
                        &&& valid_utf8(s.subrange(p + 2, p + 2 + n))
                        &&& v@ == decode_utf8(s.subrange(p + 2, p + 2 + n))
                        &&& final(self).position() == p + 2 + n
                    },
                    Err(e) => {
                        &&& p + 2 <= s.len() ==> {
                            ||| p + 2 + n > s.len() && e == DecodeError::UnexpectedEnd
                            ||| p + 2 + n <= s.len() && !valid_utf8(s.subrange(p + 2, p + 2 + n))
                                && e == DecodeError::InvalidUtf8
                        }
                        &&& p + 2 > s.len() ==> e == DecodeError::UnexpectedEnd
                    },
                }
            }),
    {
        let size = self.read_u16(Endian::Big)?;
        let bytes = self.read(size as usize)?;
        match string_from_utf8(bytes) {
            Some(v) => Ok(v),
            None => Err(DecodeError::InvalidUtf8),
        }
    }

    /// Reads sixteen bytes and tells whether they are the protocol magic.
    pub fn read_magic(&mut self) -> (r: Result<bool, DecodeError>)
        ensures
            final(self).data() == old(self).data(),
            match r {
                Ok(b) => {
                    &&& old(self).position() + 16 <= old(self).data().len()
                    &&& b == (old(self).data().subrange(
                        old(self).position(),
                        old(self).position() + 16,
                    ) == magic())
                    &&& final(self).position() == old(self).position() + 16
                },
                Err(e) => {
                    &&& old(self).position() + 16 > old(self).data().len()
                    &&& e == DecodeError::UnexpectedEnd
                },
            },
    {
        let got = self.read(16)?;
        let m = magic_bytes();
        Ok(bytes_equal(&got, &m))
    }

    /// Reads a socket address in the form that [`Writer::write_address`] produces.
    pub fn read_address(&mut self) -> (r: Result<Address, DecodeError>)
        ensures
            final(self).data() == old(self).data(),
            match r {
                Ok(a) => {
                    &&& address_fits(old(self).data(), old(self).position())
                    &&& a == address_at(old(self).data(), old(self).position())
                    &&& final(self).position() == old(self).position() + address_len(
                        old(self).data(),
                        old(self).position(),
                    )
                },
                Err(e) => {
                    &&& !address_fits(old(self).data(), old(self).position())
                    &&& e == DecodeError::UnexpectedEnd
                },
            },
    {
        broadcast use vstd::array::group_array_axioms;

        let ghost s = self.data();
        let ghost p = self.position();
        let ip_ver = self.read_u8()?;
        if ip_ver == 4 {
            let b = self.read(4)?;
            let port = self.read_u16(Endian::Big)?;
            let ip: [u8; 4] = [0xff - b[0], 0xff - b[1], 0xff - b[2], 0xff - b[3]];
            proof {
                assert(ip@ =~= v4_octets(s, p));
                let c = choose|c: [u8; 4]| c@ == v4_octets(s, p);
                assert(c@ =~= ip@);
                assert(c =~= ip);
                assert(address_at(s, p) == Address::V4 { ip, port });
            }
            Ok(Address::V4 { ip, port })
        } else {
            let _family = self.read_u16(Endian::Little)?;
            let port = self.read_u16(Endian::Big)?;
            let _flow = self.read_u32(Endian::Big)?;
            let b = self.read(16)?;
            let _scope = self.read_u32(Endian::Big)?;
            let ip: [u8; 16] = [
                b[0],
                b[1],
                b[2],
                b[3],
                b[4],
                b[5],
                b[6],
                b[7],
                b[8],
                b[9],
                b[10],
                b[11],
                b[12],
                b[13],
                b[14],
                b[15],
            ];
            proof {
                assert(ip@ =~= s.subrange(p + 9, p + 25));
                let c = choose|c: [u8; 16]| c@ == s.subrange(p + 9, p + 25);
                assert(c@ =~= ip@);
                assert(c =~= ip);
                assert(address_at(s, p) == Address::V6 { ip, port });
            }
            Ok(Address::V6 { ip, port })
        }
    }
}

/// A reader's position is never negative.
pub broadcast proof fn lemma_position_nonnegative(r: Reader)
    ensures
        #[trigger] r.position() >= 0,
{
}

pub proof fn lemma_pow_le8(n: nat)
    requires
        n <= 7,
    ensures
        pow256(n) <= 0x100_0000_0000_0000,
{
    reveal_with_fuel(pow256, 8);
}

pub proof fn lemma_uint_value_bound(s: Seq<u8>, e: Endian)
    ensures
        uint_value(s, e) < pow256(s.len()),
{
    lemma_le_value_bound(s);
    lemma_le_value_bound(s.reverse());
}


/// 16-bit field at offset `p` of `s`.
pub open spec fn u16_at(s: Seq<u8>, p: int, e: Endian) -> u16 {
    uint_value(s.subrange(p, p + 2), e) as u16
}

/// 24-bit field at offset `p` of `s`.
pub open spec fn u24_at(s: Seq<u8>, p: int, e: Endian) -> u32 {
    uint_value(s.subrange(p, p + 3), e) as u32
}

/// 32-bit field at offset `p` of `s`.
pub open spec fn u32_at(s: Seq<u8>, p: int, e: Endian) -> u32 {
    uint_value(s.subrange(p, p + 4), e) as u32
}

/// 64-bit field at offset `p` of `s`.
pub open spec fn u64_at(s: Seq<u8>, p: int, e: Endian) -> u64 {
    uint_value(s.subrange(p, p + 8), e) as u64
}

/// Two's complement 64-bit field at offset `p` of `s`.
pub open spec fn i64_at(s: Seq<u8>, p: int, e: Endian) -> i64 {
    i64_of_bits(uint_value(s.subrange(p, p + 8), e)) as i64
}

/// Wire form of a signed 64-bit field.
pub open spec fn i64_bytes(v: i64, e: Endian) -> Seq<u8> {
    uint_bytes(i64_bits(v), 8, e)
}

/// Wire form of a length-prefixed string.
pub open spec fn string_bytes(chars: Seq<char>) -> Seq<u8> {
    uint_bytes(encode_utf8(chars).len(), 2, Endian::Big) + encode_utf8(chars)
}

/// A field of `n` bytes written with [`uint_bytes`] reads back as its value.
pub proof fn lemma_uint_field(s: Seq<u8>, p: int, n: nat, e: Endian, v: nat)
    requires
        v < pow256(n),
        0 <= p,
        p + n <= s.len(),
        s.subrange(p, p + n) == uint_bytes(v, n, e),
    ensures
        uint_value(s.subrange(p, p + n), e) == v,
{
    lemma_uint_round_trip(v, n, e);
}

pub proof fn lemma_u16_field(s: Seq<u8>, p: int, e: Endian, v: u16)
    requires
        0 <= p,
        p + 2 <= s.len(),
        s.subrange(p, p + 2) == uint_bytes(v as nat, 2, e),
    ensures
        u16_at(s, p, e) == v,
{
    reveal_with_fuel(pow256, 3);
    lemma_uint_field(s, p, 2, e, v as nat);
}

pub proof fn lemma_u24_field(s: Seq<u8>, p: int, e: Endian, v: u32)
    requires
        v < 0x100_0000,
        0 <= p,
        p + 3 <= s.len(),
        s.subrange(p, p + 3) == uint_bytes(v as nat, 3, e),
    ensures
        u24_at(s, p, e) == v,
{
    reveal_with_fuel(pow256, 4);
    lemma_uint_field(s, p, 3, e, v as nat);
}

pub proof fn lemma_u32_field(s: Seq<u8>, p: int, e: Endian, v: u32)
    requires
        0 <= p,
        p + 4 <= s.len(),
        s.subrange(p, p + 4) == uint_bytes(v as nat, 4, e),
    ensures
        u32_at(s, p, e) == v,
{
    reveal_with_fuel(pow256, 5);
    lemma_uint_field(s, p, 4, e, v as nat);
}

pub proof fn lemma_u64_field(s: Seq<u8>, p: int, e: Endian, v: u64)
    requires
        0 <= p,
        p + 8 <= s.len(),
        s.subrange(p, p + 8) == uint_bytes(v as nat, 8, e),
    ensures
        u64_at(s, p, e) == v,
{
    reveal_with_fuel(pow256, 9);
    lemma_uint_field(s, p, 8, e, v as nat);
}

pub proof fn lemma_i64_field(s: Seq<u8>, p: int, e: Endian, v: i64)
    requires
        0 <= p,
        p + 8 <= s.len(),
        s.subrange(p, p + 8) == i64_bytes(v, e),
    ensures
        i64_at(s, p, e) == v,
{
    lemma_i64_round_trip(v);
    lemma_uint_field(s, p, 8, e, i64_bits(v));
}

/// The wire form of a number has exactly the requested width.
pub broadcast proof fn lemma_uint_bytes_len(v: nat, n: nat, e: Endian)
    ensures
        #[trigger] uint_bytes(v, n, e).len() == n,
{
    lemma_le_bytes_len(v, n);
}

} // verus!
