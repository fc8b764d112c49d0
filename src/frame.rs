//! The frame layer: reliability classes, frames (one application message or
//! one fragment of it, with its reliability header) and frame sets (one
//! datagram's worth of frames under a sequence number).
use vstd::prelude::*;
use crate::codec::{
    lemma_position_nonnegative, lemma_u16_field, lemma_u24_field, lemma_u32_field,
    lemma_uint_bytes_len, u16_at, u24_at,
    u32_at, uint_bytes, DecodeError, Endian, Reader, Writer,
};

verus! {

broadcast use lemma_uint_bytes_len, lemma_position_nonnegative;

/// How a frame is delivered.
#[derive(Clone, Copy, Debug, PartialEq, Eq)]
pub enum Reliability {
    Unreliable,
    UnreliableSequenced,
    Reliable,
    ReliableOrdered,
    ReliableSequenced,
}

/// Bit of a frame header that marks a fragment.
pub const SPLIT_FLAG: u8 = 0x10;

/// Largest payload a frame can carry: its length field counts bits in 16 bits.
pub const MAX_FRAME_DATA: usize = 8191;

/// Exclusive upper bound of the 24-bit frame indices.
pub const INDEX_LIMIT: u32 = 0x100_0000;

impl Reliability {
    /// The 3-bit wire code.
    pub open spec fn code(self) -> u8 {
        match self {
            Reliability::Unreliable => 0,
            Reliability::UnreliableSequenced => 1,
            Reliability::Reliable => 2,
            Reliability::ReliableOrdered => 3,
            Reliability::ReliableSequenced => 4,
        }
    }

    /// The class with wire code `b`, which must be at most 4.
    pub open spec fn of_code(b: u8) -> Reliability {
        if b == 0 {
            Reliability::Unreliable
        } else if b == 1 {
            Reliability::UnreliableSequenced
        } else if b == 2 {
            Reliability::Reliable
        } else if b == 3 {
            Reliability::ReliableOrdered
        } else {
            Reliability::ReliableSequenced
        }
    }

    pub open spec fn is_reliable(self) -> bool {
        matches!(self, Reliability::Reliable | Reliability::ReliableOrdered | Reliability::ReliableSequenced)
    }

    pub open spec fn is_sequenced(self) -> bool {
        matches!(self, Reliability::UnreliableSequenced | Reliability::ReliableSequenced)
    }

    pub open spec fn is_sequenced_or_ordered(self) -> bool {
        matches!(
            self,
            Reliability::UnreliableSequenced | Reliability::ReliableOrdered
                | Reliability::ReliableSequenced
        )
    }

    /// The class that a wire code names.
    pub fn new(byte: u8) -> (r: Result<Self, DecodeError>)
        ensures
            byte <= 4 ==> r == Ok::<Reliability, DecodeError>(Reliability::of_code(byte)),
            byte > 4 ==> r == Err::<Reliability, DecodeError>(DecodeError::UnknownReliability),
    {
        match byte {
            0 => Ok(Reliability::Unreliable),
            1 => Ok(Reliability::UnreliableSequenced),
            2 => Ok(Reliability::Reliable),
            3 => Ok(Reliability::ReliableOrdered),
            4 => Ok(Reliability::ReliableSequenced),
            _ => Err(DecodeError::UnknownReliability),
        }
    }

    pub fn to_byte(&self) -> (r: u8)
        ensures
            r == self.code(),
            r <= 4,
            Reliability::of_code(r) == *self,
    {
        match self {
            Reliability::Unreliable => 0,
            Reliability::UnreliableSequenced => 1,
            Reliability::Reliable => 2,
            Reliability::ReliableOrdered => 3,
            Reliability::ReliableSequenced => 4,
        }
    }

    /// The frame carries a message index and is retransmitted until acknowledged.
    pub fn reliable(&self) -> (r: bool)
        ensures
            r == self.is_reliable(),
    {
        matches!(self, Reliability::Reliable | Reliability::ReliableOrdered | Reliability::ReliableSequenced)
    }

    /// The frame carries an order index and goes through in-order release.
    pub fn sequenced_or_ordered(&self) -> (r: bool)
        ensures
            r == self.is_sequenced_or_ordered(),
    {
        matches!(
            self,
            Reliability::UnreliableSequenced | Reliability::ReliableOrdered
                | Reliability::ReliableSequenced
        )
    }

    /// The frame carries a sequence index.
    pub fn sequenced(&self) -> (r: bool)
        ensures
            r == self.is_sequenced(),
    {
        matches!(self, Reliability::UnreliableSequenced | Reliability::ReliableSequenced)
    }
}

/// A frame's fields, with its payload as a sequence.
pub struct FrameView {
    pub reliability: Reliability,
    pub message_index: u32,
    pub sequence_index: u32,
    pub order_index: u32,
    pub split: bool,
    pub split_count: u32,
    pub split_index: u32,
    pub split_id: u16,
    pub data: Seq<u8>,
}

/// One application message, or one fragment of one, with its reliability
/// header.
#[derive(Clone, Debug)]
pub struct Frame {
    pub reliability: Reliability,
    pub message_index: u32,
    pub sequence_index: u32,
    pub order_index: u32,
    pub split: bool,
    pub split_count: u32,
    pub split_index: u32,
    pub split_id: u16,
    pub data: Vec<u8>,
}

impl View for Frame {
    type V = FrameView;

    open spec fn view(&self) -> FrameView {
        FrameView {
            reliability: self.reliability,
            message_index: self.message_index,
            sequence_index: self.sequence_index,
            order_index: self.order_index,
            split: self.split,
            split_count: self.split_count,
            split_index: self.split_index,
            split_id: self.split_id,
            data: self.data@,
        }
    }
}

/// The frame's indices fit 24 bits and its payload fits the length field.
pub open spec fn frame_wf(f: FrameView) -> bool {
    &&& f.message_index < INDEX_LIMIT
    &&& f.sequence_index < INDEX_LIMIT
    &&& f.order_index < INDEX_LIMIT
    &&& f.data.len() <= MAX_FRAME_DATA
}

/// The fields that the frame's reliability class and split flag leave off
/// the wire are zero, as decoding makes them.
pub open spec fn frame_normal(f: FrameView) -> bool {
    &&& !f.reliability.is_reliable() ==> f.message_index == 0
    &&& !f.reliability.is_sequenced() ==> f.sequence_index == 0
    &&& !f.reliability.is_sequenced_or_ordered() ==> f.order_index == 0
    &&& !f.split ==> f.split_count == 0 && f.split_index == 0 && f.split_id == 0
}

/// `f` with the fields that do not go on the wire set to zero.
pub open spec fn frame_normalized(f: FrameView) -> FrameView {
    FrameView {
        reliability: f.reliability,
        message_index: if f.reliability.is_reliable() {
            f.message_index
        } else {
            0
        },
        sequence_index: if f.reliability.is_sequenced() {
            f.sequence_index
        } else {
            0
        },
        order_index: if f.reliability.is_sequenced_or_ordered() {
            f.order_index
        } else {
            0
        },
        split: f.split,
        split_count: if f.split {
            f.split_count
        } else {
            0
        },
        split_index: if f.split {
            f.split_index
        } else {
            0
        },
        split_id: if f.split {
            f.split_id
        } else {
            0
        },
        data: f.data,
    }
}

/// Size of the header of a frame with the given class and split flag.
pub open spec fn frame_header_len(rel: Reliability, split: bool) -> int {
    3 + (if rel.is_reliable() {
        3int
    } else {
        0int
    }) + (if rel.is_sequenced() {
        3int
    } else {
        0int
    }) + (if rel.is_sequenced_or_ordered() {
        4int
    } else {
        0int
    }) + (if split {
        10int
    } else {
        0int
    })
}

/// Wire form of a frame: the header byte (class in the top three bits, 0x10
/// for a fragment), the payload length in bits (16-bit big-endian), the
/// message, sequence and order indices that the class calls for (24-bit
/// little-endian, the order index followed by a zero byte), the split count,
/// id and index of a fragment (big-endian), then the payload.
pub open spec fn frame_bytes(f: FrameView) -> Seq<u8> {
    seq![
        (f.reliability.code() * 32 + if f.split {
            16u8
        } else {
            0u8
        }) as u8,
    ] + uint_bytes((f.data.len() * 8) as nat, 2, Endian::Big) + (if f.reliability.is_reliable() {
        uint_bytes(f.message_index as nat, 3, Endian::Little)
    } else {
        Seq::empty()
    }) + (if f.reliability.is_sequenced() {
        uint_bytes(f.sequence_index as nat, 3, Endian::Little)
    } else {
        Seq::empty()
    }) + (if f.reliability.is_sequenced_or_ordered() {
        uint_bytes(f.order_index as nat, 3, Endian::Little) + seq![0u8]
    } else {
        Seq::empty()
    }) + (if f.split {
        uint_bytes(f.split_count as nat, 4, Endian::Big) + uint_bytes(
            f.split_id as nat,
            2,
            Endian::Big,
        ) + uint_bytes(f.split_index as nat, 4, Endian::Big)
    } else {
        Seq::empty()
    }) + f.data
}

/// The frame that starts at offset `p` of `s`, and the offset after it.
pub open spec fn frame_at(s: Seq<u8>, p: int) -> Result<(FrameView, int), DecodeError> {
    if p < 0 || p >= s.len() {
        Err(DecodeError::UnexpectedEnd)
    } else if s[p] / 32 > 4 {
        Err(DecodeError::UnknownReliability)
    } else {
        let rel = Reliability::of_code((s[p] / 32) as u8);
        let split = (s[p] / 16) % 2 == 1;
        let q1 = p + 3;
        let q2 = q1 + if rel.is_reliable() {
            3int
        } else {
            0int
        };
        let q3 = q2 + if rel.is_sequenced() {
            3int
        } else {
            0int
        };
        let q4 = q3 + if rel.is_sequenced_or_ordered() {
            4int
        } else {
            0int
        };
        let q5 = q4 + if split {
            10int
        } else {
            0int
        };
        if q5 > s.len() {
            Err(DecodeError::UnexpectedEnd)
        } else {
            let n = u16_at(s, p + 1, Endian::Big) / 8;
            if q5 + n > s.len() {
                Err(DecodeError::UnexpectedEnd)
            } else {
                Ok(
                    (
                        FrameView {
                            reliability: rel,
                            message_index: if rel.is_reliable() {
                                u24_at(s, q1, Endian::Little)
                            } else {
                                0
                            },
                            sequence_index: if rel.is_sequenced() {
                                u24_at(s, q2, Endian::Little)
                            } else {
                                0
                            },
                            order_index: if rel.is_sequenced_or_ordered() {
                                u24_at(s, q3, Endian::Little)
                            } else {
                                0
                            },
                            split,
                            split_count: if split {
                                u32_at(s, q4, Endian::Big)
                            } else {
                                0
                            },
                            split_id: if split {
                                u16_at(s, q4 + 4, Endian::Big)
                            } else {
                                0
                            },
                            split_index: if split {
                                u32_at(s, q4 + 6, Endian::Big)
                            } else {
                                0
                            },
                            data: s.subrange(q5, q5 + n),
                        },
                        q5 + n,
                    ),
                )
            }
        }
    }
}


#[verifier::rlimit(80)]
/// Decoding the wire form of a well-formed frame gives the frame back, with
/// the fields that its class and split flag leave off the wire set to zero;
/// what follows the frame does not matter.
pub proof fn lemma_frame_round_trip(f: FrameView, pre: Seq<u8>, post: Seq<u8>)
    requires
        frame_wf(f),
    ensures
        ({
            let s = pre + frame_bytes(f) + post;
            frame_at(s, pre.len() as int) == Ok::<(FrameView, int), DecodeError>(
                (frame_normalized(f), pre.len() + frame_bytes(f).len() as int),
            )
        }),
        frame_bytes(f).len() == frame_header_len(f.reliability, f.split) + f.data.len(),
        frame_normal(f) ==> frame_normalized(f) == f,
{
    let s = pre + frame_bytes(f) + post;
    let p = pre.len() as int;
    let rel = f.reliability;
    let b = frame_bytes(f);
    let h = (rel.code() * 32 + if f.split { 16u8 } else { 0u8 }) as u8;
    assert(s[p] == h);
    assert(h / 32 == rel.code());
    assert(Reliability::of_code(rel.code()) == rel);
    assert((h / 16) % 2 == 1 <==> f.split);
    let q1 = p + 3;
    let q2 = q1 + if rel.is_reliable() { 3int } else { 0int };
    let q3 = q2 + if rel.is_sequenced() { 3int } else { 0int };
    let q4 = q3 + if rel.is_sequenced_or_ordered() { 4int } else { 0int };
    let q5 = q4 + if f.split { 10int } else { 0int };
    assert(b.len() == q5 - p + f.data.len());
    assert(s.subrange(p + 1, p + 3) =~= uint_bytes((f.data.len() * 8) as nat, 2, Endian::Big));
    lemma_u16_field(s, p + 1, Endian::Big, (f.data.len() * 8) as u16);
    if rel.is_reliable() {
        assert(s.subrange(q1, q1 + 3) =~= uint_bytes(f.message_index as nat, 3, Endian::Little));
        lemma_u24_field(s, q1, Endian::Little, f.message_index);
    }
    if rel.is_sequenced() {
        assert(s.subrange(q2, q2 + 3) =~= uint_bytes(f.sequence_index as nat, 3, Endian::Little));
        lemma_u24_field(s, q2, Endian::Little, f.sequence_index);
    }
    if rel.is_sequenced_or_ordered() {
        assert(s.subrange(q3, q3 + 3) =~= uint_bytes(f.order_index as nat, 3, Endian::Little));
        lemma_u24_field(s, q3, Endian::Little, f.order_index);
    }
    if f.split {
        assert(s.subrange(q4, q4 + 4) =~= uint_bytes(f.split_count as nat, 4, Endian::Big));
        assert(s.subrange(q4 + 4, q4 + 6) =~= uint_bytes(f.split_id as nat, 2, Endian::Big));
        assert(s.subrange(q4 + 6, q4 + 10) =~= uint_bytes(f.split_index as nat, 4, Endian::Big));
        lemma_u32_field(s, q4, Endian::Big, f.split_count);
        lemma_u16_field(s, q4 + 4, Endian::Big, f.split_id);
        lemma_u32_field(s, q4 + 6, Endian::Big, f.split_index);
    }
    assert(s.subrange(q5, q5 + f.data.len()) =~= f.data);
    assert(frame_at(s, p) matches Ok((g, _)) && g.data =~= f.data);
}

impl Frame {
    pub fn new(reliability: Reliability, data: Vec<u8>) -> (r: Self)
        ensures
            r@ == (FrameView {
                reliability,
                message_index: 0,
                sequence_index: 0,
                order_index: 0,
                split: false,
                split_count: 0,
                split_index: 0,
                split_id: 0,
                data: data@,
            }),
    {
        Frame {
            reliability,
            message_index: 0,
            sequence_index: 0,
            order_index: 0,
            split: false,
            split_count: 0,
            split_index: 0,
            split_id: 0,
            data,
        }
    }

    /// Size of the frame's wire form.
    pub fn length(&self) -> (r: usize)
        requires
            self.data@.len() <= MAX_FRAME_DATA,
        ensures
            r == frame_bytes(self@).len(),
            r == frame_header_len(self.reliability, self.split) + self.data@.len(),
    {
        let mut ret: usize = 0;
        ret += 1;
        ret += 2;
        if self.reliability.reliable() {
            ret += 3;
        }
        if self.reliability.sequenced() {
            ret += 3;
        }
        if self.reliability.sequenced_or_ordered() {
            ret += 4;
        }
        if self.split {
            ret += 10;
        }
        ret += self.data.len();
        ret
    }

    /// Appends the frame's wire form.
    #[verifier::rlimit(50)]
    pub fn encode(&self, w: &mut Writer)
        requires
            frame_wf(self@),
        ensures
            final(w)@ == old(w)@ + frame_bytes(self@),
    {
        let ghost start = w@;
        let code = self.reliability.to_byte();
        let header: u8 = if self.split {
            code * 32 + SPLIT_FLAG
        } else {
            code * 32
        };
        w.write_u8(header);
        w.write_u16((self.data.len() * 8) as u16, Endian::Big);
        if self.reliability.reliable() {
            w.write_u24(self.message_index, Endian::Little);
        }
        if self.reliability.sequenced() {
            w.write_u24(self.sequence_index, Endian::Little);
        }
        if self.reliability.sequenced_or_ordered() {
            w.write_u24(self.order_index, Endian::Little);
            w.write_u8(0);
        }
        if self.split {
            w.write_u32(self.split_count, Endian::Big);
            w.write_u16(self.split_id, Endian::Big);
            w.write_u32(self.split_index, Endian::Big);
        }
        w.write(self.data.as_slice());
        assert(w@ =~= start + frame_bytes(self@));
    }

    /// Reads one frame at the reader's position.
    pub fn decode(cursor: &mut Reader) -> (r: Result<Self, DecodeError>)
        ensures
            final(cursor).data() == old(cursor).data(),
            match r {
                Ok(f) => frame_at(old(cursor).data(), old(cursor).position()) == Ok::<
                    (FrameView, int),
                    DecodeError,
                >((f@, final(cursor).position())),
                Err(e) => frame_at(old(cursor).data(), old(cursor).position()) == Err::<
                    (FrameView, int),
                    DecodeError,
                >(e),
            },
    {
        let ghost s = cursor.data();
        let ghost p = cursor.position();
        let header = cursor.read_u8()?;
        let reliability = match Reliability::new(header / 32) {
            Ok(r) => r,
            Err(e) => {
                return Err(e);
            },
        };
        let split = (header / 16) % 2 == 1;
        let bits = cursor.read_u16(Endian::Big)?;
        assert(bits == u16_at(s, p + 1, Endian::Big));
        let mut message_index: u32 = 0;
        let mut sequence_index: u32 = 0;
        let mut order_index: u32 = 0;
        let mut split_count: u32 = 0;
        let mut split_id: u16 = 0;
        let mut split_index: u32 = 0;
        if reliability.reliable() {
            message_index = cursor.read_u24(Endian::Little)?;
        }
        if reliability.sequenced() {
            sequence_index = cursor.read_u24(Endian::Little)?;
        }
        if reliability.sequenced_or_ordered() {
            order_index = cursor.read_u24(Endian::Little)?;
            cursor.read_u8()?;
        }
        if split {
            split_count = cursor.read_u32(Endian::Big)?;
            split_id = cursor.read_u16(Endian::Big)?;
            split_index = cursor.read_u32(Endian::Big)?;
        }
        let ghost q5 = cursor.position();
        assert(q5 == p + frame_header_len(reliability, split));
        let data = cursor.read((bits / 8) as usize)?;
        let f = Frame {
            reliability,
            message_index,
            sequence_index,
            order_index,
            split,
            split_count,
            split_index,
            split_id,
            data,
        };
        Ok(f)
    }
}


/// Concatenated wire forms of a run of frames.
pub open spec fn frames_bytes(fs: Seq<FrameView>) -> Seq<u8>
    decreases fs.len(),
{
    if fs.len() == 0 {
        Seq::empty()
    } else {
        frame_bytes(fs[0]) + frames_bytes(fs.drop_first())
    }
}

/// The frames from offset `p` to the end of `s`.
pub open spec fn frames_from(s: Seq<u8>, p: int) -> Result<Seq<FrameView>, DecodeError>
    decreases s.len() - p,
{
    if p >= s.len() {
        Ok(Seq::empty())
    } else {
        match frame_at(s, p) {
            Err(e) => Err(e),
            Ok((f, q)) => if q > p {
                match frames_from(s, q) {
                    Ok(rest) => Ok(seq![f] + rest),
                    Err(e) => Err(e),
                }
            } else {
                Err(DecodeError::UnexpectedEnd)
            },
        }
    }
}

/// A frame set's fields, with its frames as views.
pub struct FrameSetView {
    pub header: u8,
    pub sequence_number: u32,
    pub frames: Seq<FrameView>,
}

/// Wire form of a frame set: the header byte, the 24-bit little-endian
/// sequence number, then the frames.
pub open spec fn frame_set_bytes(v: FrameSetView) -> Seq<u8> {
    seq![v.header] + uint_bytes(v.sequence_number as nat, 3, Endian::Little) + frames_bytes(
        v.frames,
    )
}

/// What a datagram decodes to as a frame set.
pub open spec fn frame_set_read(s: Seq<u8>) -> Result<FrameSetView, DecodeError> {
    if s.len() < 4 {
        Err(DecodeError::UnexpectedEnd)
    } else {
        match frames_from(s, 4) {
            Ok(fs) => Ok(
                FrameSetView {
                    header: s[0],
                    sequence_number: u24_at(s, 1, Endian::Little),
                    frames: fs,
                },
            ),
            Err(e) => Err(e),
        }
    }
}

/// The sequence number fits 24 bits and every frame is well formed.
pub open spec fn frame_set_wf(v: FrameSetView) -> bool {
    &&& v.sequence_number < INDEX_LIMIT
    &&& forall|i: int| 0 <= i < v.frames.len() ==> frame_wf(#[trigger] v.frames[i])
}

pub proof fn lemma_frames_bytes_push(fs: Seq<FrameView>, f: FrameView)
    ensures
        frames_bytes(fs.push(f)) == frames_bytes(fs) + frame_bytes(f),
    decreases fs.len(),
{
    if fs.len() == 0 {
        assert(fs.push(f).drop_first() =~= Seq::<FrameView>::empty());
        reveal_with_fuel(frames_bytes, 2);
        assert(frames_bytes(fs.push(f)) =~= frame_bytes(f));
    } else {
        assert(fs.push(f).drop_first() =~= fs.drop_first().push(f));
        lemma_frames_bytes_push(fs.drop_first(), f);
        assert(frames_bytes(fs.push(f)) =~= frames_bytes(fs) + frame_bytes(f));
    }
}

/// Decoding a run of well-formed frames that ends the buffer gives the
/// frames back, normalized.
pub proof fn lemma_frames_round_trip(fs: Seq<FrameView>, pre: Seq<u8>)
    requires
        forall|i: int| 0 <= i < fs.len() ==> frame_wf(#[trigger] fs[i]),
    ensures
        frames_from(pre + frames_bytes(fs), pre.len() as int) == Ok::<Seq<FrameView>, DecodeError>(
            fs.map_values(|f: FrameView| frame_normalized(f)),
        ),
    decreases fs.len(),
{
    let s = pre + frames_bytes(fs);
    if fs.len() == 0 {
        assert(fs.map_values(|f: FrameView| frame_normalized(f)) =~= Seq::<FrameView>::empty());
    } else {
        let rest = fs.drop_first();
        let b = frame_bytes(fs[0]);
        assert(frame_wf(fs[0]));
        lemma_frame_round_trip(fs[0], pre, frames_bytes(rest));
        assert(s =~= pre + b + frames_bytes(rest));
        assert forall|i: int| 0 <= i < rest.len() implies frame_wf(#[trigger] rest[i]) by {
            assert(rest[i] == fs[i + 1]);
        }
        lemma_frames_round_trip(rest, pre + b);
        assert(s =~= (pre + b) + frames_bytes(rest));
        assert(fs.map_values(|f: FrameView| frame_normalized(f)) =~= seq![frame_normalized(fs[0])]
            + rest.map_values(|f: FrameView| frame_normalized(f)));
    }
}

/// A datagram of frames under one sequence number.
#[derive(Clone, Debug)]
pub struct FrameSet {
    pub header: u8,
    pub sequence_number: u32,
    pub datas: Vec<Frame>,
}

/// The views of a vector of frames.
pub open spec fn frame_views(v: Seq<Frame>) -> Seq<FrameView> {
    v.map_values(|f: Frame| f@)
}

impl View for FrameSet {
    type V = FrameSetView;

    open spec fn view(&self) -> FrameSetView {
        FrameSetView {
            header: self.header,
            sequence_number: self.sequence_number,
            frames: frame_views(self.datas@),
        }
    }
}

/// A frame set survives encoding and decoding, its frames normalized.
pub proof fn lemma_frame_set_round_trip(v: FrameSetView)
    requires
        frame_set_wf(v),
    ensures
        frame_set_read(frame_set_bytes(v)) == Ok::<FrameSetView, DecodeError>(
            FrameSetView {
                header: v.header,
                sequence_number: v.sequence_number,
                frames: v.frames.map_values(|f: FrameView| frame_normalized(f)),
            },
        ),
{
    let s = frame_set_bytes(v);
    let pre = seq![v.header] + uint_bytes(v.sequence_number as nat, 3, Endian::Little);
    assert(s =~= pre + frames_bytes(v.frames));
    lemma_frames_round_trip(v.frames, pre);
    assert(s.subrange(1, 4) =~= uint_bytes(v.sequence_number as nat, 3, Endian::Little));
    lemma_u24_field(s, 1, Endian::Little, v.sequence_number);
}

impl FrameSet {
    /// Decodes a whole datagram as a frame set.
    pub fn decode(payload: &[u8]) -> (r: Result<Self, DecodeError>)
        ensures
            match r {
                Ok(f) => frame_set_read(payload@) == Ok::<FrameSetView, DecodeError>(f@),
                Err(e) => frame_set_read(payload@) == Err::<FrameSetView, DecodeError>(e),
            },
    {
        let ghost s = payload@;
        let size = payload.len();
        let mut cursor = Reader::new(payload);
        let header = cursor.read_u8()?;
        let sequence_number = cursor.read_u24(Endian::Little)?;
        let mut datas: Vec<Frame> = Vec::new();
        while cursor.pos() < size as u64
            invariant
                cursor.data() == s,
                payload@ == s,
                s.len() == size,
                4 <= cursor.position(),
                s.len() >= 4,
                frames_from(s, 4) == match frames_from(s, cursor.position()) {
                    Ok(rest) => Ok(frame_views(datas@) + rest),
                    Err(e) => Err::<Seq<FrameView>, DecodeError>(e),
                },
            decreases s.len() + 4 - cursor.position(),
        {
            let ghost p = cursor.position();
            let f = match Frame::decode(&mut cursor) {
                Ok(f) => f,
                Err(e) => {
                    assert(frames_from(s, p) == Err::<Seq<FrameView>, DecodeError>(e));
                    return Err(e);
                },
            };
            let ghost q = cursor.position();
            assert(frames_from(s, p) == match frames_from(s, q) {
                Ok(rest) => Ok(seq![f@] + rest),
                Err(e) => Err::<Seq<FrameView>, DecodeError>(e),
            });
            let ghost before = frame_views(datas@);
            datas.push(f);
            assert(frame_views(datas@) =~= before.push(f@));
            assert(forall|rest: Seq<FrameView>| before + (seq![f@] + rest) == before.push(f@) + rest) by {
                assert forall|rest: Seq<FrameView>| before + (seq![f@] + rest) =~= before.push(f@) + rest by {}
            }
        }
        assert(frame_views(datas@) + Seq::<FrameView>::empty() =~= frame_views(datas@));
        Ok(FrameSet { header, sequence_number, datas })
    }

    /// The wire form of the frame set.
    pub fn encode(&self) -> (r: Vec<u8>)
        requires
            frame_set_wf(self@),
        ensures
            r@ == frame_set_bytes(self@),
    {
        let mut w = Writer::new(Vec::new());
        w.write_u8(self.header);
        w.write_u24(self.sequence_number, Endian::Little);
        let ghost start = w@;
        let ghost fs = frame_views(self.datas@);
        let mut i: usize = 0;
        while i < self.datas.len()
            invariant
                i <= self.datas@.len(),
                fs == frame_views(self.datas@),
                frame_set_wf(self@),
                w@ == start + frames_bytes(fs.take(i as int)),
            decreases self.datas@.len() - i,
        {
            assert(self@.frames == fs);
            assert(frame_wf(fs[i as int]));
            self.datas[i].encode(&mut w);
            proof {
                lemma_frames_bytes_push(fs.take(i as int), fs[i as int]);
                assert(fs.take(i as int).push(fs[i as int]) =~= fs.take(i + 1));
            }
            i = i + 1;
        }
        assert(fs.take(self.datas@.len() as int) =~= fs);
        w.into_inner()
    }
}


/// Copies a byte vector.
pub fn copy_bytes(v: &Vec<u8>) -> (r: Vec<u8>)
    ensures
        r@ == v@,
{
    let mut out: Vec<u8> = Vec::new();
    let mut i: usize = 0;
    while i < v.len()
        invariant
            i <= v@.len(),
            out@ == v@.subrange(0, i as int),
        decreases v@.len() - i,
    {
        out.push(v[i]);
        i = i + 1;
        assert(out@ =~= v@.subrange(0, i as int));
    }
    assert(v@.subrange(0, v@.len() as int) =~= v@);
    out
}

impl Frame {
    /// A copy of the frame.
    pub fn duplicate(&self) -> (r: Frame)
        ensures
            r@ == self@,
    {
        Frame {
            reliability: self.reliability,
            message_index: self.message_index,
            sequence_index: self.sequence_index,
            order_index: self.order_index,
            split: self.split,
            split_count: self.split_count,
            split_index: self.split_index,
            split_id: self.split_id,
            data: copy_bytes(&self.data),
        }
    }
}

impl FrameSet {
    /// A copy of the frame set.
    pub fn duplicate(&self) -> (r: FrameSet)
        ensures
            r@ == self@,
    {
        let mut datas: Vec<Frame> = Vec::new();
        let mut i: usize = 0;
        while i < self.datas.len()
            invariant
                i <= self.datas@.len(),
                frame_views(datas@) == frame_views(self.datas@).take(i as int),
            decreases self.datas@.len() - i,
        {
            let f = self.datas[i].duplicate();
            let ghost before = frame_views(datas@);
            datas.push(f);
            assert(frame_views(datas@) =~= before.push(f@));
            assert(f@ == frame_views(self.datas@)[i as int]);
            i = i + 1;
            assert(frame_views(datas@) =~= frame_views(self.datas@).take(i as int));
        }
        assert(frame_views(self.datas@).take(self.datas@.len() as int) =~= frame_views(self.datas@));
        FrameSet { header: self.header, sequence_number: self.sequence_number, datas }
    }
}

} // verus!
