//! The encapsulated ("inner") packet: a bit-packed reliability header, an
//! optional split descriptor, a payload length counted in bits, and the
//! payload itself.

use vstd::prelude::*;

use crate::codec;
use crate::error::DecodeError;
use crate::reliability::{InnerPacketReliability, Ordered, Reliable, Sequenced, Split};
use crate::triad::Triad;

verus! {

/// A byte buffer an inner packet can carry.
pub trait Buffer {
    /// The bytes held.
    spec fn buf_view(&self) -> Seq<u8>;

    /// The number of bytes held.
    fn total_len(&self) -> (r: usize)
        ensures
            r == self.buf_view().len(),
    ;
}

impl Buffer for Vec<u8> {
    open spec fn buf_view(&self) -> Seq<u8> {
        self@
    }

    fn total_len(&self) -> (r: usize)
        ensures
            r == self.buf_view().len(),
    {
        self.len()
    }
}

/// One encapsulated packet, as carried inside a datagram.
#[derive(Clone, Debug, PartialEq)]
pub struct InnerPacket {
    pub reliability: InnerPacketReliability,
    pub split: Option<Split>,
    pub buffer: Vec<u8>,
}

/// The wire bytes of the reliability header that follows the length field.
pub open spec fn rel_wire(rel: InnerPacketReliability) -> Seq<u8> {
    match rel {
        InnerPacketReliability::Unreliable => Seq::empty(),
        InnerPacketReliability::UnreliableWithAckReceipt => Seq::empty(),
        InnerPacketReliability::Reliable(r) => r.message_index.wire_le(),
        InnerPacketReliability::ReliableWithAckReceipt(r) => r.message_index.wire_le(),
        InnerPacketReliability::ReliableOrdered(r, o) => r.message_index.wire_le()
            + o.order_index.wire_le() + seq![o.order_channel],
        InnerPacketReliability::ReliableOrderedWithAckReceipt(r, o) => r.message_index.wire_le()
            + o.order_index.wire_le() + seq![o.order_channel],
        InnerPacketReliability::UnreliableSequenced(s) => s.sequence_index.wire_le()
            + s.ordered.order_index.wire_le() + seq![s.ordered.order_channel],
        InnerPacketReliability::ReliableSequenced(r, s) => r.message_index.wire_le()
            + s.sequence_index.wire_le() + s.ordered.order_index.wire_le() + seq![
            s.ordered.order_channel,
        ],
    }
}

/// The wire bytes of a split descriptor.
pub open spec fn split_wire(sp: Split) -> Seq<u8> {
    codec::be_bytes(sp.split_count as nat, 4) + codec::be_bytes(sp.split_id as nat, 2)
        + codec::be_bytes(sp.split_index as nat, 4)
}

/// The flag byte: the reliability id in the upper three bits, bit 4 for a
/// split packet.
pub open spec fn inner_flags(rel: InnerPacketReliability, split: Option<Split>) -> u8 {
    (rel.spec_id() * 32 + if split is Some {
        16int
    } else {
        0int
    }) as u8
}

/// The full wire bytes of an inner packet: flag byte, payload length in
/// bits (big-endian, two bytes), the reliability header, the split
/// descriptor if any, and the raw payload.
pub open spec fn inner_wire(rel: InnerPacketReliability, split: Option<Split>, payload: Seq<u8>) -> Seq<
    u8,
> {
    seq![inner_flags(rel, split)] + codec::be_bytes(payload.len() * 8, 2) + rel_wire(rel) + (
    match split {
        Some(sp) => split_wire(sp),
        None => Seq::empty(),
    }) + payload
}

/// Parse of the reliability header for wire id `id` at `j`.  An order
/// channel of 32 or more is out of range.
pub open spec fn parse_rel(s: Seq<u8>, j: int, id: u8) -> Result<
    (InnerPacketReliability, int),
    DecodeError,
> {
    if id == 0 {
        Ok((InnerPacketReliability::Unreliable, j))
    } else if id == 5 {
        Ok((InnerPacketReliability::UnreliableWithAckReceipt, j))
    } else if id == 2 || id == 6 {
        match codec::parse_le(s, j, 3) {
            Ok((m, k)) => {
                let r = Reliable { message_index: Triad(m as u32) };
                if id == 2 {
                    Ok((InnerPacketReliability::Reliable(r), k))
                } else {
                    Ok((InnerPacketReliability::ReliableWithAckReceipt(r), k))
                }
            },
            Err(e) => Err(e),
        }
    } else if id == 3 || id == 7 {
        match codec::parse_le(s, j, 3) {
            Ok((m, k)) => match codec::parse_le(s, k, 3) {
                Ok((oi, k2)) => if k2 + 1 <= s.len() {
                    if s[k2] < 32 {
                        let r = Reliable { message_index: Triad(m as u32) };
                        let o = Ordered { order_index: Triad(oi as u32), order_channel: s[k2] };
                        if id == 3 {
                            Ok((InnerPacketReliability::ReliableOrdered(r, o), k2 + 1))
                        } else {
                            Ok((InnerPacketReliability::ReliableOrderedWithAckReceipt(r, o), k2 + 1))
                        }
                    } else {
                        Err(DecodeError::OutOfRange)
                    }
                } else {
                    Err(DecodeError::UnexpectedEof)
                },
                Err(e) => Err(e),
            },
            Err(e) => Err(e),
        }
    } else if id == 1 {
        match codec::parse_le(s, j, 3) {
            Ok((si, k)) => match codec::parse_le(s, k, 3) {
                Ok((oi, k2)) => if k2 + 1 <= s.len() {
                    if s[k2] < 32 {
                        let sq = Sequenced {
                            sequence_index: Triad(si as u32),
                            ordered: Ordered {
                                order_index: Triad(oi as u32),
                                order_channel: s[k2],
                            },
                        };
                        Ok((InnerPacketReliability::UnreliableSequenced(sq), k2 + 1))
                    } else {
                        Err(DecodeError::OutOfRange)
                    }
                } else {
                    Err(DecodeError::UnexpectedEof)
                },
                Err(e) => Err(e),
            },
            Err(e) => Err(e),
        }
    } else {
        match codec::parse_le(s, j, 3) {
            Ok((m, k)) => match codec::parse_le(s, k, 3) {
                Ok((si, k2)) => match codec::parse_le(s, k2, 3) {
                    Ok((oi, k3)) => if k3 + 1 <= s.len() {
                        if s[k3] < 32 {
                            let r = Reliable { message_index: Triad(m as u32) };
                            let sq = Sequenced {
                                sequence_index: Triad(si as u32),
                                ordered: Ordered {
                                    order_index: Triad(oi as u32),
                                    order_channel: s[k3],
                                },
                            };
                            Ok((InnerPacketReliability::ReliableSequenced(r, sq), k3 + 1))
                        } else {
                            Err(DecodeError::OutOfRange)
                        }
                    } else {
                        Err(DecodeError::UnexpectedEof)
                    },
                    Err(e) => Err(e),
                },
                Err(e) => Err(e),
            },
            Err(e) => Err(e),
        }
    }
}

/// Parse of a split descriptor at `k`.
pub open spec fn parse_split(s: Seq<u8>, k: int) -> Result<(Split, int), DecodeError> {
    if 0 <= k && k + 10 <= s.len() {
        Ok(
            (
                Split {
                    split_count: codec::be_val(s.subrange(k, k + 4)) as u32,
                    split_id: codec::be_val(s.subrange(k + 4, k + 6)) as u16,
                    split_index: codec::be_val(s.subrange(k + 6, k + 10)) as u32,
                },
                k + 10,
            ),
        )
    } else {
        Err(DecodeError::UnexpectedEof)
    }
}

/// Parse of a whole inner packet at `i`: the flag byte, the payload length
/// in bits (zero is out of range; the byte count is the bit count rounded
/// up), the reliability header, the split descriptor when the split bit is
/// set, and the payload bytes.
pub open spec fn parse_inner(s: Seq<u8>, i: int) -> Result<
    ((InnerPacketReliability, Option<Split>, Seq<u8>), int),
    DecodeError,
> {
    if !(0 <= i && i + 1 <= s.len()) {
        Err(DecodeError::UnexpectedEof)
    } else {
        let flags = s[i];
        let id = flags / 32;
        let has_split = (flags / 16) % 2 == 1;
        match codec::parse_be(s, i + 1, 2) {
            Ok((bits, j)) => if bits == 0 {
                Err(DecodeError::OutOfRange)
            } else {
                let pb = ((bits - 1) / 8 + 1) as int;
                match parse_rel(s, j, id) {
                    Ok((rel, k)) => if has_split {
                        match parse_split(s, k) {
                            Ok((sp, k2)) => if k2 + pb <= s.len() {
                                Ok(((rel, Some(sp), s.subrange(k2, k2 + pb)), k2 + pb))
                            } else {
                                Err(DecodeError::UnexpectedEof)
                            },
                            Err(e) => Err(e),
                        }
                    } else {
                        if k + pb <= s.len() {
                            Ok(((rel, None, s.subrange(k, k + pb)), k + pb))
                        } else {
                            Err(DecodeError::UnexpectedEof)
                        }
                    },
                    Err(e) => Err(e),
                }
            },
            Err(e) => Err(e),
        }
    }
}

impl InnerPacket {
    /// Headers in range and a payload whose bit count fits the two-byte
    /// length field and is not zero.
    pub open spec fn wf(self) -> bool {
        self.reliability.wf() && 1 <= self.buffer@.len() <= 8191
    }

    /// The full wire bytes of this packet.
    pub open spec fn wire(self) -> Seq<u8> {
        inner_wire(self.reliability, self.split, self.buffer@)
    }

    /// The number of wire bytes: the three fixed header bytes, the optional
    /// fields the reliability calls for, ten split bytes if split, and the
    /// payload.
    pub open spec fn spec_size(self) -> int {
        3 + (if self.reliability.spec_reliable() is Some {
            3int
        } else {
            0int
        }) + (if self.reliability.spec_sequenced() is Some {
            3int
        } else {
            0int
        }) + (if self.reliability.spec_sequenced_or_ordered() is Some {
            4int
        } else {
            0int
        }) + (if self.split is Some {
            10int
        } else {
            0int
        }) + self.buffer@.len()
    }

    /// Computes the wire size without encoding.
    pub fn size(&self) -> (r: usize)
        requires
            self.buffer@.len() <= 8191,
        ensures
            r == self.spec_size(),
    {
        let mut size: usize = 3;
        if self.reliability.reliable().is_some() {
            size = size + 3;
        }
        if self.reliability.sequenced().is_some() {
            size = size + 3;
        }
        if self.reliability.sequenced_or_ordered().is_some() {
            size = size + 4;
        }
        if self.split.is_some() {
            size = size + 10;
        }
        size + self.buffer.len()
    }

    /// The wire size names the same count as the wire bytes.
    pub proof fn lemma_size_is_wire_len(self)
        ensures
            self.spec_size() == self.wire().len(),
    {
        codec::lemma_be_bytes_len((self.buffer@.len() * 8) as nat, 2);
        match self.split {
            Some(sp) => {
                codec::lemma_be_bytes_len(sp.split_count as nat, 4);
                codec::lemma_be_bytes_len(sp.split_id as nat, 2);
                codec::lemma_be_bytes_len(sp.split_index as nat, 4);
            },
            None => {},
        }
        lemma_rel_wire_len(self.reliability);
    }

    /// Appends the wire bytes of this packet.
    #[verifier::rlimit(60)]
    pub fn write(&self, vec: &mut Vec<u8>)
        requires
            self.wf(),
        ensures
            final(vec)@ == old(vec)@ + self.wire(),
    {
        let flags: u8 = self.reliability.id() * 32 + (if self.split.is_some() {
            16
        } else {
            0
        });
        codec::write_u8(vec, flags);
        codec::write_u16_be(vec, (self.buffer.len() * 8) as u16);
        match &self.reliability {
            InnerPacketReliability::Unreliable => {},
            InnerPacketReliability::UnreliableWithAckReceipt => {},
            InnerPacketReliability::Reliable(r) => {
                r.message_index.write_le(vec);
            },
            InnerPacketReliability::ReliableWithAckReceipt(r) => {
                r.message_index.write_le(vec);
            },
            InnerPacketReliability::ReliableOrdered(r, o) => {
                r.message_index.write_le(vec);
                o.order_index.write_le(vec);
                codec::write_u8(vec, o.order_channel);
            },
            InnerPacketReliability::ReliableOrderedWithAckReceipt(r, o) => {
                r.message_index.write_le(vec);
                o.order_index.write_le(vec);
                codec::write_u8(vec, o.order_channel);
            },
            InnerPacketReliability::UnreliableSequenced(s) => {
                s.sequence_index.write_le(vec);
                s.ordered.order_index.write_le(vec);
                codec::write_u8(vec, s.ordered.order_channel);
            },
            InnerPacketReliability::ReliableSequenced(r, s) => {
                r.message_index.write_le(vec);
                s.sequence_index.write_le(vec);
                s.ordered.order_index.write_le(vec);
                codec::write_u8(vec, s.ordered.order_channel);
            },
        }
        match &self.split {
            Some(sp) => {
                codec::write_u32_be(vec, sp.split_count);
                codec::write_u16_be(vec, sp.split_id);
                codec::write_u32_be(vec, sp.split_index);
            },
            None => {},
        }
        let mut payload = self.buffer.clone();
        vec.append(&mut payload);
        assert(vec@ =~= old(vec)@ + self.wire());
    }

    /// Reads one inner packet.
    pub fn read(src: &Vec<u8>, offset: &mut usize) -> (r: Result<InnerPacket, DecodeError>)
        ensures
            match parse_inner(src@, *old(offset) as int) {
                Ok(p) => r matches Ok(q) && q.reliability == p.0.0 && q.split == p.0.1
                    && q.buffer@ == p.0.2 && *final(offset) == p.1,
                Err(e) => r == Err::<InnerPacket, DecodeError>(e) && *final(offset) == *old(
                    offset,
                ),
            },
    {
        let start = *offset;
        let flags = match codec::read_u8(src, offset) {
            Ok(v) => v,
            Err(e) => {
                return Err(e);
            },
        };
        let id = flags / 32;
        let has_split = (flags / 16) % 2 == 1;
        let bits = match codec::read_u16_be(src, offset) {
            Ok(v) => v,
            Err(e) => {
                *offset = start;
                return Err(e);
            },
        };
        proof {
            codec::lemma_be_val_bound(src@.subrange(start as int + 1, start as int + 3));
            codec::lemma_pow256_vals();
        }
        if bits == 0 {
            *offset = start;
            return Err(DecodeError::OutOfRange);
        }
        let payload_bytes = ((bits - 1) / 8 + 1) as usize;
        let reliability = match Self::read_rel(src, offset, id) {
            Ok(v) => v,
            Err(e) => {
                *offset = start;
                return Err(e);
            },
        };
        let split = if has_split {
            match Self::read_split(src, offset) {
                Ok(sp) => Some(sp),
                Err(e) => {
                    *offset = start;
                    return Err(e);
                },
            }
        } else {
            None
        };
        if !(*offset <= src.len() && src.len() - *offset >= payload_bytes) {
            *offset = start;
            return Err(DecodeError::UnexpectedEof);
        }
        let ghost k = *offset as int;
        let len = src.len();
        let mut buffer: Vec<u8> = Vec::new();
        let mut t: usize = 0;
        while t < payload_bytes
            invariant
                t <= payload_bytes,
                k == *offset as int,
                k + payload_bytes <= src@.len(),
                len == src@.len(),
                buffer@ =~= src@.subrange(k, k + t as int),
            decreases payload_bytes - t,
        {
            buffer.push(src[*offset + t]);
            proof {
                assert(src@.subrange(k, k + t as int + 1) =~= src@.subrange(k, k + t as int)
                    + seq![src@[k + t as int]]);
            }
            t = t + 1;
        }
        *offset = *offset + payload_bytes;
        Ok(InnerPacket { reliability, split, buffer })
    }

    /// Reads the reliability header for wire id `id`.
    #[verifier::rlimit(60)]
    fn read_rel(src: &Vec<u8>, offset: &mut usize, id: u8) -> (r: Result<
        InnerPacketReliability,
        DecodeError,
    >)
        requires
            id < 8,
        ensures
            match parse_rel(src@, *old(offset) as int, id) {
                Ok(p) => r == Ok::<InnerPacketReliability, DecodeError>(p.0) && *final(offset)
                    == p.1,
                Err(e) => r == Err::<InnerPacketReliability, DecodeError>(e) && *final(offset)
                    == *old(offset),
            },
    {
        let start = *offset;
        if id == 0 {
            Ok(InnerPacketReliability::Unreliable)
        } else if id == 5 {
            Ok(InnerPacketReliability::UnreliableWithAckReceipt)
        } else if id == 2 || id == 6 {
            let m = match Triad::read_le(src, offset) {
                Ok(v) => v,
                Err(e) => {
                    return Err(e);
                },
            };
            let r = Reliable { message_index: m };
            if id == 2 {
                Ok(InnerPacketReliability::Reliable(r))
            } else {
                Ok(InnerPacketReliability::ReliableWithAckReceipt(r))
            }
        } else if id == 3 || id == 7 {
            let m = match Triad::read_le(src, offset) {
                Ok(v) => v,
                Err(e) => {
                    return Err(e);
                },
            };
            let oi = match Triad::read_le(src, offset) {
                Ok(v) => v,
                Err(e) => {
                    *offset = start;
                    return Err(e);
                },
            };
            let ch = match codec::read_u8(src, offset) {
                Ok(v) => v,
                Err(e) => {
                    *offset = start;
                    return Err(e);
                },
            };
            if ch >= 32 {
                *offset = start;
                return Err(DecodeError::OutOfRange);
            }
            let r = Reliable { message_index: m };
            let o = Ordered { order_index: oi, order_channel: ch };
            if id == 3 {
                Ok(InnerPacketReliability::ReliableOrdered(r, o))
            } else {
                Ok(InnerPacketReliability::ReliableOrderedWithAckReceipt(r, o))
            }
        } else if id == 1 {
            let si = match Triad::read_le(src, offset) {
                Ok(v) => v,
                Err(e) => {
                    return Err(e);
                },
            };
            let oi = match Triad::read_le(src, offset) {
                Ok(v) => v,
                Err(e) => {
                    *offset = start;
                    return Err(e);
                },
            };
            let ch = match codec::read_u8(src, offset) {
                Ok(v) => v,
                Err(e) => {
                    *offset = start;
                    return Err(e);
                },
            };
            if ch >= 32 {
                *offset = start;
                return Err(DecodeError::OutOfRange);
            }
            Ok(
                InnerPacketReliability::UnreliableSequenced(
                    Sequenced {
                        sequence_index: si,
                        ordered: Ordered { order_index: oi, order_channel: ch },
                    },
                ),
            )
        } else {
            let m = match Triad::read_le(src, offset) {
                Ok(v) => v,
                Err(e) => {
                    return Err(e);
                },
            };
            let si = match Triad::read_le(src, offset) {
                Ok(v) => v,
                Err(e) => {
                    *offset = start;
                    return Err(e);
                },
            };
            let oi = match Triad::read_le(src, offset) {
                Ok(v) => v,
                Err(e) => {
                    *offset = start;
                    return Err(e);
                },
            };
            let ch = match codec::read_u8(src, offset) {
                Ok(v) => v,
                Err(e) => {
                    *offset = start;
                    return Err(e);
                },
            };
            if ch >= 32 {
                *offset = start;
                return Err(DecodeError::OutOfRange);
            }
            Ok(
                InnerPacketReliability::ReliableSequenced(
                    Reliable { message_index: m },
                    Sequenced {
                        sequence_index: si,
                        ordered: Ordered { order_index: oi, order_channel: ch },
                    },
                ),
            )
        }
    }

    /// Reads a split descriptor.
    fn read_split(src: &Vec<u8>, offset: &mut usize) -> (r: Result<Split, DecodeError>)
        ensures
            match parse_split(src@, *old(offset) as int) {
                Ok(p) => r == Ok::<Split, DecodeError>(p.0) && *final(offset) == p.1,
                Err(e) => r == Err::<Split, DecodeError>(e) && *final(offset) == *old(offset),
            },
    {
        let start = *offset;
        if !(*offset <= src.len() && src.len() - *offset >= 10) {
            return Err(DecodeError::UnexpectedEof);
        }
        let split_count = match codec::read_u32_be(src, offset) {
            Ok(v) => v,
            Err(e) => {
                *offset = start;
                return Err(e);
            },
        };
        let split_id = match codec::read_u16_be(src, offset) {
            Ok(v) => v,
            Err(e) => {
                *offset = start;
                return Err(e);
            },
        };
        let split_index = match codec::read_u32_be(src, offset) {
            Ok(v) => v,
            Err(e) => {
                *offset = start;
                return Err(e);
            },
        };
        Ok(Split { split_count, split_id, split_index })
    }
}

/// What one parsed inner packet holds: its reliability, its split
/// descriptor, and its payload bytes.
pub type InnerRec = (InnerPacketReliability, Option<Split>, Seq<u8>);

/// The record of an inner packet value.
pub open spec fn rec_of(p: InnerPacket) -> InnerRec {
    (p.reliability, p.split, p.buffer@)
}

/// The records of a sequence of inner packets.
pub open spec fn recs_of(ps: Seq<InnerPacket>) -> Seq<InnerRec> {
    ps.map_values(|p: InnerPacket| rec_of(p))
}

/// A successful reliability-header parse stays inside the buffer and never
/// moves backwards.
pub proof fn lemma_parse_rel_bounds(s: Seq<u8>, j: int, id: u8)
    requires
        0 <= j <= s.len(),
    ensures
        parse_rel(s, j, id) matches Ok(p) ==> j <= p.1 <= s.len(),
{
}

/// A successful inner-packet parse consumes at least the three header bytes
/// and one payload byte, and stays inside the buffer.
pub proof fn lemma_parse_inner_advances(s: Seq<u8>, i: int)
    ensures
        parse_inner(s, i) matches Ok(p) ==> i + 4 <= p.1 <= s.len(),
{
    if parse_inner(s, i) is Ok {
        let flags = s[i];
        let id = flags / 32;
        lemma_parse_rel_bounds(s, i + 3, id);
    }
}

/// Parsing where the wire bytes of a reliability header are known to sit
/// restores the header.
pub proof fn lemma_parse_rel_of_wire(s: Seq<u8>, j: int, rel: InnerPacketReliability)
    requires
        0 <= j,
        rel.wf(),
        j + rel_wire(rel).len() <= s.len(),
        s.subrange(j, j + rel_wire(rel).len()) == rel_wire(rel),
    ensures
        parse_rel(s, j, rel.spec_id()) == Ok::<(InnerPacketReliability, int), DecodeError>(
            (rel, j + rel_wire(rel).len()),
        ),
{
    let rw = rel_wire(rel);
    codec::lemma_pow256_vals();
    lemma_rel_wire_len(rel);
    match rel {
        InnerPacketReliability::Unreliable => {},
        InnerPacketReliability::UnreliableWithAckReceipt => {},
        InnerPacketReliability::Reliable(r) => {
            codec::lemma_le_bytes_len((r.message_index.0 % 0x1000000) as nat, 3);
            assert(rw.subrange(0, 3) =~= r.message_index.wire_le());
            lemma_triad_le_at(s, j, rw, 0, r.message_index);
        },
        InnerPacketReliability::ReliableWithAckReceipt(r) => {
            codec::lemma_le_bytes_len((r.message_index.0 % 0x1000000) as nat, 3);
            assert(rw.subrange(0, 3) =~= r.message_index.wire_le());
            lemma_triad_le_at(s, j, rw, 0, r.message_index);
        },
        InnerPacketReliability::ReliableOrdered(r, o) => {
            codec::lemma_le_bytes_len((r.message_index.0 % 0x1000000) as nat, 3);
            codec::lemma_le_bytes_len((o.order_index.0 % 0x1000000) as nat, 3);
            assert(rw.subrange(0, 3) =~= r.message_index.wire_le());
            assert(rw.subrange(3, 6) =~= o.order_index.wire_le());
            lemma_triad_le_at(s, j, rw, 0, r.message_index);
            lemma_triad_le_at(s, j, rw, 3, o.order_index);
            assert(s[j + 6] == rw[6]) by {
                assert(s.subrange(j, j + 7)[6] == s[j + 6]);
            };
        },
        InnerPacketReliability::ReliableOrderedWithAckReceipt(r, o) => {
            codec::lemma_le_bytes_len((r.message_index.0 % 0x1000000) as nat, 3);
            codec::lemma_le_bytes_len((o.order_index.0 % 0x1000000) as nat, 3);
            assert(rw.subrange(0, 3) =~= r.message_index.wire_le());
            assert(rw.subrange(3, 6) =~= o.order_index.wire_le());
            lemma_triad_le_at(s, j, rw, 0, r.message_index);
            lemma_triad_le_at(s, j, rw, 3, o.order_index);
            assert(s[j + 6] == rw[6]) by {
                assert(s.subrange(j, j + 7)[6] == s[j + 6]);
            };
        },
        InnerPacketReliability::UnreliableSequenced(sq) => {
            codec::lemma_le_bytes_len((sq.sequence_index.0 % 0x1000000) as nat, 3);
            codec::lemma_le_bytes_len((sq.ordered.order_index.0 % 0x1000000) as nat, 3);
            assert(rw.subrange(0, 3) =~= sq.sequence_index.wire_le());
            assert(rw.subrange(3, 6) =~= sq.ordered.order_index.wire_le());
            lemma_triad_le_at(s, j, rw, 0, sq.sequence_index);
            lemma_triad_le_at(s, j, rw, 3, sq.ordered.order_index);
            assert(s[j + 6] == rw[6]) by {
                assert(s.subrange(j, j + 7)[6] == s[j + 6]);
            };
        },
        InnerPacketReliability::ReliableSequenced(r, sq) => {
            codec::lemma_le_bytes_len((r.message_index.0 % 0x1000000) as nat, 3);
            codec::lemma_le_bytes_len((sq.sequence_index.0 % 0x1000000) as nat, 3);
            codec::lemma_le_bytes_len((sq.ordered.order_index.0 % 0x1000000) as nat, 3);
            assert(rw.subrange(0, 3) =~= r.message_index.wire_le());
            assert(rw.subrange(3, 6) =~= sq.sequence_index.wire_le());
            assert(rw.subrange(6, 9) =~= sq.ordered.order_index.wire_le());
            lemma_triad_le_at(s, j, rw, 0, r.message_index);
            lemma_triad_le_at(s, j, rw, 3, sq.sequence_index);
            lemma_triad_le_at(s, j, rw, 6, sq.ordered.order_index);
            assert(s[j + 9] == rw[9]) by {
                assert(s.subrange(j, j + 10)[9] == s[j + 9]);
            };
        },
    }
}

/// One little-endian triad within a known run of header bytes parses to
/// its value.
proof fn lemma_triad_le_at(s: Seq<u8>, j: int, w: Seq<u8>, off: int, t: Triad)
    requires
        0 <= j,
        0 <= off,
        t.wf(),
        off + 3 <= w.len(),
        j + w.len() <= s.len(),
        s.subrange(j, j + w.len()) == w,
        w.subrange(off, off + 3) == t.wire_le(),
    ensures
        codec::parse_le(s, j + off, 3) == Ok::<(nat, int), DecodeError>(
            (t.0 as nat, j + off + 3),
        ),
{
    codec::lemma_pow256_vals();
    codec::lemma_subrange_within(s, j, w, off, off + 3);
    codec::lemma_le_val_of_bytes((t.0 % 0x1000000) as nat, 3);
}

/// Parsing where the wire bytes of a split descriptor are known to sit
/// restores the descriptor.
pub proof fn lemma_parse_split_of_wire(s: Seq<u8>, k: int, sp: Split)
    requires
        0 <= k,
        k + 10 <= s.len(),
        s.subrange(k, k + 10) == split_wire(sp),
    ensures
        parse_split(s, k) == Ok::<(Split, int), DecodeError>((sp, k + 10)),
{
    let w = split_wire(sp);
    codec::lemma_pow256_vals();
    codec::lemma_be_bytes_len(sp.split_count as nat, 4);
    codec::lemma_be_bytes_len(sp.split_id as nat, 2);
    codec::lemma_be_bytes_len(sp.split_index as nat, 4);
    assert(w.subrange(0, 4) =~= codec::be_bytes(sp.split_count as nat, 4));
    codec::lemma_subrange_within(s, k, w, 0, 4);
    codec::lemma_be_val_of_bytes(sp.split_count as nat, 4);
    assert(w.subrange(4, 6) =~= codec::be_bytes(sp.split_id as nat, 2));
    codec::lemma_subrange_within(s, k, w, 4, 6);
    codec::lemma_be_val_of_bytes(sp.split_id as nat, 2);
    assert(w.subrange(6, 10) =~= codec::be_bytes(sp.split_index as nat, 4));
    codec::lemma_subrange_within(s, k, w, 6, 10);
    codec::lemma_be_val_of_bytes(sp.split_index as nat, 4);
}

/// The round trip of one inner packet: parsing where its wire bytes are
/// known to sit restores the reliability, the split descriptor, and the
/// payload.
pub proof fn lemma_parse_inner_of_wire(
    s: Seq<u8>,
    i: int,
    rel: InnerPacketReliability,
    split: Option<Split>,
    payload: Seq<u8>,
)
    requires
        0 <= i,
        rel.wf(),
        1 <= payload.len() <= 8191,
        i + inner_wire(rel, split, payload).len() <= s.len(),
        s.subrange(i, i + inner_wire(rel, split, payload).len()) == inner_wire(
            rel,
            split,
            payload,
        ),
    ensures
        parse_inner(s, i) == Ok::<((InnerPacketReliability, Option<Split>, Seq<u8>), int), DecodeError>(
            ((rel, split, payload), i + inner_wire(rel, split, payload).len()),
        ),
{
    let w = inner_wire(rel, split, payload);
    let rw = rel_wire(rel);
    let sw = match split {
        Some(sp) => split_wire(sp),
        None => Seq::<u8>::empty(),
    };
    codec::lemma_pow256_vals();
    codec::lemma_be_bytes_len((payload.len() * 8) as nat, 2);
    lemma_rel_wire_len(rel);
    match split {
        Some(sp) => {
            codec::lemma_be_bytes_len(sp.split_count as nat, 4);
            codec::lemma_be_bytes_len(sp.split_id as nat, 2);
            codec::lemma_be_bytes_len(sp.split_index as nat, 4);
        },
        None => {},
    }
    assert(w.len() == 3 + rw.len() + sw.len() + payload.len());
    assert(s[i] == w[0]) by {
        assert(s.subrange(i, i + w.len() as int)[0] == s[i]);
    };
    assert(w[0] == inner_flags(rel, split));
    let flags = inner_flags(rel, split);
    assert(flags / 32 == rel.spec_id());
    assert((flags / 16) % 2 == (if split is Some {
        1int
    } else {
        0int
    }));
    assert(w.subrange(1, 3) =~= codec::be_bytes((payload.len() * 8) as nat, 2));
    codec::lemma_subrange_within(s, i, w, 1, 3);
    codec::lemma_parse_be_of_wire(s, i + 1, (payload.len() * 8) as nat, 2);
    let bits = payload.len() * 8;
    assert((bits - 1) / 8 + 1 == payload.len());
    assert(w.subrange(3, 3 + rw.len() as int) =~= rw);
    codec::lemma_subrange_within(s, i, w, 3, 3 + rw.len() as int);
    lemma_parse_rel_of_wire(s, i + 3, rel);
    let k = i + 3 + rw.len() as int;
    match split {
        Some(sp) => {
            assert(w.subrange(
                3 + rw.len() as int,
                3 + rw.len() as int + 10,
            ) =~= split_wire(sp));
            codec::lemma_subrange_within(s, i, w, 3 + rw.len() as int, 3 + rw.len() as int + 10);
            lemma_parse_split_of_wire(s, k, sp);
            let k2 = k + 10;
            assert(w.subrange(
                3 + rw.len() as int + 10,
                w.len() as int,
            ) =~= payload);
            codec::lemma_subrange_within(s, i, w, 3 + rw.len() as int + 10, w.len() as int);
        },
        None => {
            assert(w.subrange(3 + rw.len() as int, w.len() as int) =~= payload);
            codec::lemma_subrange_within(s, i, w, 3 + rw.len() as int, w.len() as int);
        },
    }
}

/// The reliability header's byte count for each variant.
pub proof fn lemma_rel_wire_len(rel: InnerPacketReliability)
    ensures
        rel_wire(rel).len() == (if rel.spec_reliable() is Some {
            3int
        } else {
            0int
        }) + (if rel.spec_sequenced() is Some {
            3int
        } else {
            0int
        }) + (if rel.spec_sequenced_or_ordered() is Some {
            4int
        } else {
            0int
        }),
{
    match rel {
        InnerPacketReliability::Unreliable => {},
        InnerPacketReliability::UnreliableWithAckReceipt => {},
        InnerPacketReliability::Reliable(r) => {
            codec::lemma_le_bytes_len((r.message_index.0 % 0x1000000) as nat, 3);
        },
        InnerPacketReliability::ReliableWithAckReceipt(r) => {
            codec::lemma_le_bytes_len((r.message_index.0 % 0x1000000) as nat, 3);
        },
        InnerPacketReliability::ReliableOrdered(r, o) => {
            codec::lemma_le_bytes_len((r.message_index.0 % 0x1000000) as nat, 3);
            codec::lemma_le_bytes_len((o.order_index.0 % 0x1000000) as nat, 3);
        },
        InnerPacketReliability::ReliableOrderedWithAckReceipt(r, o) => {
            codec::lemma_le_bytes_len((r.message_index.0 % 0x1000000) as nat, 3);
            codec::lemma_le_bytes_len((o.order_index.0 % 0x1000000) as nat, 3);
        },
        InnerPacketReliability::UnreliableSequenced(s) => {
            codec::lemma_le_bytes_len((s.sequence_index.0 % 0x1000000) as nat, 3);
            codec::lemma_le_bytes_len((s.ordered.order_index.0 % 0x1000000) as nat, 3);
        },
        InnerPacketReliability::ReliableSequenced(r, s) => {
            codec::lemma_le_bytes_len((r.message_index.0 % 0x1000000) as nat, 3);
            codec::lemma_le_bytes_len((s.sequence_index.0 % 0x1000000) as nat, 3);
            codec::lemma_le_bytes_len((s.ordered.order_index.0 % 0x1000000) as nat, 3);
        },
    }
}

} // verus!
