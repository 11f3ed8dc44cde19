//! The online packet wrapper: every in-session UDP datagram starts with a
//! flag byte whose bits select an ack, a nack, or a datagram body.

use vstd::prelude::*;

use crate::acklist::{cluster, flatten_pairs, normalize, parse_records, records_wire, Ack, Nack};
use crate::datagram::{parse_datagram, Datagram};
use crate::error::DecodeError;
use crate::inner::recs_of;
use crate::triad::Triad;

verus! {

/// Bit 7 of the flag byte: must be set; a datagram without it is silently
/// dropped.
pub const FLAG_VALID: u8 = 0x80;

/// Bit 6: the payload is an ack record list.
pub const FLAG_ACK: u8 = 0x40;

/// Bit 5: the payload is a nack record list.
pub const FLAG_NAK: u8 = 0x20;

/// A packet sent or received in an established session.
#[derive(Clone, Debug, PartialEq)]
pub enum OnlinePacket {
    Ack(Ack),
    Nack(Nack),
    Datagram(Datagram),
}

/// The flag bits of the valid-bit, ack-bit and nack-bit of a byte.
pub open spec fn flag_valid(b: u8) -> bool {
    (b / 0x80) % 2 == 1
}

pub open spec fn flag_ack(b: u8) -> bool {
    (b / 0x40) % 2 == 1
}

pub open spec fn flag_nak(b: u8) -> bool {
    (b / 0x20) % 2 == 1
}

/// The wire bytes of an online packet: the flag byte, then the body.
pub open spec fn online_wire(p: OnlinePacket) -> Seq<u8> {
    match p {
        OnlinePacket::Ack(a) => seq![(FLAG_VALID + FLAG_ACK) as u8] + records_wire(
            cluster(a.packets@),
        ),
        OnlinePacket::Nack(n) => seq![(FLAG_VALID + FLAG_NAK) as u8] + records_wire(
            cluster(n.packets@),
        ),
        OnlinePacket::Datagram(d) => seq![FLAG_VALID] + d.wire(),
    }
}

/// The round trip of an online packet: a buffer holding exactly its wire
/// bytes carries the valid bit, selects the same body kind, and its body
/// parses back to the held value.  For an ack or nack, the records parse
/// to the coalesced ranges, which normalization leaves alone and which
/// flatten back to the held packet numbers.
#[verifier::rlimit(100)]
pub proof fn lemma_online_wire_round_trip(p: OnlinePacket, s: Seq<u8>)
    requires
        p.wf(),
        s == online_wire(p),
    ensures
        s.len() >= 1,
        flag_valid(s[0]),
        p matches OnlinePacket::Ack(a) ==> flag_ack(s[0]) && parse_records(s, 1) == Ok::<
            Seq<(u32, u32)>,
            DecodeError,
        >(crate::acklist::cluster(a.packets@)) && flatten_pairs(
            normalize(crate::acklist::cluster(a.packets@)),
        ) == a.packets@,
        p matches OnlinePacket::Nack(n) ==> !flag_ack(s[0]) && flag_nak(s[0]) && parse_records(
            s,
            1,
        ) == Ok::<Seq<(u32, u32)>, DecodeError>(crate::acklist::cluster(n.packets@))
            && flatten_pairs(normalize(crate::acklist::cluster(n.packets@))) == n.packets@,
        p matches OnlinePacket::Datagram(d) ==> !flag_ack(s[0]) && !flag_nak(s[0])
            && parse_datagram(s, 1) == Ok::<
            (Triad, Seq<crate::inner::InnerRec>),
            DecodeError,
        >((d.seq_number, recs_of(d.packets@))),
{
    match p {
        OnlinePacket::Ack(a) => {
            let ps = crate::acklist::cluster(a.packets@);
            crate::acklist::lemma_acklist_round_trip(a.packets@);
            assert(s.subrange(1, s.len() as int) =~= records_wire(ps));
            crate::acklist::lemma_parse_records_of_wire(ps, s, 1);
        },
        OnlinePacket::Nack(n) => {
            let ps = crate::acklist::cluster(n.packets@);
            crate::acklist::lemma_acklist_round_trip(n.packets@);
            assert(s.subrange(1, s.len() as int) =~= records_wire(ps));
            crate::acklist::lemma_parse_records_of_wire(ps, s, 1);
        },
        OnlinePacket::Datagram(d) => {
            assert(s.subrange(1, s.len() as int) =~= d.wire());
            crate::datagram::lemma_parse_datagram_of_wire(d, s, 1);
        },
    }
}

impl OnlinePacket {
    /// The held body is well formed.
    pub open spec fn wf(self) -> bool {
        match self {
            OnlinePacket::Ack(a) => a.wf(),
            OnlinePacket::Nack(n) => n.wf(),
            OnlinePacket::Datagram(d) => d.wf(),
        }
    }

    /// Encodes this packet into a full UDP payload.
    pub fn write(&self, vec: &mut Vec<u8>)
        requires
            self.wf(),
        ensures
            final(vec)@ == old(vec)@ + online_wire(*self),
    {
        match self {
            OnlinePacket::Ack(a) => {
                crate::codec::write_u8(vec, FLAG_VALID + FLAG_ACK);
                a.write(vec);
                assert(vec@ =~= old(vec)@ + online_wire(*self));
            },
            OnlinePacket::Nack(n) => {
                crate::codec::write_u8(vec, FLAG_VALID + FLAG_NAK);
                n.write(vec);
                assert(vec@ =~= old(vec)@ + online_wire(*self));
            },
            OnlinePacket::Datagram(d) => {
                crate::codec::write_u8(vec, FLAG_VALID);
                d.write(vec);
                assert(vec@ =~= old(vec)@ + online_wire(*self));
            },
        }
    }

    /// Reads a UDP payload of unknown type and interprets it as an online
    /// packet.  A leading byte without the valid bit yields no packet and
    /// no error; the unused flag bits are accepted and ignored.
    pub fn read(src: &Vec<u8>, offset: &mut usize) -> (r: Result<
        Option<OnlinePacket>,
        DecodeError,
    >)
        ensures
            *old(offset) + 1 > src@.len() ==> r == Err::<Option<OnlinePacket>, DecodeError>(
                DecodeError::UnexpectedEof,
            ) && *final(offset) == *old(offset),
            *old(offset) + 1 <= src@.len() && !flag_valid(src@[*old(offset) as int]) ==> r == Ok::<
                Option<OnlinePacket>,
                DecodeError,
            >(None) && *final(offset) == *old(offset) + 1,
            *old(offset) + 1 <= src@.len() && flag_valid(src@[*old(offset) as int]) && flag_ack(
                src@[*old(offset) as int],
            ) ==> (match parse_records(src@, *old(offset) + 1) {
                Ok(raw) => r matches Ok(q) && q matches Some(p) && p matches OnlinePacket::Ack(a)
                    && a.packets@ == flatten_pairs(normalize(raw)) && *final(offset) == src@.len(),
                Err(e) => r == Err::<Option<OnlinePacket>, DecodeError>(e) && *final(offset)
                    == *old(offset),
            }),
            *old(offset) + 1 <= src@.len() && flag_valid(src@[*old(offset) as int]) && !flag_ack(
                src@[*old(offset) as int],
            ) && flag_nak(src@[*old(offset) as int]) ==> (match parse_records(
                src@,
                *old(offset) + 1,
            ) {
                Ok(raw) => r matches Ok(q) && q matches Some(p) && p matches OnlinePacket::Nack(n)
                    && n.packets@ == flatten_pairs(normalize(raw)) && *final(offset) == src@.len(),
                Err(e) => r == Err::<Option<OnlinePacket>, DecodeError>(e) && *final(offset)
                    == *old(offset),
            }),
            *old(offset) + 1 <= src@.len() && flag_valid(src@[*old(offset) as int]) && !flag_ack(
                src@[*old(offset) as int],
            ) && !flag_nak(src@[*old(offset) as int]) ==> (match parse_datagram(
                src@,
                *old(offset) + 1,
            ) {
                Ok(p) => r matches Ok(q) && q matches Some(w) && w matches OnlinePacket::Datagram(
                    d,
                ) && d.seq_number == p.0 && recs_of(d.packets@) == p.1 && *final(offset)
                    == src@.len(),
                Err(e) => r == Err::<Option<OnlinePacket>, DecodeError>(e) && *final(offset)
                    == *old(offset),
            }),
    {
        let start = *offset;
        let flags = match crate::codec::read_u8(src, offset) {
            Ok(v) => v,
            Err(e) => {
                return Err(e);
            },
        };
        if (flags / 0x80) % 2 != 1 {
            return Ok(None);
        }
        if (flags / 0x40) % 2 == 1 {
            match Ack::read(src, offset) {
                Ok(a) => Ok(Some(OnlinePacket::Ack(a))),
                Err(e) => {
                    *offset = start;
                    Err(e)
                },
            }
        } else if (flags / 0x20) % 2 == 1 {
            match Nack::read(src, offset) {
                Ok(n) => Ok(Some(OnlinePacket::Nack(n))),
                Err(e) => {
                    *offset = start;
                    Err(e)
                },
            }
        } else {
            match Datagram::read(src, offset) {
                Ok(d) => Ok(Some(OnlinePacket::Datagram(d))),
                Err(e) => {
                    *offset = start;
                    Err(e)
                },
            }
        }
    }
}

} // verus!
