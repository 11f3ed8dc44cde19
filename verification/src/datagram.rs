//! Datagram framing: a little-endian triad sequence number followed by a
//! concatenation of inner packets with no length prefixes between them.

use vstd::prelude::*;

use crate::codec;
use crate::error::DecodeError;
use crate::inner::{parse_inner, rec_of, recs_of, InnerPacket, InnerRec};
use crate::triad::Triad;

verus! {

/// One outgoing or incoming datagram of an established session.
#[derive(Clone, Debug, PartialEq)]
pub struct Datagram {
    pub packets: Vec<InnerPacket>,
    pub seq_number: Triad,
}

/// The concatenated wire bytes of a run of inner packets.
pub open spec fn inners_wire(ps: Seq<InnerPacket>) -> Seq<u8>
    decreases ps.len(),
{
    if ps.len() == 0 {
        Seq::empty()
    } else {
        ps.first().wire() + inners_wire(ps.drop_first())
    }
}

/// The total wire size of a run of inner packets.
pub open spec fn inners_size(ps: Seq<InnerPacket>) -> int
    decreases ps.len(),
{
    if ps.len() == 0 {
        0
    } else {
        ps.first().spec_size() + inners_size(ps.drop_first())
    }
}

/// Appending a packet appends its wire bytes.
pub proof fn lemma_inners_wire_push(ps: Seq<InnerPacket>, p: InnerPacket)
    ensures
        inners_wire(ps.push(p)) == inners_wire(ps) + p.wire(),
    decreases ps.len(),
{
    if ps.len() == 0 {
        assert(inners_wire(Seq::<InnerPacket>::empty()) =~= Seq::<u8>::empty());
        assert(ps =~= Seq::<InnerPacket>::empty());
        assert(ps.push(p).drop_first() =~= Seq::<InnerPacket>::empty());
        assert(ps.push(p).first() == p);
        assert(inners_wire(ps.push(p)) =~= inners_wire(ps) + p.wire());
    } else {
        assert(ps.push(p).drop_first() =~= ps.drop_first().push(p));
        assert(ps.push(p).first() == ps.first());
        lemma_inners_wire_push(ps.drop_first(), p);
        assert(inners_wire(ps.push(p)) =~= inners_wire(ps) + p.wire());
    }
}

/// Appending a packet adds its size.
pub proof fn lemma_inners_size_push(ps: Seq<InnerPacket>, p: InnerPacket)
    ensures
        inners_size(ps.push(p)) == inners_size(ps) + p.spec_size(),
    decreases ps.len(),
{
    if ps.len() == 0 {
        assert(inners_size(Seq::<InnerPacket>::empty()) == 0);
        assert(ps =~= Seq::<InnerPacket>::empty());
        assert(ps.push(p).drop_first() =~= Seq::<InnerPacket>::empty());
        assert(ps.push(p).first() == p);
    } else {
        assert(ps.push(p).drop_first() =~= ps.drop_first().push(p));
        assert(ps.push(p).first() == ps.first());
        lemma_inners_size_push(ps.drop_first(), p);
    }
}

/// The wire bytes of a run of packets hold exactly their total size.
pub proof fn lemma_inners_wire_len(ps: Seq<InnerPacket>)
    ensures
        inners_wire(ps).len() == inners_size(ps),
    decreases ps.len(),
{
    if ps.len() > 0 {
        ps.first().lemma_size_is_wire_len();
        lemma_inners_wire_len(ps.drop_first());
    }
}

/// Parse of a run of inner packets from `k` to the end of the buffer; a
/// trailing partial packet is an error.
pub open spec fn parse_inners(s: Seq<u8>, k: int) -> Result<Seq<InnerRec>, DecodeError>
    decreases s.len() - k,
    when 0 <= k <= s.len()
    via parse_inners_decreases
{
    if k >= s.len() {
        Ok(Seq::empty())
    } else {
        match parse_inner(s, k) {
            Ok((rec, k2)) => match parse_inners(s, k2) {
                Ok(rest) => Ok(seq![rec] + rest),
                Err(e) => Err(e),
            },
            Err(e) => Err(e),
        }
    }
}

#[via_fn]
proof fn parse_inners_decreases(s: Seq<u8>, k: int) {
    crate::inner::lemma_parse_inner_advances(s, k);
}

/// One unfolding of `parse_inners`: how the parse at `k` follows from the
/// packet parse at `k` and the run parse behind it.
pub proof fn lemma_parse_inners_step(s: Seq<u8>, k: int)
    requires
        0 <= k < s.len(),
    ensures
        parse_inner(s, k) matches Err(e) ==> parse_inners(s, k) == Err::<
            Seq<InnerRec>,
            DecodeError,
        >(e),
        parse_inner(s, k) matches Ok(q) ==> 0 <= q.1 <= s.len() && (match parse_inners(s, q.1) {
            Ok(rest) => parse_inners(s, k) == Ok::<Seq<InnerRec>, DecodeError>(seq![q.0] + rest),
            Err(e) => parse_inners(s, k) == Err::<Seq<InnerRec>, DecodeError>(e),
        }),
{
    crate::inner::lemma_parse_inner_advances(s, k);
}

/// Parse of a whole datagram: the sequence number, then inner packets
/// until the buffer is exhausted.
pub open spec fn parse_datagram(s: Seq<u8>, i: int) -> Result<(Triad, Seq<InnerRec>), DecodeError> {
    match codec::parse_le(s, i, 3) {
        Ok((sq, k)) => match parse_inners(s, k) {
            Ok(recs) => Ok((Triad(sq as u32), recs)),
            Err(e) => Err(e),
        },
        Err(e) => Err(e),
    }
}

/// A run of well-formed packets written out to the end of a buffer parses
/// back to its records.
pub proof fn lemma_parse_inners_of_wire(ps: Seq<InnerPacket>, s: Seq<u8>, k: int)
    requires
        0 <= k <= s.len(),
        forall|t: int| 0 <= t < ps.len() ==> (#[trigger] ps[t]).wf(),
        s.subrange(k, s.len() as int) == inners_wire(ps),
    ensures
        parse_inners(s, k) == Ok::<Seq<InnerRec>, DecodeError>(recs_of(ps)),
    decreases ps.len(),
{
    if ps.len() == 0 {
        assert(inners_wire(ps) =~= Seq::<u8>::empty());
        assert(k == s.len());
        assert(recs_of(ps) =~= Seq::<InnerRec>::empty());
    } else {
        let p = ps.first();
        let rest = ps.drop_first();
        assert(forall|t: int| 0 <= t < rest.len() ==> rest[t] == ps[t + 1]);
        let w0 = p.wire();
        let rest_w = inners_wire(rest);
        let tail = s.subrange(k, s.len() as int);
        assert(tail =~= w0 + rest_w);
        p.lemma_size_is_wire_len();
        assert(w0.len() >= 4);
        assert(tail.subrange(0, w0.len() as int) =~= w0);
        crate::codec::lemma_subrange_within(s, k, tail, 0, w0.len() as int);
        assert(ps[0].wf());
        crate::inner::lemma_parse_inner_of_wire(s, k, p.reliability, p.split, p.buffer@);
        assert(tail.subrange(w0.len() as int, tail.len() as int) =~= rest_w);
        crate::codec::lemma_subrange_within(s, k, tail, w0.len() as int, tail.len() as int);
        lemma_parse_inners_of_wire(rest, s, k + w0.len() as int);
        assert(seq![rec_of(p)] + recs_of(rest) =~= recs_of(ps));
    }
}

/// The round trip of a datagram: parsing a buffer that holds exactly its
/// wire bytes from `i` on restores the sequence number and the packets'
/// records.
pub proof fn lemma_parse_datagram_of_wire(d: Datagram, s: Seq<u8>, i: int)
    requires
        0 <= i <= s.len(),
        d.wf(),
        s.subrange(i, s.len() as int) == d.wire(),
    ensures
        parse_datagram(s, i) == Ok::<(Triad, Seq<InnerRec>), DecodeError>(
            (d.seq_number, recs_of(d.packets@)),
        ),
{
    let w = d.wire();
    let tail = s.subrange(i, s.len() as int);
    crate::codec::lemma_pow256_vals();
    crate::codec::lemma_le_bytes_len((d.seq_number.0 % 0x1000000) as nat, 3);
    assert(i + tail.len() == s.len());
    assert(tail.subrange(0, 3) =~= d.seq_number.wire_le());
    crate::codec::lemma_subrange_within(s, i, tail, 0, 3);
    crate::codec::lemma_le_val_of_bytes((d.seq_number.0 % 0x1000000) as nat, 3);
    assert(tail.subrange(3, tail.len() as int) =~= inners_wire(d.packets@));
    crate::codec::lemma_subrange_within(s, i, tail, 3, tail.len() as int);
    lemma_parse_inners_of_wire(d.packets@, s, i + 3);
}

impl Datagram {
    /// The sequence number is a triad and every packet is well formed.
    pub open spec fn wf(self) -> bool {
        self.seq_number.wf() && forall|t: int|
            0 <= t < self.packets@.len() ==> (#[trigger] self.packets@[t]).wf()
    }

    /// The full wire bytes of this datagram.
    pub open spec fn wire(self) -> Seq<u8> {
        self.seq_number.wire_le() + inners_wire(self.packets@)
    }

    /// The wire size: three sequence-number bytes plus the packets.
    pub open spec fn spec_size(self) -> int {
        3 + inners_size(self.packets@)
    }

    /// Appends the wire bytes of this datagram.
    pub fn write(&self, vec: &mut Vec<u8>)
        requires
            self.wf(),
        ensures
            final(vec)@ == old(vec)@ + self.wire(),
    {
        self.seq_number.write_le(vec);
        let n = self.packets.len();
        let mut t: usize = 0;
        while t < n
            invariant
                t <= n,
                n == self.packets@.len(),
                self.wf(),
                vec@ == old(vec)@ + self.seq_number.wire_le() + inners_wire(
                    self.packets@.subrange(0, t as int),
                ),
            decreases n - t,
        {
            self.packets[t].write(vec);
            proof {
                assert(self.packets@.subrange(0, t as int + 1) =~= self.packets@.subrange(
                    0,
                    t as int,
                ).push(self.packets@[t as int]));
                lemma_inners_wire_push(self.packets@.subrange(0, t as int), self.packets@[t as int]);
                assert(vec@ =~= old(vec)@ + self.seq_number.wire_le() + inners_wire(
                    self.packets@.subrange(0, t as int + 1),
                ));
            }
            t = t + 1;
        }
        proof {
            assert(self.packets@.subrange(0, n as int) =~= self.packets@);
            assert(vec@ =~= old(vec)@ + self.wire());
        }
    }

    /// Reads a datagram from the rest of the buffer, consuming it whole.
    #[verifier::rlimit(100)]
    pub fn read(src: &Vec<u8>, offset: &mut usize) -> (r: Result<Datagram, DecodeError>)
        ensures
            match parse_datagram(src@, *old(offset) as int) {
                Ok(p) => r matches Ok(d) && d.seq_number == p.0 && recs_of(d.packets@) == p.1
                    && *final(offset) == src@.len(),
                Err(e) => r == Err::<Datagram, DecodeError>(e) && *final(offset) == *old(offset),
            },
    {
        let start = *offset;
        let seq_number = match Triad::read_le(src, offset) {
            Ok(v) => v,
            Err(e) => {
                return Err(e);
            },
        };
        let mut packets: Vec<InnerPacket> = Vec::new();
        proof {
            assert(recs_of(packets@) =~= Seq::<InnerRec>::empty());
            if parse_inners(src@, *offset as int) is Ok {
                assert(recs_of(packets@) + parse_inners(src@, *offset as int)->Ok_0
                    =~= parse_inners(src@, *offset as int)->Ok_0);
            }
        }
        while *offset < src.len()
            invariant
                start == *old(offset),
                start + 3 <= src@.len(),
                *offset <= src@.len(),
                codec::parse_le(src@, start as int, 3) matches Ok(q) && q.1 == start + 3
                    && seq_number == Triad(q.0 as u32),
                parse_inners(src@, *offset as int) matches Ok(rest) ==> parse_inners(
                    src@,
                    start as int + 3,
                ) == Ok::<Seq<InnerRec>, DecodeError>(recs_of(packets@) + rest),
                parse_inners(src@, *offset as int) matches Err(e) ==> parse_inners(
                    src@,
                    start as int + 3,
                ) == Err::<Seq<InnerRec>, DecodeError>(e),
            decreases src@.len() - *offset,
        {
            let ghost cur = *offset as int;
            proof {
                lemma_parse_inners_step(src@, cur);
            }
            let p = match InnerPacket::read(src, offset) {
                Ok(p) => p,
                Err(e) => {
                    *offset = start;
                    return Err(e);
                },
            };
            proof {
                let rec = rec_of(p);
                let k2 = *offset as int;
                assert(recs_of(packets@.push(p)) =~= recs_of(packets@) + seq![rec]);
                if parse_inners(src@, k2) is Ok {
                    let rest = parse_inners(src@, k2)->Ok_0;
                    assert(recs_of(packets@) + (seq![rec] + rest) =~= (recs_of(packets@) + seq![
                        rec,
                    ]) + rest);
                }
            }
            packets.push(p);
        }
        proof {
            assert(parse_inners(src@, *offset as int) == Ok::<Seq<InnerRec>, DecodeError>(
                Seq::empty(),
            ));
            assert(recs_of(packets@) + Seq::<InnerRec>::empty() =~= recs_of(packets@));
        }
        Ok(Datagram { packets, seq_number })
    }
}

} // verus!
