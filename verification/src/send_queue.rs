//! The send queue: MTU-bounded batching of inner packets, per-channel
//! ordering and sequencing index assignment, fragmentation into split
//! groups, and datagram sequence-number allocation.

use vstd::prelude::*;

use crate::datagram::{inners_size, lemma_inners_size_push, lemma_inners_wire_len, Datagram};
use crate::error::PushError;
use crate::inner::{rec_of, recs_of, InnerPacket, InnerRec};
use crate::reliability::{InnerPacketReliability, Ordered, Reliable, Sequenced, Split};
use crate::triad::Triad;

verus! {

/// The number of independent ordering channels.
pub const CHANNEL_COUNT: usize = 32;

/// The margin kept free under the MTU for one submission's payload: the
/// transport headers plus the inner packet header.
pub const FRAGMENT_MARGIN: usize = 60;

/// The margin the batcher keeps free under the MTU before and after each
/// append: transport headers plus framing slack.
pub const BATCH_MARGIN: usize = 40;

/// How a submission asks to be ordered.
#[derive(Clone, Copy, Debug, PartialEq, Eq, Structural)]
pub enum OrderType {
    Nil,
    Ordered { order_channel: u8 },
    Sequenced { order_channel: u8 },
}

/// What `push` reports of an accepted submission.
#[derive(Clone, Copy, Debug, PartialEq, Eq, Structural)]
pub enum PushStatus {
    /// The submission was queued with the reliability it asked for.
    Accepted,
    /// An unreliable ordered submission was coerced to plain unreliable.
    Downgraded,
}

/// The per-session reliability engine.  The ghost histories record every
/// index and sequence number the queue has handed out, so the monotone
/// counter laws can be stated of the whole past.
pub struct SendQueue {
    pub mtu_size: usize,
    pub queue: Vec<InnerPacket>,
    pub est_size: usize,
    pub next_seq_number: u32,
    pub send_ordered_indices: Vec<u32>,
    pub send_sequenced_indices: Vec<u32>,
    pub message_index: u32,
    pub split_id: u16,
    pub outbox: Vec<Datagram>,
    /// The reliable packets of each flushed datagram, kept under its
    /// sequence number until the peer acknowledges it.
    pub unacked: Vec<Datagram>,
    /// Every order index handed out, per channel.
    pub ord_hist: Ghost<Seq<Seq<u32>>>,
    /// Every sequence index handed out, per channel.
    pub seq_hist: Ghost<Seq<Seq<u32>>>,
    /// Every message index handed out.
    pub msg_hist: Ghost<Seq<u32>>,
    /// Every datagram sequence number handed out.
    pub dgram_hist: Ghost<Seq<u32>>,
}

/// The records held by a run of flushed datagrams, in emission order.
pub open spec fn outbox_recs(ds: Seq<Datagram>) -> Seq<InnerRec>
    decreases ds.len(),
{
    if ds.len() == 0 {
        Seq::empty()
    } else {
        recs_of(ds.first().packets@) + outbox_recs(ds.drop_first())
    }
}

/// Appending a datagram appends its records.
pub proof fn lemma_outbox_recs_push(ds: Seq<Datagram>, d: Datagram)
    ensures
        outbox_recs(ds.push(d)) == outbox_recs(ds) + recs_of(d.packets@),
    decreases ds.len(),
{
    if ds.len() == 0 {
        assert(ds =~= Seq::<Datagram>::empty());
        assert(ds.push(d).drop_first() =~= Seq::<Datagram>::empty());
        assert(outbox_recs(ds.push(d)) =~= outbox_recs(ds) + recs_of(d.packets@));
    } else {
        assert(ds.push(d).drop_first() =~= ds.drop_first().push(d));
        assert(ds.push(d).first() == ds.first());
        lemma_outbox_recs_push(ds.drop_first(), d);
        assert(outbox_recs(ds.push(d)) =~= outbox_recs(ds) + recs_of(d.packets@));
    }
}

/// Every record the queue still holds: the flushed datagrams' packets in
/// order, then the pending batch.
pub open spec fn all_recs(q: SendQueue) -> Seq<InnerRec> {
    outbox_recs(q.outbox@) + recs_of(q.queue@)
}

/// A submission is rejected when it asks for a sequenced delivery with an
/// ack receipt: no reliability variant carries both.
pub open spec fn push_rejected(ot: OrderType, receipt: bool) -> bool {
    receipt && ot is Sequenced
}

/// An unreliable ordered submission cannot be expressed on the wire and is
/// coerced to plain unreliable.
pub open spec fn push_downgraded(reliable: bool, ot: OrderType) -> bool {
    !reliable && ot is Ordered
}

/// What `push` answers for an accepted submission.
pub open spec fn spec_push_status(reliable: bool, ot: OrderType) -> PushStatus {
    if push_downgraded(reliable, ot) {
        PushStatus::Downgraded
    } else {
        PushStatus::Accepted
    }
}

/// The reliability header built from a submission's shape and the index
/// values drawn for it; the indices not called for are ignored.
pub open spec fn rel_of(
    reliable: bool,
    ot: OrderType,
    receipt: bool,
    msg: u32,
    ordi: u32,
    seqi: u32,
) -> InnerPacketReliability {
    let m = Reliable { message_index: Triad(msg) };
    match ot {
        OrderType::Nil => {
            if reliable {
                if receipt {
                    InnerPacketReliability::ReliableWithAckReceipt(m)
                } else {
                    InnerPacketReliability::Reliable(m)
                }
            } else {
                if receipt {
                    InnerPacketReliability::UnreliableWithAckReceipt
                } else {
                    InnerPacketReliability::Unreliable
                }
            }
        },
        OrderType::Ordered { order_channel } => {
            let ord = Ordered { order_index: Triad(ordi), order_channel };
            if reliable {
                if receipt {
                    InnerPacketReliability::ReliableOrderedWithAckReceipt(m, ord)
                } else {
                    InnerPacketReliability::ReliableOrdered(m, ord)
                }
            } else {
                InnerPacketReliability::Unreliable
            }
        },
        OrderType::Sequenced { order_channel } => {
            let sq = Sequenced {
                sequence_index: Triad(seqi),
                ordered: Ordered { order_index: Triad(ordi), order_channel },
            };
            if reliable {
                InnerPacketReliability::ReliableSequenced(m, sq)
            } else {
                InnerPacketReliability::UnreliableSequenced(sq)
            }
        },
    }
}

/// The channel a submission rides, or zero where none is named.
pub open spec fn channel_of(ot: OrderType) -> int {
    match ot {
        OrderType::Nil => 0,
        OrderType::Ordered { order_channel } => order_channel as int,
        OrderType::Sequenced { order_channel } => order_channel as int,
    }
}

/// The reliability header of fragment `frag` of a submission against the
/// pre-state `q`: indices are drawn from the counters of `q`, and each
/// fragment of a reliable submission gets its own message index.
pub open spec fn spec_reliability(
    q: SendQueue,
    reliable: bool,
    ot: OrderType,
    receipt: bool,
    frag: int,
) -> InnerPacketReliability {
    rel_of(
        reliable,
        ot,
        receipt,
        ((q.message_index + frag) % 0x1000000) as u32,
        q.send_ordered_indices@[channel_of(ot)],
        q.send_sequenced_indices@[channel_of(ot)],
    )
}

/// Fragment `frag` of a buffer split into chunks of at most `max` bytes.
pub open spec fn chunk_of(buffer: Seq<u8>, max: int, frag: int) -> Seq<u8> {
    buffer.subrange(
        frag * max,
        if (frag + 1) * max < buffer.len() {
            (frag + 1) * max
        } else {
            buffer.len() as int
        },
    )
}

/// How many fragments a buffer of this length needs: the length divided
/// by the chunk size, rounded up.
pub open spec fn frag_count(len: int, max: int) -> int {
    (len - 1) / max + 1
}

/// The inner-packet records one submission creates against the pre-state
/// `q`: one unsplit packet when the buffer fits the fragment budget, else
/// one fragment per chunk, all sharing a fresh split group.
pub open spec fn spec_push_records(
    q: SendQueue,
    buffer: Seq<u8>,
    reliable: bool,
    ot: OrderType,
    receipt: bool,
) -> Seq<InnerRec> {
    let max = q.mtu_size - FRAGMENT_MARGIN;
    if buffer.len() <= max {
        seq![(spec_reliability(q, reliable, ot, receipt, 0), None, buffer)]
    } else {
        let k = frag_count(buffer.len() as int, max);
        Seq::new(
            k as nat,
            |frag: int|
                (
                    spec_reliability(q, reliable, ot, receipt, frag),
                    Some(
                        Split {
                            split_count: k as u32,
                            split_id: q.split_id,
                            split_index: frag as u32,
                        },
                    ),
                    chunk_of(buffer, max, frag),
                ),
        )
    }
}

impl SendQueue {
    /// The batch and counter state the queue keeps between calls, short of
    /// the resting batch bound.
    pub open spec fn wf_core(self) -> bool {
        &&& 61 <= self.mtu_size <= 8251
        &&& self.send_ordered_indices@.len() == CHANNEL_COUNT
        &&& self.send_sequenced_indices@.len() == CHANNEL_COUNT
        &&& self.ord_hist@.len() == CHANNEL_COUNT
        &&& self.seq_hist@.len() == CHANNEL_COUNT
        &&& forall|c: int|
            0 <= c < CHANNEL_COUNT ==> #[trigger] self.send_ordered_indices@[c] == self.ord_hist@[c].len() % 0x1000000
        &&& forall|c: int|
            0 <= c < CHANNEL_COUNT ==> #[trigger] self.send_sequenced_indices@[c]
                == self.seq_hist@[c].len() % 0x1000000
        &&& forall|c: int, k: int|
            0 <= c < CHANNEL_COUNT && 0 <= k < self.ord_hist@[c].len() ==> #[trigger] self.ord_hist@[c][k] == k % 0x1000000
        &&& forall|c: int, k: int|
            0 <= c < CHANNEL_COUNT && 0 <= k < self.seq_hist@[c].len()
                ==> #[trigger] self.seq_hist@[c][k] == k % 0x1000000
        &&& self.message_index == self.msg_hist@.len() % 0x1000000
        &&& forall|k: int|
            0 <= k < self.msg_hist@.len() ==> #[trigger] self.msg_hist@[k] == k % 0x1000000
        &&& self.next_seq_number == self.dgram_hist@.len() % 0x100000000
        &&& forall|k: int|
            0 <= k < self.dgram_hist@.len() ==> #[trigger] self.dgram_hist@[k] == k % 0x100000000
        &&& self.est_size == inners_size(self.queue@)
        &&& self.est_size <= self.mtu_size - 37
        &&& forall|t: int|
            0 <= t < self.queue@.len() ==> (#[trigger] self.queue@[t]).wf()
                && self.queue@[t].spec_size() <= self.mtu_size - 37
        &&& forall|t: int|
            0 <= t < self.outbox@.len() ==> (#[trigger] self.outbox@[t]).wf()
                && self.outbox@[t].spec_size() <= self.mtu_size - 34
        &&& forall|t: int|
            0 <= t < self.unacked@.len() ==> (#[trigger] self.unacked@[t]).wf()
                && self.unacked@[t].packets@.len() >= 1
        &&& forall|t: int, u: int|
            0 <= t < self.unacked@.len() && 0 <= u < self.unacked@[t].packets@.len()
                ==> (#[trigger] self.unacked@[t].packets@[u]).spec_size() <= self.mtu_size - 37
        &&& self.outbox@.len() <= self.dgram_hist@.len()
        &&& forall|t: int|
            0 <= t < self.outbox@.len() ==> (#[trigger] self.outbox@[t]).seq_number == Triad(
                (self.dgram_hist@[self.dgram_hist@.len() - self.outbox@.len() + t] % 0x1000000)
                    as u32,
            )
    }

    /// Well-formedness at rest: the core state, and the pending batch
    /// leaves the batching margin free under the MTU.
    pub open spec fn wf(self) -> bool {
        self.wf_core() && self.est_size + BATCH_MARGIN <= self.mtu_size
    }
}

/// The records of the reliable packets of a run, in order: what stays
/// retransmittable after the run is flushed.
pub open spec fn keep_reliable_recs(ps: Seq<InnerPacket>) -> Seq<InnerRec>
    decreases ps.len(),
{
    if ps.len() == 0 {
        Seq::empty()
    } else {
        let rest = keep_reliable_recs(ps.drop_first());
        if ps.first().reliability.spec_reliable() is Some {
            seq![rec_of(ps.first())] + rest
        } else {
            rest
        }
    }
}

/// Appending a packet appends its record when it is reliable.
pub proof fn lemma_keep_reliable_recs_push(ps: Seq<InnerPacket>, p: InnerPacket)
    ensures
        keep_reliable_recs(ps.push(p)) == keep_reliable_recs(ps) + (if p.reliability.spec_reliable() is Some {
            seq![rec_of(p)]
        } else {
            Seq::empty()
        }),
    decreases ps.len(),
{
    if ps.len() == 0 {
        assert(ps =~= Seq::<InnerPacket>::empty());
        assert(ps.push(p).drop_first() =~= Seq::<InnerPacket>::empty());
        if p.reliability.spec_reliable() is Some {
            assert(keep_reliable_recs(ps.push(p)) =~= keep_reliable_recs(ps) + seq![rec_of(p)]);
        } else {
            assert(keep_reliable_recs(ps.push(p)) =~= keep_reliable_recs(ps)
                + Seq::<InnerRec>::empty());
        }
    } else {
        assert(ps.push(p).drop_first() =~= ps.drop_first().push(p));
        assert(ps.push(p).first() == ps.first());
        lemma_keep_reliable_recs_push(ps.drop_first(), p);
        if ps.first().reliability.spec_reliable() is Some {
            if p.reliability.spec_reliable() is Some {
                assert(keep_reliable_recs(ps.push(p)) =~= keep_reliable_recs(ps) + seq![
                    rec_of(p),
                ]);
            } else {
                assert(keep_reliable_recs(ps.push(p)) =~= keep_reliable_recs(ps)
                    + Seq::<InnerRec>::empty());
            }
        } else {
            if p.reliability.spec_reliable() is Some {
                assert(keep_reliable_recs(ps.push(p)) =~= keep_reliable_recs(ps) + seq![
                    rec_of(p),
                ]);
            } else {
                assert(keep_reliable_recs(ps.push(p)) =~= keep_reliable_recs(ps)
                    + Seq::<InnerRec>::empty());
            }
        }
    }
}

/// The unacked entries left after the peer acknowledged the given
/// sequence numbers.
pub open spec fn drop_acked(entries: Seq<Datagram>, acked: Seq<u32>) -> Seq<Datagram>
    decreases entries.len(),
{
    if entries.len() == 0 {
        Seq::empty()
    } else {
        let rest = drop_acked(entries.drop_first(), acked);
        if acked.contains(entries.first().seq_number.0) {
            rest
        } else {
            seq![entries.first()] + rest
        }
    }
}

/// The records of the entries the peer reported missing, in order: what a
/// nack makes the queue resend.
pub open spec fn nacked_recs(entries: Seq<Datagram>, nacked: Seq<u32>) -> Seq<InnerRec>
    decreases entries.len(),
{
    if entries.len() == 0 {
        Seq::empty()
    } else {
        let rest = nacked_recs(entries.drop_first(), nacked);
        if nacked.contains(entries.first().seq_number.0) {
            recs_of(entries.first().packets@) + rest
        } else {
            rest
        }
    }
}

/// What an accepted submission does to the queue: the created records are
/// appended to what the queue holds, the histories grow exactly by the
/// handed-out indices, and nothing else moves.
pub open spec fn push_effect(
    pre: SendQueue,
    post: SendQueue,
    buffer: Seq<u8>,
    reliable: bool,
    ot: OrderType,
    receipt: bool,
) -> bool {
    let recs = spec_push_records(pre, buffer, reliable, ot, receipt);
    let k = recs.len() as int;
    &&& all_recs(post) == all_recs(pre) + recs
    &&& post.mtu_size == pre.mtu_size
    &&& post.msg_hist@ == pre.msg_hist@ + (if reliable {
        Seq::new(k as nat, |f: int| ((pre.msg_hist@.len() + f) % 0x1000000) as u32)
    } else {
        Seq::empty()
    })
    &&& post.ord_hist@ == (match ot {
        OrderType::Ordered { order_channel } => if reliable {
            pre.ord_hist@.update(
                order_channel as int,
                pre.ord_hist@[order_channel as int].push(
                    pre.send_ordered_indices@[order_channel as int],
                ),
            )
        } else {
            pre.ord_hist@
        },
        _ => pre.ord_hist@,
    })
    &&& post.seq_hist@ == (match ot {
        OrderType::Sequenced { order_channel } => pre.seq_hist@.update(
            order_channel as int,
            pre.seq_hist@[order_channel as int].push(
                pre.send_sequenced_indices@[order_channel as int],
            ),
        ),
        _ => pre.seq_hist@,
    })
    &&& pre.dgram_hist@.is_prefix_of(post.dgram_hist@)
    &&& pre.unacked@.is_prefix_of(post.unacked@)
    &&& post.split_id == (if k > 1 {
        ((pre.split_id + 1) % 0x10000) as u16
    } else {
        pre.split_id
    })
}

/// The order indices handed out on one channel are the monotone run
/// 0, 1, 2, ... taken modulo `2^24`: the `k`-th ordered submission on the
/// channel carried order index `k` (mod `2^24`).
pub proof fn lemma_ordered_indices_monotone(q: SendQueue, c: int, k: int)
    requires
        q.wf(),
        0 <= c < CHANNEL_COUNT,
        0 <= k < q.ord_hist@[c].len(),
    ensures
        q.ord_hist@[c][k] == k % 0x1000000,
        k < 0x1000000 ==> q.ord_hist@[c][k] == k,
{
    if k < 0x1000000 {
        vstd::arithmetic::div_mod::lemma_small_mod(k as nat, 0x1000000 as nat);
    }
}

/// The sequence indices handed out on one channel are the monotone run
/// 0, 1, 2, ... taken modulo `2^24`, independently of the order indices.
pub proof fn lemma_sequenced_indices_monotone(q: SendQueue, c: int, k: int)
    requires
        q.wf(),
        0 <= c < CHANNEL_COUNT,
        0 <= k < q.seq_hist@[c].len(),
    ensures
        q.seq_hist@[c][k] == k % 0x1000000,
        k < 0x1000000 ==> q.seq_hist@[c][k] == k,
{
    if k < 0x1000000 {
        vstd::arithmetic::div_mod::lemma_small_mod(k as nat, 0x1000000 as nat);
    }
}

/// The message indices handed out form one global monotone run
/// 0, 1, 2, ... taken modulo `2^24`.
pub proof fn lemma_message_indices_monotone(q: SendQueue, k: int)
    requires
        q.wf(),
        0 <= k < q.msg_hist@.len(),
    ensures
        q.msg_hist@[k] == k % 0x1000000,
        k < 0x1000000 ==> q.msg_hist@[k] == k,
{
    if k < 0x1000000 {
        vstd::arithmetic::div_mod::lemma_small_mod(k as nat, 0x1000000 as nat);
    }
}

/// The datagram sequence numbers handed out form one global monotone run
/// 0, 1, 2, ... taken modulo `2^32`.
pub proof fn lemma_datagram_sequence_monotone(q: SendQueue, k: int)
    requires
        q.wf(),
        0 <= k < q.dgram_hist@.len(),
    ensures
        q.dgram_hist@[k] == k % 0x100000000,
        k < 0x100000000 ==> q.dgram_hist@[k] == k,
{
    if k < 0x100000000 {
        vstd::arithmetic::div_mod::lemma_small_mod(k as nat, 0x100000000 as nat);
    }
}

/// The total encoded byte length of any emitted datagram stays within the
/// MTU.
pub proof fn lemma_datagram_fits_mtu(q: SendQueue, t: int)
    requires
        q.wf(),
        0 <= t < q.outbox@.len(),
    ensures
        q.outbox@[t].wire().len() <= q.mtu_size,
{
    lemma_inners_wire_len(q.outbox@[t].packets@);
    crate::codec::lemma_le_bytes_len(
        (q.outbox@[t].seq_number.0 % 0x1000000) as nat,
        3,
    );
}

/// A submission split into `K` fragments yields exactly `K` records that
/// share one fresh split group: fragment `f` carries split count `K`,
/// the split id drawn for the group, its own index `f`, and the `f`-th
/// chunk of the buffer; a reliable submission gives each fragment its own
/// message index, the `f`-th past the current counter.
pub proof fn lemma_split_fragments(
    q: SendQueue,
    buffer: Seq<u8>,
    reliable: bool,
    ot: OrderType,
    receipt: bool,
    f: int,
)
    requires
        q.wf(),
        buffer.len() > q.mtu_size - FRAGMENT_MARGIN,
        buffer.len() <= 0xffffffff,
        0 <= f < frag_count(buffer.len() as int, q.mtu_size - FRAGMENT_MARGIN),
    ensures
        ({
            let max = q.mtu_size - FRAGMENT_MARGIN;
            let k = frag_count(buffer.len() as int, max as int);
            let recs = spec_push_records(q, buffer, reliable, ot, receipt);
            &&& recs.len() == k
            &&& recs[f].1 == Some(
                Split { split_count: k as u32, split_id: q.split_id, split_index: f as u32 },
            )
            &&& recs[f].2 == chunk_of(buffer, max as int, f)
            &&& reliable ==> recs[f].0.spec_reliable() == Some(
                Reliable { message_index: Triad(((q.message_index + f) % 0x1000000) as u32) },
            )
            &&& !reliable ==> recs[f].0.spec_reliable() is None
        }),
{
}

/// Distinct fragments of one reliable submission carry distinct message
/// indices, as long as the fragment count stays below the index modulus.
pub proof fn lemma_fragment_message_indices_distinct(
    q: SendQueue,
    buffer: Seq<u8>,
    ot: OrderType,
    receipt: bool,
    f1: int,
    f2: int,
)
    requires
        q.wf(),
        buffer.len() > q.mtu_size - FRAGMENT_MARGIN,
        buffer.len() <= 0xffffffff,
        0 <= f1 < frag_count(buffer.len() as int, q.mtu_size - FRAGMENT_MARGIN),
        0 <= f2 < frag_count(buffer.len() as int, q.mtu_size - FRAGMENT_MARGIN),
        f1 != f2,
        frag_count(buffer.len() as int, q.mtu_size - FRAGMENT_MARGIN) <= 0x1000000,
    ensures
        ({
            let recs = spec_push_records(q, buffer, true, ot, receipt);
            recs[f1].0.spec_reliable() != recs[f2].0.spec_reliable()
        }),
{
    let m = q.message_index as int;
    let v1 = (m + f1) % 0x1000000;
    let v2 = (m + f2) % 0x1000000;
    if v1 == v2 {
        vstd::arithmetic::div_mod::lemma_fundamental_div_mod(m + f1, 0x1000000);
        vstd::arithmetic::div_mod::lemma_fundamental_div_mod(m + f2, 0x1000000);
        let q1 = (m + f1) / 0x1000000;
        let q2 = (m + f2) / 0x1000000;
        assert(f2 - f1 == (q2 - q1) * 0x1000000);
        assert(false) by (nonlinear_arith)
            requires
                f2 - f1 == (q2 - q1) * 0x1000000,
                f1 != f2,
                0 <= f1 < 0x1000000,
                0 <= f2 < 0x1000000,
        ;
    }
}

/// The chunks of a fragmented buffer, taken in order up to `t`,
/// concatenate to the buffer's prefix they were cut from.
#[verifier::spinoff_prover]
proof fn lemma_chunks_prefix(buffer: Seq<u8>, max: int, t: int)
    requires
        1 <= max,
        max < buffer.len(),
        0 <= t <= frag_count(buffer.len() as int, max),
    ensures
        crate::recv_queue::flatten_seqs(
            Seq::new(t as nat, |f: int| chunk_of(buffer, max, f)),
        ) == buffer.subrange(
            0,
            if t == frag_count(buffer.len() as int, max) {
                buffer.len() as int
            } else {
                t * max
            },
        ),
    decreases t,
{
    let k = frag_count(buffer.len() as int, max);
    lemma_frag_bounds(buffer.len() as int, max);
    if t == 0 {
        assert(Seq::new(0, |f: int| chunk_of(buffer, max, f)) =~= Seq::<Seq<u8>>::empty());
        assert(buffer.subrange(0, 0) =~= Seq::<u8>::empty());
    } else {
        lemma_chunks_prefix(buffer, max, t - 1);
        let cs = Seq::new(t as nat, |f: int| chunk_of(buffer, max, f));
        let cs0 = Seq::new((t - 1) as nat, |f: int| chunk_of(buffer, max, f));
        assert(cs =~= cs0.push(chunk_of(buffer, max, t - 1)));
        crate::recv_queue::lemma_flatten_seqs_push(cs0, chunk_of(buffer, max, t - 1));
        assert((t - 1) * max + max == t * max) by (nonlinear_arith);
        assert((t - 1) * max <= (k - 1) * max && t * max <= k * max) by (nonlinear_arith)
            requires
                t <= k,
                max >= 1,
        ;
        let flat0 = crate::recv_queue::flatten_seqs(cs0);
        if t < k {
            assert(t * max <= (k - 1) * max) by (nonlinear_arith)
                requires
                    t <= k - 1,
                    max >= 1,
            ;
            assert(chunk_of(buffer, max, t - 1) =~= buffer.subrange((t - 1) * max, t * max));
            assert(buffer.subrange(0, (t - 1) * max) + buffer.subrange((t - 1) * max, t * max)
                =~= buffer.subrange(0, t * max));
            assert(flat0 + chunk_of(buffer, max, t - 1) =~= buffer.subrange(0, t * max));
        } else {
            assert(chunk_of(buffer, max, t - 1) =~= buffer.subrange(
                (t - 1) * max,
                buffer.len() as int,
            ));
            assert(buffer.subrange(0, (t - 1) * max) + buffer.subrange(
                (t - 1) * max,
                buffer.len() as int,
            ) =~= buffer.subrange(0, buffer.len() as int));
            assert(flat0 + chunk_of(buffer, max, t - 1) =~= buffer.subrange(
                0,
                buffer.len() as int,
            ));
        }
    }
}

/// The fragments of a split submission reassemble to the submitted
/// buffer: their payloads, concatenated in split-index order, restore it.
pub proof fn lemma_fragments_reassemble(
    q: SendQueue,
    buffer: Seq<u8>,
    reliable: bool,
    ot: OrderType,
    receipt: bool,
)
    requires
        q.wf(),
        buffer.len() > q.mtu_size - FRAGMENT_MARGIN,
        buffer.len() <= 0xffffffff,
    ensures
        ({
            let recs = spec_push_records(q, buffer, reliable, ot, receipt);
            crate::recv_queue::flatten_seqs(
                Seq::new(recs.len(), |f: int| recs[f].2),
            ) == buffer
        }),
{
    let max = q.mtu_size - FRAGMENT_MARGIN;
    let k = frag_count(buffer.len() as int, max as int);
    let recs = spec_push_records(q, buffer, reliable, ot, receipt);
    lemma_frag_bounds(buffer.len() as int, max as int);
    assert(Seq::new(recs.len(), |f: int| recs[f].2) =~= Seq::new(
        k as nat,
        |f: int| chunk_of(buffer, max as int, f),
    ));
    lemma_chunks_prefix(buffer, max as int, k);
    assert(buffer.subrange(0, buffer.len() as int) =~= buffer);
}

/// Adding to a value that equals `n % m` adds under the modulus.
proof fn lemma_mod_add_left(n: int, j: int, m: int)
    requires
        1 < m,
        0 <= n,
        0 <= j,
    ensures
        ((n % m) + j) % m == (n + j) % m,
{
    vstd::arithmetic::div_mod::lemma_add_mod_noop(n, j, m);
    vstd::arithmetic::div_mod::lemma_add_mod_noop(n % m, j, m);
    vstd::arithmetic::div_mod::lemma_mod_twice(n, m);
}

/// Incrementing a value that equals `n % m` yields `(n + 1) % m`.
proof fn lemma_mod_succ(n: int, m: int)
    requires
        1 < m,
        0 <= n,
    ensures
        ((n % m) + 1) % m == (n + 1) % m,
{
    lemma_mod_add_left(n, 1, m);
}

/// The fragment count covers the buffer: one chunk less falls short of
/// it, the full count reaches it, and there are never more fragments than
/// bytes.
proof fn lemma_frag_bounds(len: int, max: int)
    requires
        1 <= max,
        max < len,
    ensures
        (frag_count(len, max) - 1) * max < len <= frag_count(len, max) * max,
        2 <= frag_count(len, max) <= len,
{
    let q = (len - 1) / max;
    let r = (len - 1) % max;
    vstd::arithmetic::div_mod::lemma_fundamental_div_mod(len - 1, max);
    vstd::arithmetic::div_mod::lemma_mod_bound(len - 1, max);
    assert(len - 1 == max * q + r);
    assert(q * max == max * q) by (nonlinear_arith);
    assert(q >= 1) by (nonlinear_arith)
        requires
            max * q + r == len - 1,
            max < len,
            0 <= r < max,
            1 <= max,
    ;
    assert(q <= len - 1) by (nonlinear_arith)
        requires
            max * q + r == len - 1,
            0 <= r,
            1 <= max,
            0 <= q,
    ;
    assert((q + 1) * max == q * max + max) by (nonlinear_arith);
    assert(frag_count(len, max) == q + 1);
    assert((q + 1 - 1) * max == q * max) by (nonlinear_arith);
}

/// The 24-bit counter increment.
fn wrap24(x: u32) -> (r: u32)
    requires
        x < 0x1000000,
    ensures
        r == (x + 1) % 0x1000000,
{
    if x == 0xffffff {
        0
    } else {
        x + 1
    }
}

/// The 16-bit counter increment.
fn wrap16(x: u16) -> (r: u16)
    ensures
        r == (x + 1) % 0x10000,
{
    if x == 0xffff {
        0
    } else {
        x + 1
    }
}

/// The 32-bit counter increment.
fn wrap32(x: u32) -> (r: u32)
    ensures
        r == (x + 1) % 0x100000000,
{
    if x == 0xffffffff {
        0
    } else {
        x + 1
    }
}

/// Builds the reliability header from the drawn index values.
fn assemble_reliability(
    reliable: bool,
    ot: OrderType,
    receipt: bool,
    msg: u32,
    ordi: u32,
    seqi: u32,
) -> (r: InnerPacketReliability)
    ensures
        r == rel_of(reliable, ot, receipt, msg, ordi, seqi),
{
    let m = Reliable { message_index: Triad(msg) };
    match ot {
        OrderType::Nil => {
            if reliable {
                if receipt {
                    InnerPacketReliability::ReliableWithAckReceipt(m)
                } else {
                    InnerPacketReliability::Reliable(m)
                }
            } else {
                if receipt {
                    InnerPacketReliability::UnreliableWithAckReceipt
                } else {
                    InnerPacketReliability::Unreliable
                }
            }
        },
        OrderType::Ordered { order_channel } => {
            let ord = Ordered { order_index: Triad(ordi), order_channel };
            if reliable {
                if receipt {
                    InnerPacketReliability::ReliableOrderedWithAckReceipt(m, ord)
                } else {
                    InnerPacketReliability::ReliableOrdered(m, ord)
                }
            } else {
                InnerPacketReliability::Unreliable
            }
        },
        OrderType::Sequenced { order_channel } => {
            let sq = Sequenced {
                sequence_index: Triad(seqi),
                ordered: Ordered { order_index: Triad(ordi), order_channel },
            };
            if reliable {
                InnerPacketReliability::ReliableSequenced(m, sq)
            } else {
                InnerPacketReliability::UnreliableSequenced(sq)
            }
        },
    }
}

/// Whether a run of sequence numbers holds the given one.
fn contains_seq(v: &Vec<u32>, x: u32) -> (r: bool)
    ensures
        r == v@.contains(x),
{
    let mut t: usize = 0;
    while t < v.len()
        invariant
            t <= v@.len(),
            forall|u: int| 0 <= u < t ==> v@[u] != x,
        decreases v@.len() - t,
    {
        if v[t] == x {
            return true;
        }
        t = t + 1;
    }
    false
}

/// A fresh vector of one zero counter per channel.
fn zero_channels() -> (r: Vec<u32>)
    ensures
        r@.len() == CHANNEL_COUNT,
        forall|c: int| 0 <= c < CHANNEL_COUNT ==> #[trigger] r@[c] == 0,
{
    let mut v: Vec<u32> = Vec::new();
    let mut c: usize = 0;
    while c < CHANNEL_COUNT
        invariant
            c <= CHANNEL_COUNT,
            v@.len() == c,
            forall|t: int| 0 <= t < c ==> #[trigger] v@[t] == 0,
        decreases CHANNEL_COUNT - c,
    {
        v.push(0);
        c = c + 1;
    }
    v
}

impl SendQueue {
    /// A fresh queue for a session with the given MTU; every counter
    /// starts at zero.
    pub fn new(mtu_size: usize) -> (r: SendQueue)
        requires
            61 <= mtu_size <= 8251,
        ensures
            r.wf(),
            r.mtu_size == mtu_size,
            all_recs(r) == Seq::<InnerRec>::empty(),
            r.outbox@.len() == 0,
            r.unacked@.len() == 0,
            r.queue@.len() == 0,
            r.msg_hist@.len() == 0,
            r.dgram_hist@.len() == 0,
            r.split_id == 0,
            forall|c: int| 0 <= c < CHANNEL_COUNT ==> (#[trigger] r.ord_hist@[c]).len() == 0,
            forall|c: int| 0 <= c < CHANNEL_COUNT ==> (#[trigger] r.seq_hist@[c]).len() == 0,
    {
        let r = SendQueue {
            mtu_size,
            queue: Vec::new(),
            est_size: 0,
            next_seq_number: 0,
            send_ordered_indices: zero_channels(),
            send_sequenced_indices: zero_channels(),
            message_index: 0,
            split_id: 0,
            outbox: Vec::new(),
            unacked: Vec::new(),
            ord_hist: Ghost(Seq::new(CHANNEL_COUNT as nat, |c: int| Seq::<u32>::empty())),
            seq_hist: Ghost(Seq::new(CHANNEL_COUNT as nat, |c: int| Seq::<u32>::empty())),
            msg_hist: Ghost(Seq::empty()),
            dgram_hist: Ghost(Seq::empty()),
        };
        proof {
            assert(inners_size(r.queue@) == 0);
            assert(outbox_recs(r.outbox@) =~= Seq::<InnerRec>::empty());
            assert(recs_of(r.queue@) =~= Seq::<InnerRec>::empty());
            assert(all_recs(r) =~= Seq::<InnerRec>::empty());
        }
        r
    }

    /// Wraps the pending batch, if any, into a datagram with the next
    /// sequence number and moves it to the outbox.
    pub fn flush(&mut self)
        requires
            old(self).wf_core(),
        ensures
            final(self).wf(),
            final(self).est_size == 0,
            all_recs(*final(self)) == all_recs(*old(self)),
            final(self).mtu_size == old(self).mtu_size,
            final(self).split_id == old(self).split_id,
            final(self).message_index == old(self).message_index,
            final(self).send_ordered_indices == old(self).send_ordered_indices,
            final(self).send_sequenced_indices == old(self).send_sequenced_indices,
            final(self).ord_hist == old(self).ord_hist,
            final(self).seq_hist == old(self).seq_hist,
            final(self).msg_hist == old(self).msg_hist,
            old(self).dgram_hist@.is_prefix_of(final(self).dgram_hist@),
            old(self).unacked@.is_prefix_of(final(self).unacked@),
            keep_reliable_recs(old(self).queue@).len() == 0 ==> final(self).unacked@ == old(self).unacked@,
            keep_reliable_recs(old(self).queue@).len() > 0 ==> final(self).unacked@.len() == old(self).unacked@.len() + 1
                && recs_of(final(self).unacked@.last().packets@) == keep_reliable_recs(old(self).queue@)
                && final(self).unacked@.last().seq_number == Triad((old(self).next_seq_number % 0x1000000) as u32),
    {
        if self.queue.len() == 0 {
            proof {
                assert(inners_size(self.queue@) == 0);
                assert(self.dgram_hist@.is_prefix_of(self.dgram_hist@)) by {
                    assert(self.dgram_hist@.subrange(0, self.dgram_hist@.len() as int)
                        =~= self.dgram_hist@);
                };
                assert(self.unacked@.is_prefix_of(self.unacked@)) by {
                    assert(self.unacked@.subrange(0, self.unacked@.len() as int) =~= self.unacked@);
                };
                assert(self.queue@ =~= Seq::<InnerPacket>::empty());
            }
            return ;
        }
        let ghost pre = *self;
        let seq24 = self.next_seq_number % 0x1000000;
        let mut kept: Vec<InnerPacket> = Vec::new();
        let mut t: usize = 0;
        proof {
            assert(keep_reliable_recs(self.queue@.subrange(0, 0)) =~= Seq::<InnerRec>::empty());
            assert(recs_of(kept@) =~= Seq::<InnerRec>::empty());
        }
        while t < self.queue.len()
            invariant
                t <= self.queue@.len(),
                self.wf_core(),
                recs_of(kept@) == keep_reliable_recs(self.queue@.subrange(0, t as int)),
                forall|u: int|
                    0 <= u < kept@.len() ==> (#[trigger] kept@[u]).wf() && kept@[u].spec_size()
                        <= self.mtu_size - 37,
            decreases self.queue@.len() - t,
        {
            proof {
                assert(self.queue@.subrange(0, t as int + 1) =~= self.queue@.subrange(
                    0,
                    t as int,
                ).push(self.queue@[t as int]));
                lemma_keep_reliable_recs_push(
                    self.queue@.subrange(0, t as int),
                    self.queue@[t as int],
                );
            }
            let p = &self.queue[t];
            if p.reliability.reliable().is_some() {
                let copy = InnerPacket {
                    reliability: p.reliability,
                    split: p.split,
                    buffer: p.buffer.clone(),
                };
                proof {
                    assert(rec_of(copy) == rec_of(self.queue@[t as int]));
                    assert(recs_of(kept@.push(copy)) =~= recs_of(kept@) + seq![rec_of(copy)]);
                }
                kept.push(copy);
            }
            t = t + 1;
        }
        proof {
            assert(self.queue@.subrange(0, self.queue@.len() as int) =~= self.queue@);
        }
        let mut packets: Vec<InnerPacket> = Vec::new();
        core::mem::swap(&mut packets, &mut self.queue);
        let d = Datagram { packets, seq_number: Triad(seq24) };
        proof {
            assert(d.wf());
            assert(d.spec_size() == 3 + pre.est_size);
            lemma_outbox_recs_push(self.outbox@, d);
        }
        self.outbox.push(d);
        if kept.len() > 0 {
            let entry = Datagram { packets: kept, seq_number: Triad(seq24) };
            proof {
                assert(entry.wf());
                assert(self.unacked@.push(entry).subrange(0, self.unacked@.len() as int)
                    =~= self.unacked@);
            }
            self.unacked.push(entry);
        } else {
            proof {
                assert(recs_of(kept@) =~= Seq::<InnerRec>::empty());
                assert(keep_reliable_recs(pre.queue@).len() == 0);
                assert(self.unacked@.is_prefix_of(self.unacked@)) by {
                    assert(self.unacked@.subrange(0, self.unacked@.len() as int) =~= self.unacked@);
                };
            }
        }
        self.est_size = 0;
        let seq_val = self.next_seq_number;
        self.next_seq_number = wrap32(seq_val);
        proof {
            self.dgram_hist@ = pre.dgram_hist@.push(seq_val);
        }
        proof {
            lemma_mod_succ(pre.dgram_hist@.len() as int, 0x100000000);
            assert(inners_size(self.queue@) == 0);
            assert(all_recs(*self) =~= all_recs(pre)) by {
                assert(recs_of(pre.queue@) == recs_of(d.packets@));
                assert(recs_of(self.queue@) =~= Seq::<InnerRec>::empty());
                assert(outbox_recs(self.outbox@) == outbox_recs(pre.outbox@) + recs_of(
                    d.packets@,
                ));
            };
            assert(pre.dgram_hist@.is_prefix_of(self.dgram_hist@)) by {
                assert(self.dgram_hist@.subrange(0, pre.dgram_hist@.len() as int)
                    =~= pre.dgram_hist@);
            };
            assert forall|t: int| 0 <= t < self.outbox@.len() implies (#[trigger] self.outbox@[t]).seq_number
                == Triad(
                (self.dgram_hist@[self.dgram_hist@.len() - self.outbox@.len() + t] % 0x1000000)
                    as u32,
            ) by {
                if t < self.outbox@.len() - 1 {
                    assert(self.outbox@[t] == pre.outbox@[t]);
                    assert(self.dgram_hist@[self.dgram_hist@.len() - self.outbox@.len() + t]
                        == pre.dgram_hist@[pre.dgram_hist@.len() - pre.outbox@.len() + t]);
                } else {
                    assert(self.outbox@[t] == d);
                    assert(self.dgram_hist@[self.dgram_hist@.len() - 1] == seq_val);
                }
            };
        }
    }

    /// Flushes when the batch, the transport margin and `extra` more bytes
    /// together would no longer fit the MTU.
    fn flush_if_long(&mut self, extra: usize)
        requires
            old(self).wf_core(),
            extra <= 0x4000,
        ensures
            final(self).wf_core(),
            final(self).est_size + BATCH_MARGIN + extra <= final(self).mtu_size || final(self).est_size
                == 0,
            all_recs(*final(self)) == all_recs(*old(self)),
            final(self).mtu_size == old(self).mtu_size,
            final(self).split_id == old(self).split_id,
            final(self).message_index == old(self).message_index,
            final(self).send_ordered_indices == old(self).send_ordered_indices,
            final(self).send_sequenced_indices == old(self).send_sequenced_indices,
            final(self).ord_hist == old(self).ord_hist,
            final(self).seq_hist == old(self).seq_hist,
            final(self).msg_hist == old(self).msg_hist,
            old(self).dgram_hist@.is_prefix_of(final(self).dgram_hist@),
            old(self).unacked@.is_prefix_of(final(self).unacked@),
    {
        if self.est_size + BATCH_MARGIN + extra > self.mtu_size {
            self.flush();
        } else {
            proof {
                assert(self.dgram_hist@.is_prefix_of(self.dgram_hist@)) by {
                    assert(self.dgram_hist@.subrange(0, self.dgram_hist@.len() as int)
                        =~= self.dgram_hist@);
                };
                assert(self.unacked@.is_prefix_of(self.unacked@)) by {
                    assert(self.unacked@.subrange(0, self.unacked@.len() as int) =~= self.unacked@);
                };
            }
        }
    }

    /// Appends one packet to the batch, flushing before and after as the
    /// MTU requires.
    fn push_inner(&mut self, packet: InnerPacket)
        requires
            old(self).wf_core(),
            packet.wf(),
            packet.spec_size() <= old(self).mtu_size - 37,
        ensures
            final(self).wf(),
            all_recs(*final(self)) == all_recs(*old(self)) + seq![rec_of(packet)],
            final(self).mtu_size == old(self).mtu_size,
            final(self).split_id == old(self).split_id,
            final(self).message_index == old(self).message_index,
            final(self).send_ordered_indices == old(self).send_ordered_indices,
            final(self).send_sequenced_indices == old(self).send_sequenced_indices,
            final(self).ord_hist == old(self).ord_hist,
            final(self).seq_hist == old(self).seq_hist,
            final(self).msg_hist == old(self).msg_hist,
            old(self).dgram_hist@.is_prefix_of(final(self).dgram_hist@),
            old(self).unacked@.is_prefix_of(final(self).unacked@),
    {
        let ghost pre = *self;
        let size = packet.size();
        proof {
            packet.lemma_size_is_wire_len();
        }
        self.flush_if_long(size);
        let ghost mid = *self;
        proof {
            lemma_inners_size_push(self.queue@, packet);
            assert(recs_of(self.queue@.push(packet)) =~= recs_of(self.queue@) + seq![
                rec_of(packet),
            ]);
        }
        self.queue.push(packet);
        self.est_size = self.est_size + size;
        proof {
            assert(all_recs(*self) =~= all_recs(mid) + seq![rec_of(packet)]);
        }
        self.flush_if_long(0);
        proof {
            assert(old(self).dgram_hist@.is_prefix_of(self.dgram_hist@)) by {
                assert(mid.dgram_hist@.is_prefix_of(self.dgram_hist@));
                assert(self.dgram_hist@.subrange(0, old(self).dgram_hist@.len() as int)
                    =~= old(self).dgram_hist@);
            };
            assert(old(self).unacked@.is_prefix_of(self.unacked@)) by {
                assert(mid.unacked@.is_prefix_of(self.unacked@));
                assert(self.unacked@.subrange(0, old(self).unacked@.len() as int)
                    =~= old(self).unacked@);
            };
        }
    }

    /// Accepts one user submission: chooses the reliability variant,
    /// draws the indices it calls for, fragments the buffer when it
    /// exceeds the fragment budget, and batches the packets, flushing
    /// datagrams as the MTU requires.
    ///
    /// A sequenced submission asking for an ack receipt is rejected and
    /// the queue is left untouched.  An unreliable ordered submission is
    /// coerced to plain unreliable and reported as downgraded.
    #[verifier::rlimit(100)]
    pub fn push(
        &mut self,
        buffer: Vec<u8>,
        reliable: bool,
        order_type: OrderType,
        receipt: bool,
    ) -> (r: Result<PushStatus, PushError>)
        requires
            old(self).wf(),
            1 <= buffer@.len() <= 0xffffffff,
            order_type matches OrderType::Ordered { order_channel } ==> order_channel < 32,
            order_type matches OrderType::Sequenced { order_channel } ==> order_channel < 32,
        ensures
            push_rejected(order_type, receipt) ==> r == Err::<PushStatus, PushError>(
                PushError::SequencedAckReceipt,
            ) && *final(self) == *old(self),
            !push_rejected(order_type, receipt) ==> r == Ok::<PushStatus, PushError>(
                spec_push_status(reliable, order_type),
            ) && final(self).wf() && push_effect(
                *old(self),
                *final(self),
                buffer@,
                reliable,
                order_type,
                receipt,
            ),
    {
        match order_type {
            OrderType::Sequenced { order_channel: _ } => {
                if receipt {
                    return Err(PushError::SequencedAckReceipt);
                }
            },
            _ => {},
        }
        let ghost pre = *self;
        let mut ord_emit: u32 = 0;
        let mut seq_emit: u32 = 0;
        match order_type {
            OrderType::Nil => {},
            OrderType::Ordered { order_channel } => {
                let c = order_channel as usize;
                ord_emit = self.send_ordered_indices[c];
                if reliable {
                    let nv = wrap24(ord_emit);
                    self.send_ordered_indices.set(c, nv);
                    proof {
                        self.ord_hist@ = pre.ord_hist@.update(
                            c as int,
                            pre.ord_hist@[c as int].push(ord_emit),
                        );
                        lemma_mod_succ(pre.ord_hist@[c as int].len() as int, 0x1000000);
                    }
                }
            },
            OrderType::Sequenced { order_channel } => {
                let c = order_channel as usize;
                seq_emit = self.send_sequenced_indices[c];
                ord_emit = self.send_ordered_indices[c];
                let nv = wrap24(seq_emit);
                self.send_sequenced_indices.set(c, nv);
                proof {
                    self.seq_hist@ = pre.seq_hist@.update(
                        c as int,
                        pre.seq_hist@[c as int].push(seq_emit),
                    );
                    lemma_mod_succ(pre.seq_hist@[c as int].len() as int, 0x1000000);
                }
            },
        }
        let ghost recs = spec_push_records(pre, buffer@, reliable, order_type, receipt);
        proof {
            assert(self.wf());
            assert(all_recs(*self) == all_recs(pre));
        }
        let status = match order_type {
            OrderType::Ordered { order_channel: _ } => if reliable {
                PushStatus::Accepted
            } else {
                PushStatus::Downgraded
            },
            _ => PushStatus::Accepted,
        };
        let max = self.mtu_size - FRAGMENT_MARGIN;
        if buffer.len() <= max {
            let msg_val = self.message_index;
            if reliable {
                self.message_index = wrap24(msg_val);
                proof {
                    self.msg_hist@ = pre.msg_hist@.push(msg_val);
                    lemma_mod_succ(pre.msg_hist@.len() as int, 0x1000000);
                }
            }
            let rel = assemble_reliability(
                reliable,
                order_type,
                receipt,
                msg_val,
                ord_emit,
                seq_emit,
            );
            proof {
                vstd::arithmetic::div_mod::lemma_small_mod(
                    pre.message_index as nat,
                    0x1000000 as nat,
                );
                assert(rel == spec_reliability(pre, reliable, order_type, receipt, 0));
            }
            let ghost mid = *self;
            let packet = InnerPacket { reliability: rel, split: None, buffer };
            proof {
                assert(packet.wf());
                assert(packet.spec_size() <= self.mtu_size - 37);
            }
            self.push_inner(packet);
            proof {
                assert(recs =~= seq![rec_of(packet)]);
                assert(all_recs(*self) =~= all_recs(pre) + recs) by {
                    assert(all_recs(mid) == all_recs(pre));
                    assert(all_recs(*self) == all_recs(mid) + seq![rec_of(packet)]);
                };
                if reliable {
                    assert(self.msg_hist@ =~= pre.msg_hist@ + Seq::new(
                        1,
                        |f: int| ((pre.msg_hist@.len() + f) % 0x1000000) as u32,
                    ));
                } else {
                    assert(self.msg_hist@ =~= pre.msg_hist@ + Seq::<u32>::empty());
                }
                assert(push_effect(pre, *self, buffer@, reliable, order_type, receipt));
            }
            Ok(status)
        } else {
            let split_id_val = self.split_id;
            self.split_id = wrap16(split_id_val);
            let count = (buffer.len() - 1) / max + 1;
            proof {
                lemma_frag_bounds(buffer@.len() as int, max as int);
                assert(recs.len() == count);
            }
            let count32 = count as u32;
            let mut frag: usize = 0;
            let mut pos: usize = 0;
            proof {
                assert(recs.subrange(0, 0) =~= Seq::<InnerRec>::empty());
                assert(all_recs(*self) =~= all_recs(pre) + recs.subrange(0, 0));
                assert(self.msg_hist@ =~= pre.msg_hist@ + Seq::new(
                    0,
                    |f: int| ((pre.msg_hist@.len() + f) % 0x1000000) as u32,
                ));
                assert(self.dgram_hist@.is_prefix_of(self.dgram_hist@)) by {
                    assert(self.dgram_hist@.subrange(0, self.dgram_hist@.len() as int)
                        =~= self.dgram_hist@);
                };
                assert(self.unacked@.is_prefix_of(self.unacked@)) by {
                    assert(self.unacked@.subrange(0, self.unacked@.len() as int) =~= self.unacked@);
                };
            }
            while frag < count
                invariant
                    pre.wf(),
                    self.wf(),
                    frag <= count,
                    frag < count ==> pos == frag * max,
                    frag == count ==> pos == buffer@.len(),
                    max == pre.mtu_size - FRAGMENT_MARGIN,
                    1 <= max <= 8191,
                    max < buffer@.len() <= 0xffffffff,
                    count == frag_count(buffer@.len() as int, max as int),
                    count == count32,
                    (count - 1) * max < buffer@.len() <= count * max,
                    recs == spec_push_records(pre, buffer@, reliable, order_type, receipt),
                    recs.len() == count,
                    split_id_val == pre.split_id,
                    self.mtu_size == pre.mtu_size,
                    self.split_id == (pre.split_id + 1) % 0x10000,
                    self.next_seq_number == self.dgram_hist@.len() % 0x100000000,
                    self.ord_hist@ == (match order_type {
                        OrderType::Ordered { order_channel } => if reliable {
                            pre.ord_hist@.update(
                                order_channel as int,
                                pre.ord_hist@[order_channel as int].push(
                                    pre.send_ordered_indices@[order_channel as int],
                                ),
                            )
                        } else {
                            pre.ord_hist@
                        },
                        _ => pre.ord_hist@,
                    }),
                    self.seq_hist@ == (match order_type {
                        OrderType::Sequenced { order_channel } => pre.seq_hist@.update(
                            order_channel as int,
                            pre.seq_hist@[order_channel as int].push(
                                pre.send_sequenced_indices@[order_channel as int],
                            ),
                        ),
                        _ => pre.seq_hist@,
                    }),
                    order_type matches OrderType::Ordered { order_channel } ==> order_channel < 32
                        && ord_emit == pre.send_ordered_indices@[order_channel as int],
                    order_type matches OrderType::Sequenced { order_channel } ==> order_channel
                        < 32 && ord_emit == pre.send_ordered_indices@[order_channel as int]
                        && seq_emit == pre.send_sequenced_indices@[order_channel as int],
                    ord_emit < 0x1000000,
                    seq_emit < 0x1000000,
                    reliable ==> self.msg_hist@ == pre.msg_hist@ + Seq::new(
                        frag as nat,
                        |f: int| ((pre.msg_hist@.len() + f) % 0x1000000) as u32,
                    ),
                    reliable ==> self.message_index == (pre.message_index + frag) % 0x1000000,
                    !reliable ==> self.msg_hist@ == pre.msg_hist@ && self.message_index
                        == pre.message_index,
                    all_recs(*self) == all_recs(pre) + recs.subrange(0, frag as int),
                    pre.dgram_hist@.is_prefix_of(self.dgram_hist@),
                    pre.unacked@.is_prefix_of(self.unacked@),
                decreases count - frag,
            {
                proof {
                    assert(frag * max < buffer@.len()) by (nonlinear_arith)
                        requires
                            frag <= count - 1,
                            max >= 1,
                            (count - 1) * max < buffer@.len(),
                            frag >= 0,
                    ;
                }
                let chunk_len = if buffer.len() - pos > max {
                    max
                } else {
                    buffer.len() - pos
                };
                let mut chunk: Vec<u8> = Vec::new();
                let mut t: usize = 0;
                while t < chunk_len
                    invariant
                        t <= chunk_len,
                        pos + chunk_len <= buffer@.len(),
                        buffer@.len() <= 0xffffffff,
                        chunk@ =~= buffer@.subrange(pos as int, pos as int + t as int),
                    decreases chunk_len - t,
                {
                    chunk.push(buffer[pos + t]);
                    proof {
                        assert(buffer@.subrange(pos as int, pos as int + t as int + 1)
                            =~= buffer@.subrange(pos as int, pos as int + t as int) + seq![
                            buffer@[pos as int + t as int],
                        ]);
                    }
                    t = t + 1;
                }
                proof {
                    assert((frag as int + 1) * (max as int) == frag as int * (max as int)
                        + max as int) by (nonlinear_arith);
                    assert(chunk@ =~= chunk_of(buffer@, max as int, frag as int));
                }
                let msg_val = self.message_index;
                if reliable {
                    self.message_index = wrap24(msg_val);
                    proof {
                        self.msg_hist@ = self.msg_hist@.push(msg_val);
                        lemma_mod_succ(self.msg_hist@.len() as int - 1, 0x1000000);
                        lemma_mod_add_left(pre.message_index as int, frag as int, 0x1000000);
                        lemma_mod_add_left(pre.msg_hist@.len() as int, frag as int, 0x1000000);
                        vstd::arithmetic::div_mod::lemma_small_mod(
                            pre.message_index as nat,
                            0x1000000 as nat,
                        );
                        assert(self.msg_hist@ =~= pre.msg_hist@ + Seq::new(
                            (frag + 1) as nat,
                            |f: int| ((pre.msg_hist@.len() + f) % 0x1000000) as u32,
                        ));
                        lemma_mod_add_left(pre.message_index as int, frag + 1, 0x1000000);
                    }
                }
                let rel = assemble_reliability(
                    reliable,
                    order_type,
                    receipt,
                    msg_val,
                    ord_emit,
                    seq_emit,
                );
                proof {
                    lemma_mod_add_left(pre.message_index as int, frag as int, 0x1000000);
                    vstd::arithmetic::div_mod::lemma_small_mod(
                        pre.message_index as nat,
                        0x1000000 as nat,
                    );
                    assert(rel == spec_reliability(pre, reliable, order_type, receipt, frag as int));
                }
                let ghost mid = *self;
                let packet = InnerPacket {
                    reliability: rel,
                    split: Some(
                        Split { split_count: count32, split_id: split_id_val, split_index: frag as u32 },
                    ),
                    buffer: chunk,
                };
                proof {
                    assert(packet.wf());
                    assert(packet.spec_size() <= self.mtu_size - 37);
                    assert(rec_of(packet) == recs[frag as int]);
                }
                self.push_inner(packet);
                proof {
                    assert(recs.subrange(0, frag as int + 1) =~= recs.subrange(0, frag as int)
                        + seq![recs[frag as int]]);
                    assert(all_recs(*self) =~= all_recs(pre) + recs.subrange(0, frag as int + 1))
                        by {
                        assert(all_recs(mid) == all_recs(pre) + recs.subrange(0, frag as int));
                        assert(all_recs(*self) == all_recs(mid) + seq![rec_of(packet)]);
                    };
                    assert(pre.dgram_hist@.is_prefix_of(self.dgram_hist@)) by {
                        assert(mid.dgram_hist@.is_prefix_of(self.dgram_hist@));
                        assert(self.dgram_hist@.subrange(0, pre.dgram_hist@.len() as int)
                            =~= pre.dgram_hist@);
                    };
                    assert(pre.unacked@.is_prefix_of(self.unacked@)) by {
                        assert(mid.unacked@.is_prefix_of(self.unacked@));
                        assert(self.unacked@.subrange(0, pre.unacked@.len() as int)
                            =~= pre.unacked@);
                    };
                }
                proof {
                    assert((frag as int + 1) * (max as int) == frag as int * (max as int)
                        + max as int) by (nonlinear_arith);
                    if frag + 1 < count {
                        assert((frag as int + 1) * (max as int) < buffer@.len())
                            by (nonlinear_arith)
                            requires
                                frag as int + 1 <= count - 1,
                                max as int >= 1,
                                (count - 1) * (max as int) < buffer@.len(),
                                frag as int + 1 >= 0,
                        ;
                    }
                }
                pos = pos + chunk_len;
                frag = frag + 1;
            }
            proof {
                assert(recs.subrange(0, count as int) =~= recs);
                assert(push_effect(pre, *self, buffer@, reliable, order_type, receipt));
            }
            Ok(status)
        }
    }

    /// Drops every unacked entry whose datagram the peer acknowledged:
    /// its reliable packets are delivered and leave the retransmit index.
    pub fn on_ack(&mut self, ack: &crate::acklist::Ack)
        requires
            old(self).wf(),
        ensures
            final(self).wf(),
            final(self).unacked@ == drop_acked(old(self).unacked@, ack.packets@),
            final(self).queue == old(self).queue,
            final(self).est_size == old(self).est_size,
            final(self).outbox == old(self).outbox,
            final(self).mtu_size == old(self).mtu_size,
            final(self).split_id == old(self).split_id,
            final(self).message_index == old(self).message_index,
            final(self).next_seq_number == old(self).next_seq_number,
            final(self).send_ordered_indices == old(self).send_ordered_indices,
            final(self).send_sequenced_indices == old(self).send_sequenced_indices,
            final(self).ord_hist == old(self).ord_hist,
            final(self).seq_hist == old(self).seq_hist,
            final(self).msg_hist == old(self).msg_hist,
            final(self).dgram_hist == old(self).dgram_hist,
    {
        let mut entries: Vec<Datagram> = Vec::new();
        core::mem::swap(&mut entries, &mut self.unacked);
        proof {
            assert(self.unacked@ + drop_acked(entries@, ack.packets@) =~= drop_acked(
                entries@,
                ack.packets@,
            ));
        }
        while entries.len() > 0
            invariant
                self.wf_core(),
                self.est_size + BATCH_MARGIN <= self.mtu_size,
                drop_acked(old(self).unacked@, ack.packets@) == self.unacked@ + drop_acked(
                    entries@,
                    ack.packets@,
                ),
                forall|t: int|
                    0 <= t < entries@.len() ==> (#[trigger] entries@[t]).wf()
                        && entries@[t].packets@.len() >= 1,
                forall|t: int, u: int|
                    0 <= t < entries@.len() && 0 <= u < entries@[t].packets@.len() ==> (
                    #[trigger] entries@[t].packets@[u]).spec_size() <= self.mtu_size - 37,
                self.queue == old(self).queue,
                self.est_size == old(self).est_size,
                self.outbox == old(self).outbox,
                self.mtu_size == old(self).mtu_size,
                self.split_id == old(self).split_id,
                self.message_index == old(self).message_index,
                self.next_seq_number == old(self).next_seq_number,
                self.send_ordered_indices == old(self).send_ordered_indices,
                self.send_sequenced_indices == old(self).send_sequenced_indices,
                self.ord_hist == old(self).ord_hist,
                self.seq_hist == old(self).seq_hist,
                self.msg_hist == old(self).msg_hist,
                self.dgram_hist == old(self).dgram_hist,
            decreases entries@.len(),
        {
            let ghost before = entries@;
            let e = entries.remove(0);
            proof {
                assert(before.remove(0) =~= before.drop_first());
                assert(before.first() == e);
            }
            if contains_seq(&ack.packets, e.seq_number.0) {
            } else {
                proof {
                    assert((self.unacked@ + seq![e]) + drop_acked(entries@, ack.packets@)
                        =~= self.unacked@ + (seq![e] + drop_acked(entries@, ack.packets@)));
                    assert(self.unacked@.push(e) =~= self.unacked@ + seq![e]);
                }
                self.unacked.push(e);
            }
        }
        proof {
            assert(drop_acked(entries@, ack.packets@) =~= Seq::<Datagram>::empty());
            assert(self.unacked@ + Seq::<Datagram>::empty() =~= self.unacked@);
        }
    }

    /// Re-enqueues the reliable packets of every unacked entry whose
    /// datagram the peer reported missing, preserving their message,
    /// order, sequence and split fields; the entries leave the retransmit
    /// index, and the packets travel again under fresh datagram sequence
    /// numbers.
    pub fn on_nack(&mut self, nack: &crate::acklist::Nack)
        requires
            old(self).wf(),
        ensures
            final(self).wf(),
            all_recs(*final(self)) == all_recs(*old(self)) + nacked_recs(
                old(self).unacked@,
                nack.packets@,
            ),
            drop_acked(old(self).unacked@, nack.packets@).is_prefix_of(final(self).unacked@),
            final(self).mtu_size == old(self).mtu_size,
            final(self).split_id == old(self).split_id,
            final(self).message_index == old(self).message_index,
            final(self).send_ordered_indices == old(self).send_ordered_indices,
            final(self).send_sequenced_indices == old(self).send_sequenced_indices,
            final(self).ord_hist == old(self).ord_hist,
            final(self).seq_hist == old(self).seq_hist,
            final(self).msg_hist == old(self).msg_hist,
            old(self).dgram_hist@.is_prefix_of(final(self).dgram_hist@),
    {
        let ghost pre = *self;
        let mut entries: Vec<Datagram> = Vec::new();
        core::mem::swap(&mut entries, &mut self.unacked);
        let mut resend: Vec<Datagram> = Vec::new();
        proof {
            assert(self.unacked@ + drop_acked(entries@, nack.packets@) =~= drop_acked(
                entries@,
                nack.packets@,
            ));
            assert(outbox_recs(resend@) + nacked_recs(entries@, nack.packets@) =~= nacked_recs(
                entries@,
                nack.packets@,
            ));
        }
        while entries.len() > 0
            invariant
                self.wf_core(),
                self.est_size + BATCH_MARGIN <= self.mtu_size,
                drop_acked(pre.unacked@, nack.packets@) == self.unacked@ + drop_acked(
                    entries@,
                    nack.packets@,
                ),
                outbox_recs(resend@) + nacked_recs(entries@, nack.packets@) == nacked_recs(
                    pre.unacked@,
                    nack.packets@,
                ),
                forall|t: int|
                    0 <= t < entries@.len() ==> (#[trigger] entries@[t]).wf()
                        && entries@[t].packets@.len() >= 1,
                forall|t: int, u: int|
                    0 <= t < entries@.len() && 0 <= u < entries@[t].packets@.len() ==> (
                    #[trigger] entries@[t].packets@[u]).spec_size() <= self.mtu_size - 37,
                forall|t: int| 0 <= t < resend@.len() ==> (#[trigger] resend@[t]).wf(),
                forall|t: int, u: int|
                    0 <= t < resend@.len() && 0 <= u < resend@[t].packets@.len() ==> (
                    #[trigger] resend@[t].packets@[u]).spec_size() <= self.mtu_size - 37,
                self.queue == pre.queue,
                self.est_size == pre.est_size,
                self.outbox == pre.outbox,
                self.mtu_size == pre.mtu_size,
                self.split_id == pre.split_id,
                self.message_index == pre.message_index,
                self.next_seq_number == pre.next_seq_number,
                self.send_ordered_indices == pre.send_ordered_indices,
                self.send_sequenced_indices == pre.send_sequenced_indices,
                self.ord_hist == pre.ord_hist,
                self.seq_hist == pre.seq_hist,
                self.msg_hist == pre.msg_hist,
                self.dgram_hist == pre.dgram_hist,
            decreases entries@.len(),
        {
            let ghost before = entries@;
            let e = entries.remove(0);
            proof {
                assert(before.remove(0) =~= before.drop_first());
                assert(before.first() == e);
            }
            if contains_seq(&nack.packets, e.seq_number.0) {
                proof {
                    assert((outbox_recs(resend@) + recs_of(e.packets@)) + nacked_recs(
                        entries@,
                        nack.packets@,
                    ) =~= outbox_recs(resend@) + (recs_of(e.packets@) + nacked_recs(
                        entries@,
                        nack.packets@,
                    )));
                    lemma_outbox_recs_push(resend@, e);
                }
                resend.push(e);
            } else {
                proof {
                    assert((self.unacked@ + seq![e]) + drop_acked(entries@, nack.packets@)
                        =~= self.unacked@ + (seq![e] + drop_acked(entries@, nack.packets@)));
                    assert(self.unacked@.push(e) =~= self.unacked@ + seq![e]);
                }
                self.unacked.push(e);
            }
        }
        let ghost kept = self.unacked@;
        proof {
            assert(drop_acked(entries@, nack.packets@) =~= Seq::<Datagram>::empty());
            assert(self.unacked@ + Seq::<Datagram>::empty() =~= self.unacked@);
            assert(nacked_recs(entries@, nack.packets@) =~= Seq::<InnerRec>::empty());
            assert(outbox_recs(resend@) + Seq::<InnerRec>::empty() =~= outbox_recs(resend@));
            assert(kept.is_prefix_of(self.unacked@)) by {
                assert(self.unacked@.subrange(0, kept.len() as int) =~= kept);
            };
            assert(all_recs(*self) + outbox_recs(resend@) =~= all_recs(pre) + nacked_recs(
                pre.unacked@,
                nack.packets@,
            ));
        }
        while resend.len() > 0
            invariant
                self.wf(),
                all_recs(*self) + outbox_recs(resend@) == all_recs(pre) + nacked_recs(
                    pre.unacked@,
                    nack.packets@,
                ),
                kept.is_prefix_of(self.unacked@),
                forall|t: int| 0 <= t < resend@.len() ==> (#[trigger] resend@[t]).wf(),
                forall|t: int, u: int|
                    0 <= t < resend@.len() && 0 <= u < resend@[t].packets@.len() ==> (
                    #[trigger] resend@[t].packets@[u]).spec_size() <= self.mtu_size - 37,
                kept == drop_acked(pre.unacked@, nack.packets@),
                self.mtu_size == pre.mtu_size,
                self.split_id == pre.split_id,
                self.message_index == pre.message_index,
                self.send_ordered_indices == pre.send_ordered_indices,
                self.send_sequenced_indices == pre.send_sequenced_indices,
                self.ord_hist == pre.ord_hist,
                self.seq_hist == pre.seq_hist,
                self.msg_hist == pre.msg_hist,
                pre.dgram_hist@.is_prefix_of(self.dgram_hist@),
            decreases resend@.len(),
        {
            let ghost rbefore = resend@;
            let mut e = resend.remove(0);
            proof {
                assert(rbefore.remove(0) =~= rbefore.drop_first());
                assert(rbefore.first() == e);
            }
            while e.packets.len() > 0
                invariant
                    self.wf(),
                    all_recs(*self) + recs_of(e.packets@) + outbox_recs(resend@) == all_recs(pre)
                        + nacked_recs(pre.unacked@, nack.packets@),
                    kept.is_prefix_of(self.unacked@),
                    forall|u: int|
                        0 <= u < e.packets@.len() ==> (#[trigger] e.packets@[u]).wf()
                            && e.packets@[u].spec_size() <= self.mtu_size - 37,
                    forall|t: int| 0 <= t < resend@.len() ==> (#[trigger] resend@[t]).wf(),
                    forall|t: int, u: int|
                        0 <= t < resend@.len() && 0 <= u < resend@[t].packets@.len() ==> (
                        #[trigger] resend@[t].packets@[u]).spec_size() <= self.mtu_size - 37,
                    kept == drop_acked(pre.unacked@, nack.packets@),
                    self.mtu_size == pre.mtu_size,
                    self.split_id == pre.split_id,
                    self.message_index == pre.message_index,
                    self.send_ordered_indices == pre.send_ordered_indices,
                    self.send_sequenced_indices == pre.send_sequenced_indices,
                    self.ord_hist == pre.ord_hist,
                    self.seq_hist == pre.seq_hist,
                    self.msg_hist == pre.msg_hist,
                    pre.dgram_hist@.is_prefix_of(self.dgram_hist@),
                decreases e.packets@.len(),
            {
                let ghost pbefore = e.packets@;
                let ghost mid = *self;
                let p = e.packets.remove(0);
                proof {
                    assert(pbefore.remove(0) =~= pbefore.drop_first());
                    assert(pbefore.first() == p);
                    assert(recs_of(pbefore) =~= seq![rec_of(p)] + recs_of(e.packets@)) by {
                        assert(recs_of(pbefore).drop_first() =~= recs_of(e.packets@));
                        assert(seq![rec_of(p)] + recs_of(pbefore).drop_first() =~= recs_of(
                            pbefore,
                        ));
                    };
                }
                self.push_inner(p);
                proof {
                    assert(all_recs(*self) + recs_of(e.packets@) + outbox_recs(resend@)
                        =~= all_recs(pre) + nacked_recs(pre.unacked@, nack.packets@)) by {
                        assert(all_recs(*self) == all_recs(mid) + seq![rec_of(p)]);
                        assert((all_recs(mid) + seq![rec_of(p)]) + recs_of(e.packets@)
                            =~= all_recs(mid) + (seq![rec_of(p)] + recs_of(e.packets@)));
                    };
                    assert(kept.is_prefix_of(self.unacked@)) by {
                        assert(mid.unacked@.is_prefix_of(self.unacked@));
                        assert(self.unacked@.subrange(0, kept.len() as int) =~= kept);
                    };
                    assert(pre.dgram_hist@.is_prefix_of(self.dgram_hist@)) by {
                        assert(mid.dgram_hist@.is_prefix_of(self.dgram_hist@));
                        assert(self.dgram_hist@.subrange(0, pre.dgram_hist@.len() as int)
                            =~= pre.dgram_hist@);
                    };
                }
            }
            proof {
                assert(recs_of(e.packets@) =~= Seq::<InnerRec>::empty());
                assert(all_recs(*self) + Seq::<InnerRec>::empty() + outbox_recs(resend@)
                    =~= all_recs(*self) + outbox_recs(resend@));
            }
        }
        proof {
            assert(outbox_recs(resend@) =~= Seq::<InnerRec>::empty());
            assert(all_recs(*self) + Seq::<InnerRec>::empty() =~= all_recs(*self));
        }
    }

    /// Hands the flushed datagrams over and clears the outbox.
    pub fn take_datagrams(&mut self) -> (r: Vec<Datagram>)
        requires
            old(self).wf(),
        ensures
            final(self).wf(),
            r@ == old(self).outbox@,
            final(self).outbox@.len() == 0,
            final(self).queue == old(self).queue,
            final(self).est_size == old(self).est_size,
            final(self).mtu_size == old(self).mtu_size,
            final(self).split_id == old(self).split_id,
            final(self).message_index == old(self).message_index,
            final(self).next_seq_number == old(self).next_seq_number,
            final(self).send_ordered_indices == old(self).send_ordered_indices,
            final(self).send_sequenced_indices == old(self).send_sequenced_indices,
            final(self).ord_hist == old(self).ord_hist,
            final(self).seq_hist == old(self).seq_hist,
            final(self).msg_hist == old(self).msg_hist,
            final(self).dgram_hist == old(self).dgram_hist,
            final(self).unacked == old(self).unacked,
    {
        let mut out: Vec<Datagram> = Vec::new();
        core::mem::swap(&mut out, &mut self.outbox);
        out
    }
}

} // verus!
