//! The ack/nack record list: a sorted, deduplicated set of 24-bit packet
//! numbers encoded as a run of range and single records.
//!
//! The encoder emits no record count; the decoder reads records until the
//! buffer is exhausted, sorts the pairs by their start, and deduplicates
//! overlaps by advancing each start past the previous end (a pair emptied by
//! that is dropped).

use vstd::prelude::*;

use crate::codec;
use crate::error::DecodeError;

verus! {

/// A record type byte of `1` marks a single id, `0` a range.
pub const RECORD_TYPE_RANGE: u8 = 0;

pub const RECORD_TYPE_SINGLE: u8 = 1;

/// An inclusive range of packet numbers, both ends below `2^24`.
pub open spec fn pair_ok(p: (u32, u32)) -> bool {
    p.0 <= p.1 && p.1 < 0x1000000
}

/// Both ends of every pair fit a triad.
pub open spec fn bounded(ps: Seq<(u32, u32)>) -> bool {
    forall|t: int| 0 <= t < ps.len() ==> (#[trigger] ps[t]).0 < 0x1000000 && ps[t].1 < 0x1000000
}

/// Starts never decrease.
pub open spec fn sorted_by_start(ps: Seq<(u32, u32)>) -> bool {
    forall|a: int, b: int| 0 <= a <= b < ps.len() ==> (#[trigger] ps[a]).0 <= (#[trigger] ps[b]).0
}

/// The shape every held list keeps: ranges in bounds, each strictly past
/// the one before it.
pub open spec fn pairs_wf(ps: Seq<(u32, u32)>) -> bool {
    &&& forall|t: int| 0 <= t < ps.len() ==> pair_ok(#[trigger] ps[t])
    &&& forall|t: int| 0 <= t < ps.len() - 1 ==> (#[trigger] ps[t]).1 < ps[t + 1].0
}

/// Strictly increasing packet numbers, all below `2^24`.
pub open spec fn sorted_nums(s: Seq<u32>) -> bool {
    &&& forall|t: int| 0 <= t < s.len() ==> (#[trigger] s[t]) < 0x1000000
    &&& forall|t: int| 0 <= t < s.len() - 1 ==> (#[trigger] s[t]) < s[t + 1]
}

/// Coalesces a strictly increasing run of numbers into inclusive ranges:
/// a number one past the last range extends it; any other number starts a
/// fresh range.
pub open spec fn cluster(s: Seq<u32>) -> Seq<(u32, u32)>
    decreases s.len(),
{
    if s.len() == 0 {
        Seq::empty()
    } else {
        let c = cluster(s.drop_last());
        let x = s.last();
        if c.len() > 0 && x == c.last().1 + 1 {
            c.update(c.len() - 1, (c.last().0, x))
        } else {
            c.push((x, x))
        }
    }
}

/// The numbers an inclusive range covers, in order.
pub open spec fn range_nums(p: (u32, u32)) -> Seq<u32> {
    Seq::new((p.1 - p.0 + 1) as nat, |k: int| (p.0 + k) as u32)
}

/// The numbers a run of ranges covers, in order.
pub open spec fn flatten_pairs(ps: Seq<(u32, u32)>) -> Seq<u32>
    decreases ps.len(),
{
    if ps.len() == 0 {
        Seq::empty()
    } else {
        range_nums(ps.first()) + flatten_pairs(ps.drop_first())
    }
}

/// How many numbers a run of ranges covers.
pub open spec fn pairs_count(ps: Seq<(u32, u32)>) -> int
    decreases ps.len(),
{
    if ps.len() == 0 {
        0
    } else {
        ps.first().1 - ps.first().0 + 1 + pairs_count(ps.drop_first())
    }
}

/// The wire bytes of one record: a single id or a range, the triads
/// little-endian.
pub open spec fn record_wire(p: (u32, u32)) -> Seq<u8> {
    if p.0 == p.1 {
        seq![RECORD_TYPE_SINGLE] + codec::le_bytes((p.0 % 0x1000000) as nat, 3)
    } else {
        seq![RECORD_TYPE_RANGE] + codec::le_bytes((p.0 % 0x1000000) as nat, 3) + codec::le_bytes(
            (p.1 % 0x1000000) as nat,
            3,
        )
    }
}

/// The wire bytes of a run of records.
pub open spec fn records_wire(ps: Seq<(u32, u32)>) -> Seq<u8>
    decreases ps.len(),
{
    if ps.len() == 0 {
        Seq::empty()
    } else {
        record_wire(ps.first()) + records_wire(ps.drop_first())
    }
}

/// Parse of records from `i` to the end of the buffer.  A record type byte
/// other than `0` and `1` is out of range; a truncated record is an eof.
pub open spec fn parse_records(s: Seq<u8>, i: int) -> Result<Seq<(u32, u32)>, DecodeError>
    decreases s.len() - i,
{
    if !(0 <= i <= s.len()) {
        Err(DecodeError::UnexpectedEof)
    } else if i == s.len() {
        Ok(Seq::empty())
    } else if s[i] == RECORD_TYPE_SINGLE {
        if i + 4 <= s.len() {
            let id = codec::le_val(s.subrange(i + 1, i + 4)) as u32;
            match parse_records(s, i + 4) {
                Ok(rest) => Ok(seq![(id, id)] + rest),
                Err(e) => Err(e),
            }
        } else {
            Err(DecodeError::UnexpectedEof)
        }
    } else if s[i] == RECORD_TYPE_RANGE {
        if i + 7 <= s.len() {
            let st = codec::le_val(s.subrange(i + 1, i + 4)) as u32;
            let en = codec::le_val(s.subrange(i + 4, i + 7)) as u32;
            match parse_records(s, i + 7) {
                Ok(rest) => Ok(seq![(st, en)] + rest),
                Err(e) => Err(e),
            }
        } else {
            Err(DecodeError::UnexpectedEof)
        }
    } else {
        Err(DecodeError::OutOfRange)
    }
}

/// Insertion of a pair into a run sorted by start, from the back.
pub open spec fn insert_pair(ps: Seq<(u32, u32)>, p: (u32, u32)) -> Seq<(u32, u32)>
    decreases ps.len(),
{
    if ps.len() == 0 {
        seq![p]
    } else if ps.last().0 <= p.0 {
        ps.push(p)
    } else {
        insert_pair(ps.drop_last(), p).push(ps.last())
    }
}

/// Insertion sort of pairs by their start.
pub open spec fn sort_pairs(ps: Seq<(u32, u32)>) -> Seq<(u32, u32)>
    decreases ps.len(),
{
    if ps.len() == 0 {
        Seq::empty()
    } else {
        insert_pair(sort_pairs(ps.drop_last()), ps.last())
    }
}

/// The deduplication sweep over pairs sorted by start: `lo` is the first
/// number not yet covered; a start below it is advanced to it, and a pair
/// left empty is dropped.
pub open spec fn sweep_from(ps: Seq<(u32, u32)>, lo: int) -> Seq<(u32, u32)>
    decreases ps.len(),
{
    if ps.len() == 0 {
        Seq::empty()
    } else {
        let p = ps.first();
        let s2 = if p.0 > lo {
            p.0 as int
        } else {
            lo
        };
        if s2 <= p.1 {
            seq![(s2 as u32, p.1)] + sweep_from(ps.drop_first(), p.1 + 1)
        } else {
            sweep_from(ps.drop_first(), lo)
        }
    }
}

/// What the decoder holds after reading raw pairs: sorted and swept.
pub open spec fn normalize(ps: Seq<(u32, u32)>) -> Seq<(u32, u32)> {
    sweep_from(sort_pairs(ps), 0)
}

proof fn lemma_flatten_pairs_push(ps: Seq<(u32, u32)>, p: (u32, u32))
    ensures
        flatten_pairs(ps.push(p)) == flatten_pairs(ps) + range_nums(p),
    decreases ps.len(),
{
    if ps.len() == 0 {
        assert(ps =~= Seq::<(u32, u32)>::empty());
        assert(ps.push(p).drop_first() =~= Seq::<(u32, u32)>::empty());
        assert(flatten_pairs(ps.push(p)) =~= flatten_pairs(ps) + range_nums(p));
    } else {
        assert(ps.push(p).drop_first() =~= ps.drop_first().push(p));
        assert(ps.push(p).first() == ps.first());
        lemma_flatten_pairs_push(ps.drop_first(), p);
        assert(flatten_pairs(ps.push(p)) =~= flatten_pairs(ps) + range_nums(p));
    }
}

proof fn lemma_pairs_count_push(ps: Seq<(u32, u32)>, p: (u32, u32))
    ensures
        pairs_count(ps.push(p)) == pairs_count(ps) + p.1 - p.0 + 1,
    decreases ps.len(),
{
    if ps.len() == 0 {
        assert(ps =~= Seq::<(u32, u32)>::empty());
        assert(ps.push(p).drop_first() =~= Seq::<(u32, u32)>::empty());
    } else {
        assert(ps.push(p).drop_first() =~= ps.drop_first().push(p));
        assert(ps.push(p).first() == ps.first());
        lemma_pairs_count_push(ps.drop_first(), p);
    }
}

proof fn lemma_records_wire_push(ps: Seq<(u32, u32)>, p: (u32, u32))
    ensures
        records_wire(ps.push(p)) == records_wire(ps) + record_wire(p),
    decreases ps.len(),
{
    if ps.len() == 0 {
        assert(ps =~= Seq::<(u32, u32)>::empty());
        assert(ps.push(p).drop_first() =~= Seq::<(u32, u32)>::empty());
        assert(records_wire(ps.push(p)) =~= records_wire(ps) + record_wire(p));
    } else {
        assert(ps.push(p).drop_first() =~= ps.drop_first().push(p));
        assert(ps.push(p).first() == ps.first());
        lemma_records_wire_push(ps.drop_first(), p);
        assert(records_wire(ps.push(p)) =~= records_wire(ps) + record_wire(p));
    }
}

/// Disjoint increasing ranges below `2^24` cover at most `2^24` numbers;
/// more exactly, no more than the room above the first start.
proof fn lemma_pairs_count_bound(ps: Seq<(u32, u32)>)
    requires
        pairs_wf(ps),
    ensures
        ps.len() == 0 ==> pairs_count(ps) == 0,
        ps.len() > 0 ==> pairs_count(ps) <= 0x1000000 - ps.first().0,
    decreases ps.len(),
{
    if ps.len() > 0 {
        let rest = ps.drop_first();
        assert(forall|t: int| 0 <= t < rest.len() ==> rest[t] == ps[t + 1]);
        lemma_pairs_count_bound(rest);
    }
}

/// A cluster of a strictly increasing run is a well-formed run of ranges,
/// and its last range ends at the last number.
proof fn lemma_cluster_wf(s: Seq<u32>)
    requires
        sorted_nums(s),
    ensures
        pairs_wf(cluster(s)),
        s.len() == 0 ==> cluster(s).len() == 0,
        s.len() > 0 ==> cluster(s).len() > 0 && cluster(s).last().1 == s.last(),
    decreases s.len(),
{
    if s.len() > 0 {
        let d = s.drop_last();
        assert(sorted_nums(d));
        lemma_cluster_wf(d);
        let c = cluster(d);
        let x = s.last();
        if d.len() > 0 {
            assert(d.last() == s[s.len() - 2]);
            assert(s[s.len() - 2] < s.last());
        }
    }
}

/// Flattening a cluster restores the numbers it was built from.
proof fn lemma_cluster_flatten(s: Seq<u32>)
    requires
        sorted_nums(s),
    ensures
        flatten_pairs(cluster(s)) == s,
    decreases s.len(),
{
    if s.len() == 0 {
        assert(flatten_pairs(cluster(s)) =~= s);
    } else {
        let d = s.drop_last();
        assert(sorted_nums(d));
        lemma_cluster_flatten(d);
        lemma_cluster_wf(d);
        let c = cluster(d);
        let x = s.last();
        if c.len() > 0 && x == c.last().1 + 1 {
            let p = c.last();
            let c2 = c.update(c.len() - 1, (p.0, x));
            lemma_flatten_last(c);
            lemma_flatten_last(c2);
            assert(c2.drop_last() =~= c.drop_last());
            assert(c2.last() == (p.0, x));
            assert(pair_ok(p));
            assert(range_nums((p.0, x)) =~= range_nums(p) + seq![x]);
            assert(flatten_pairs(c2) =~= (flatten_pairs(c.drop_last()) + range_nums(p)) + seq![x]);
            assert(flatten_pairs(c2) =~= flatten_pairs(c) + seq![x]);
            assert(d + seq![x] =~= s);
        } else {
            lemma_flatten_pairs_push(c, (x, x));
            assert(range_nums((x, x)) =~= seq![x]);
            assert(d + seq![x] =~= s);
            assert(flatten_pairs(cluster(s)) =~= s);
        }
    }
}

/// Flattening decomposed at the last range.
proof fn lemma_flatten_last(ps: Seq<(u32, u32)>)
    requires
        ps.len() > 0,
    ensures
        flatten_pairs(ps) == flatten_pairs(ps.drop_last()) + range_nums(ps.last()),
{
    assert(ps.drop_last().push(ps.last()) =~= ps);
    lemma_flatten_pairs_push(ps.drop_last(), ps.last());
}

/// The numbers covered by a well-formed run are strictly increasing and in
/// bounds, and they all sit at or past the first start.
proof fn lemma_flatten_wf(ps: Seq<(u32, u32)>)
    requires
        pairs_wf(ps),
    ensures
        sorted_nums(flatten_pairs(ps)),
        forall|t: int|
            0 <= t < flatten_pairs(ps).len() ==> ps.len() > 0 && ps.first().0 <= #[trigger] (
            flatten_pairs(ps)[t]),
    decreases ps.len(),
{
    if ps.len() > 0 {
        let rest = ps.drop_first();
        assert(forall|t: int| 0 <= t < rest.len() ==> rest[t] == ps[t + 1]);
        lemma_flatten_wf(rest);
        let head = range_nums(ps.first());
        let tail = flatten_pairs(rest);
        assert(forall|t: int|
            0 <= t < flatten_pairs(ps).len() ==> flatten_pairs(ps)[t] == (if t < head.len() {
                head[t]
            } else {
                tail[t - head.len()]
            }));
        if rest.len() > 0 {
            assert(ps.first().1 < rest.first().0);
        }
    }
}

/// Insertion keeps a run sorted by start and in bounds, and adds nothing
/// but the new pair.
proof fn lemma_insert_pair(ps: Seq<(u32, u32)>, p: (u32, u32))
    requires
        sorted_by_start(ps),
        bounded(ps),
        p.0 < 0x1000000,
        p.1 < 0x1000000,
    ensures
        sorted_by_start(insert_pair(ps, p)),
        bounded(insert_pair(ps, p)),
        insert_pair(ps, p).len() == ps.len() + 1,
        forall|t: int|
            0 <= t < insert_pair(ps, p).len() ==> (#[trigger] insert_pair(ps, p)[t]) == p
                || ps.contains(insert_pair(ps, p)[t]),
    decreases ps.len(),
{
    if ps.len() == 0 {
    } else if ps.last().0 <= p.0 {
        assert(forall|t: int|
            0 <= t < ps.len() ==> ps.contains(#[trigger] ps.push(p)[t]) || ps.push(p)[t] == p);
    } else {
        let d = ps.drop_last();
        assert(sorted_by_start(d));
        assert(bounded(d));
        lemma_insert_pair(d, p);
        let q0 = insert_pair(d, p);
        let q = q0.push(ps.last());
        assert forall|a: int| 0 <= a < q0.len() implies (#[trigger] q0[a]).0 <= ps.last().0 by {
            if q0[a] != p {
                assert(d.contains(q0[a]));
                let u = choose|u: int| 0 <= u < d.len() && d[u] == q0[a];
                assert(d[u] == ps[u]);
                assert(ps[u].0 <= ps.last().0);
            }
        };
        assert forall|t: int| 0 <= t < q.len() implies (#[trigger] q[t]) == p || ps.contains(
            q[t],
        ) by {
            if t < q0.len() {
                if q0[t] != p {
                    assert(d.contains(q0[t]));
                    let u = choose|u: int| 0 <= u < d.len() && d[u] == q0[t];
                    assert(ps[u] == q[t]);
                }
            } else {
                assert(q[t] == ps[ps.len() - 1]);
            }
        };
    }
}

/// Sorting yields a run sorted by start, in bounds, of the same length.
proof fn lemma_sort_pairs(ps: Seq<(u32, u32)>)
    requires
        bounded(ps),
    ensures
        sorted_by_start(sort_pairs(ps)),
        bounded(sort_pairs(ps)),
        sort_pairs(ps).len() == ps.len(),
    decreases ps.len(),
{
    if ps.len() > 0 {
        let d = ps.drop_last();
        assert(bounded(d));
        lemma_sort_pairs(d);
        lemma_insert_pair(sort_pairs(d), ps.last());
    }
}

/// The sweep of a sorted, bounded run is well formed, and everything it
/// keeps starts at or past `lo`.
proof fn lemma_sweep_wf(ps: Seq<(u32, u32)>, lo: int)
    requires
        sorted_by_start(ps),
        bounded(ps),
        0 <= lo <= 0x1000000,
    ensures
        pairs_wf(sweep_from(ps, lo)),
        forall|t: int| 0 <= t < sweep_from(ps, lo).len() ==> lo <= #[trigger] (sweep_from(
            ps,
            lo,
        )[t]).0,
    decreases ps.len(),
{
    if ps.len() > 0 {
        let rest = ps.drop_first();
        assert(forall|t: int| 0 <= t < rest.len() ==> rest[t] == ps[t + 1]);
        assert(sorted_by_start(rest));
        assert(bounded(rest));
        let p = ps.first();
        let s2 = if p.0 > lo {
            p.0 as int
        } else {
            lo
        };
        if s2 <= p.1 {
            lemma_sweep_wf(rest, p.1 + 1);
        } else {
            lemma_sweep_wf(rest, lo);
        }
    }
}

/// A run that is already well formed sorts to itself.
proof fn lemma_sort_id(ps: Seq<(u32, u32)>)
    requires
        pairs_wf(ps),
    ensures
        sort_pairs(ps) == ps,
    decreases ps.len(),
{
    if ps.len() > 0 {
        let d = ps.drop_last();
        assert(pairs_wf(d));
        lemma_sort_id(d);
        if d.len() > 0 {
            assert(d.last() == ps[ps.len() - 2]);
            assert(ps[ps.len() - 2].1 < ps.last().0);
        }
        assert(insert_pair(d, ps.last()) =~= ps);
    }
}

/// A run that is already well formed sweeps to itself when `lo` sits at or
/// below its first start.
proof fn lemma_sweep_id(ps: Seq<(u32, u32)>, lo: int)
    requires
        pairs_wf(ps),
        0 <= lo,
        ps.len() > 0 ==> lo <= ps.first().0,
    ensures
        sweep_from(ps, lo) == ps,
    decreases ps.len(),
{
    if ps.len() > 0 {
        let rest = ps.drop_first();
        assert(forall|t: int| 0 <= t < rest.len() ==> rest[t] == ps[t + 1]);
        assert(pairs_wf(rest));
        let p = ps.first();
        lemma_sweep_id(rest, p.1 + 1);
        assert(seq![p] + rest =~= ps);
    }
}

/// A well-formed run normalizes to itself: the decoder returns exactly
/// what the encoder was given.
pub proof fn lemma_normalize_id(ps: Seq<(u32, u32)>)
    requires
        pairs_wf(ps),
    ensures
        normalize(ps) == ps,
{
    lemma_sort_id(ps);
    lemma_sweep_id(ps, 0);
}

/// Records written to the end of a buffer parse back to themselves.
pub proof fn lemma_parse_records_of_wire(ps: Seq<(u32, u32)>, s: Seq<u8>, i: int)
    requires
        0 <= i <= s.len(),
        bounded(ps),
        s.subrange(i, s.len() as int) == records_wire(ps),
    ensures
        parse_records(s, i) == Ok::<Seq<(u32, u32)>, DecodeError>(ps),
    decreases ps.len(),
{
    if ps.len() == 0 {
        assert(records_wire(ps) =~= Seq::<u8>::empty());
        assert(i == s.len());
        assert(ps =~= Seq::<(u32, u32)>::empty());
    } else {
        let p = ps.first();
        let rest = ps.drop_first();
        assert(bounded(rest)) by {
            assert(forall|t: int| 0 <= t < rest.len() ==> rest[t] == ps[t + 1]);
        };
        let rw = record_wire(p);
        let rest_w = records_wire(rest);
        codec::lemma_le_bytes_len((p.0 % 0x1000000) as nat, 3);
        codec::lemma_le_bytes_len((p.1 % 0x1000000) as nat, 3);
        let tail = s.subrange(i, s.len() as int);
        assert(tail =~= rw + rest_w);
        let le0 = codec::le_bytes((p.0 % 0x1000000) as nat, 3);
        let le1 = codec::le_bytes((p.1 % 0x1000000) as nat, 3);
        assert(s[i] == rw[0]) by {
            assert(tail[0] == s[i]);
            assert((rw + rest_w)[0] == rw[0]);
        };
        assert forall|t: int| 0 <= t < 3 implies s[i + 1 + t] == le0[t] by {
            assert(tail[1 + t] == s[i + 1 + t]);
            assert((rw + rest_w)[1 + t] == rw[1 + t]);
            assert(rw[1 + t] == le0[t]);
        };
        assert(s.subrange(i + 1, i + 4) =~= le0);
        codec::lemma_pow256_vals();
        codec::lemma_le_val_of_bytes((p.0 % 0x1000000) as nat, 3);
        if p.0 == p.1 {
            assert(rw.len() == 4);
            assert forall|t: int| 0 <= t < rest_w.len() implies s[i + 4 + t] == rest_w[t] by {
                assert(tail[4 + t] == s[i + 4 + t]);
                assert((rw + rest_w)[4 + t] == rest_w[t]);
            };
            assert(s.subrange(i + 4, s.len() as int) =~= rest_w);
            lemma_parse_records_of_wire(rest, s, i + 4);
            assert(seq![p] + rest =~= ps);
        } else {
            assert(rw.len() == 7);
            assert forall|t: int| 0 <= t < 3 implies s[i + 4 + t] == le1[t] by {
                assert(tail[4 + t] == s[i + 4 + t]);
                assert((rw + rest_w)[4 + t] == rw[4 + t]);
                assert(rw[4 + t] == le1[t]);
            };
            assert(s.subrange(i + 4, i + 7) =~= le1);
            codec::lemma_le_val_of_bytes((p.1 % 0x1000000) as nat, 3);
            assert forall|t: int| 0 <= t < rest_w.len() implies s[i + 7 + t] == rest_w[t] by {
                assert(tail[7 + t] == s[i + 7 + t]);
                assert((rw + rest_w)[7 + t] == rest_w[t]);
            };
            assert(s.subrange(i + 7, s.len() as int) =~= rest_w);
            lemma_parse_records_of_wire(rest, s, i + 7);
            assert(seq![p] + rest =~= ps);
        }
    }
}

/// The round trip of an ack list: a strictly increasing run of packet
/// numbers is coalesced into well-formed ranges; their records parse back
/// to the same ranges, which normalization leaves alone, and flattening
/// restores the original numbers.
pub proof fn lemma_acklist_round_trip(input: Seq<u32>)
    requires
        sorted_nums(input),
    ensures
        pairs_wf(cluster(input)),
        parse_records(records_wire(cluster(input)), 0) == Ok::<Seq<(u32, u32)>, DecodeError>(
            cluster(input),
        ),
        normalize(cluster(input)) == cluster(input),
        flatten_pairs(cluster(input)) == input,
{
    let ps = cluster(input);
    lemma_cluster_wf(input);
    let w = records_wire(ps);
    assert(w.subrange(0, w.len() as int) =~= w);
    lemma_parse_records_of_wire(ps, w, 0);
    lemma_normalize_id(ps);
    lemma_cluster_flatten(input);
}

/// An ordered set of 24-bit packet numbers held as coalesced inclusive
/// ranges.
#[derive(Clone, Debug, PartialEq)]
pub struct TriadList {
    pub pairs: Vec<(u32, u32)>,
}

impl TriadList {
    /// Ranges in bounds, each strictly past the one before.
    pub open spec fn wf(self) -> bool {
        pairs_wf(self.pairs@)
    }

    /// Coalesces a strictly increasing run of packet numbers.
    pub fn from_sorted(list: &Vec<u32>) -> (r: TriadList)
        requires
            sorted_nums(list@),
        ensures
            r.pairs@ == cluster(list@),
            r.wf(),
    {
        let mut pairs: Vec<(u32, u32)> = Vec::new();
        let mut i: usize = 0;
        while i < list.len()
            invariant
                i <= list@.len(),
                sorted_nums(list@),
                pairs@ == cluster(list@.subrange(0, i as int)),
            decreases list@.len() - i,
        {
            proof {
                assert(list@.subrange(0, i as int + 1).drop_last() =~= list@.subrange(0, i as int));
                assert(sorted_nums(list@.subrange(0, i as int + 1)));
                lemma_cluster_wf(list@.subrange(0, i as int));
                assert(list@.subrange(0, i as int + 1).last() == list@[i as int]);
            }
            let x = list[i];
            let n = pairs.len();
            if n > 0 {
                let last = pairs[n - 1];
                if x == last.1 + 1 {
                    pairs.set(n - 1, (last.0, x));
                } else {
                    pairs.push((x, x));
                }
            } else {
                pairs.push((x, x));
            }
            i = i + 1;
        }
        proof {
            assert(list@.subrange(0, list@.len() as int) =~= list@);
            lemma_cluster_wf(list@);
        }
        TriadList { pairs }
    }

    /// How many packet numbers the list covers.
    pub fn size(&self) -> (r: u32)
        requires
            self.wf(),
        ensures
            r == pairs_count(self.pairs@),
    {
        let mut total: u32 = 0;
        let mut i: usize = 0;
        while i < self.pairs.len()
            invariant
                i <= self.pairs@.len(),
                self.wf(),
                total == pairs_count(self.pairs@.subrange(0, i as int)),
            decreases self.pairs@.len() - i,
        {
            let p = self.pairs[i];
            proof {
                assert(pairs_wf(self.pairs@.subrange(0, i as int + 1))) by {
                    assert(forall|t: int|
                        0 <= t < i + 1 ==> self.pairs@.subrange(0, i as int + 1)[t]
                            == self.pairs@[t]);
                };
                lemma_pairs_count_bound(self.pairs@.subrange(0, i as int + 1));
                assert(self.pairs@.subrange(0, i as int + 1) =~= self.pairs@.subrange(
                    0,
                    i as int,
                ).push(self.pairs@[i as int]));
                lemma_pairs_count_push(self.pairs@.subrange(0, i as int), self.pairs@[i as int]);
            }
            total = total + (p.1 - p.0 + 1);
            i = i + 1;
        }
        proof {
            assert(self.pairs@.subrange(0, self.pairs@.len() as int) =~= self.pairs@);
        }
        total
    }

    /// The covered packet numbers, in increasing order.
    pub fn to_sorted(&self) -> (r: Vec<u32>)
        requires
            self.wf(),
        ensures
            r@ == flatten_pairs(self.pairs@),
            sorted_nums(r@),
    {
        let mut out: Vec<u32> = Vec::new();
        let mut i: usize = 0;
        while i < self.pairs.len()
            invariant
                i <= self.pairs@.len(),
                self.wf(),
                out@ == flatten_pairs(self.pairs@.subrange(0, i as int)),
            decreases self.pairs@.len() - i,
        {
            let p = self.pairs[i];
            let cnt = p.1 - p.0 + 1;
            let mut k: u32 = 0;
            while k < cnt
                invariant
                    k <= cnt,
                    cnt == p.1 - p.0 + 1,
                    pair_ok(p),
                    out@ == flatten_pairs(self.pairs@.subrange(0, i as int)) + range_nums(
                        p,
                    ).subrange(0, k as int),
                decreases cnt - k,
            {
                out.push(p.0 + k);
                proof {
                    assert(range_nums(p).subrange(0, k as int + 1) =~= range_nums(p).subrange(
                        0,
                        k as int,
                    ) + seq![(p.0 + k) as u32]);
                }
                k = k + 1;
            }
            proof {
                assert(range_nums(p).subrange(0, cnt as int) =~= range_nums(p));
                assert(self.pairs@.subrange(0, i as int + 1) =~= self.pairs@.subrange(
                    0,
                    i as int,
                ).push(self.pairs@[i as int]));
                lemma_flatten_pairs_push(self.pairs@.subrange(0, i as int), self.pairs@[i as int]);
            }
            i = i + 1;
        }
        proof {
            assert(self.pairs@.subrange(0, self.pairs@.len() as int) =~= self.pairs@);
            lemma_flatten_wf(self.pairs@);
        }
        out
    }

    /// Appends the records of this list; no record count comes first.
    pub fn write(&self, vec: &mut Vec<u8>)
        requires
            self.wf(),
        ensures
            final(vec)@ == old(vec)@ + records_wire(self.pairs@),
    {
        let mut i: usize = 0;
        while i < self.pairs.len()
            invariant
                i <= self.pairs@.len(),
                self.wf(),
                vec@ == old(vec)@ + records_wire(self.pairs@.subrange(0, i as int)),
            decreases self.pairs@.len() - i,
        {
            let p = self.pairs[i];
            if p.0 == p.1 {
                codec::write_u8(vec, RECORD_TYPE_SINGLE);
                codec::write_u24_le(vec, p.0);
            } else {
                codec::write_u8(vec, RECORD_TYPE_RANGE);
                codec::write_u24_le(vec, p.0);
                codec::write_u24_le(vec, p.1);
            }
            proof {
                assert(self.pairs@.subrange(0, i as int + 1) =~= self.pairs@.subrange(
                    0,
                    i as int,
                ).push(self.pairs@[i as int]));
                lemma_records_wire_push(self.pairs@.subrange(0, i as int), self.pairs@[i as int]);
                assert(vec@ =~= old(vec)@ + records_wire(self.pairs@.subrange(0, i as int + 1)));
            }
            i = i + 1;
        }
        proof {
            assert(self.pairs@.subrange(0, self.pairs@.len() as int) =~= self.pairs@);
        }
    }

    /// Reads records until the buffer is exhausted, sorts them by start,
    /// and deduplicates overlaps.
    pub fn read(src: &Vec<u8>, offset: &mut usize) -> (r: Result<TriadList, DecodeError>)
        ensures
            match parse_records(src@, *old(offset) as int) {
                Ok(raw) => r matches Ok(l) && l.pairs@ == normalize(raw) && l.wf()
                    && *final(offset) == src@.len(),
                Err(e) => r == Err::<TriadList, DecodeError>(e) && *final(offset) == *old(offset),
            },
    {
        let start = *offset;
        if *offset > src.len() {
            return Err(DecodeError::UnexpectedEof);
        }
        let mut raw: Vec<(u32, u32)> = Vec::new();
        proof {
            if parse_records(src@, *offset as int) is Ok {
                assert(raw@ + parse_records(src@, *offset as int)->Ok_0 =~= parse_records(
                    src@,
                    *offset as int,
                )->Ok_0);
            }
        }
        while *offset < src.len()
            invariant
                start == *old(offset),
                *offset <= src@.len(),
                bounded(raw@),
                parse_records(src@, *offset as int) matches Ok(rest) ==> parse_records(
                    src@,
                    start as int,
                ) == Ok::<Seq<(u32, u32)>, DecodeError>(raw@ + rest),
                parse_records(src@, *offset as int) matches Err(e) ==> parse_records(
                    src@,
                    start as int,
                ) == Err::<Seq<(u32, u32)>, DecodeError>(e),
            decreases src@.len() - *offset,
        {
            let ghost cur = *offset as int;
            let ty = match codec::read_u8(src, offset) {
                Ok(v) => v,
                Err(e) => {
                    *offset = start;
                    return Err(e);
                },
            };
            let pair: (u32, u32) = if ty == RECORD_TYPE_SINGLE {
                let id = match codec::read_u24_le(src, offset) {
                    Ok(v) => v,
                    Err(e) => {
                        *offset = start;
                        return Err(e);
                    },
                };
                (id, id)
            } else if ty == RECORD_TYPE_RANGE {
                let st = match codec::read_u24_le(src, offset) {
                    Ok(v) => v,
                    Err(e) => {
                        *offset = start;
                        return Err(e);
                    },
                };
                let en = match codec::read_u24_le(src, offset) {
                    Ok(v) => v,
                    Err(e) => {
                        *offset = start;
                        return Err(e);
                    },
                };
                (st, en)
            } else {
                *offset = start;
                return Err(DecodeError::OutOfRange);
            };
            proof {
                if parse_records(src@, *offset as int) is Ok {
                    let rest = parse_records(src@, *offset as int)->Ok_0;
                    assert(raw@ + (seq![pair] + rest) =~= (raw@ + seq![pair]) + rest);
                }
                assert(raw@.push(pair) =~= raw@ + seq![pair]);
            }
            raw.push(pair);
        }
        proof {
            assert(parse_records(src@, *offset as int) == Ok::<Seq<(u32, u32)>, DecodeError>(
                Seq::empty(),
            ));
            assert(raw@ + Seq::<(u32, u32)>::empty() =~= raw@);
        }
        let mut sorted: Vec<(u32, u32)> = Vec::new();
        let mut i: usize = 0;
        while i < raw.len()
            invariant
                i <= raw@.len(),
                bounded(raw@),
                sorted@ == sort_pairs(raw@.subrange(0, i as int)),
            decreases raw@.len() - i,
        {
            proof {
                assert(raw@.subrange(0, i as int + 1).drop_last() =~= raw@.subrange(0, i as int));
                assert(raw@.subrange(0, i as int + 1).last() == raw@[i as int]);
            }
            insert_sorted(&mut sorted, raw[i]);
            i = i + 1;
        }
        proof {
            assert(raw@.subrange(0, raw@.len() as int) =~= raw@);
            lemma_sort_pairs(raw@);
        }
        let mut out: Vec<(u32, u32)> = Vec::new();
        let mut lo: u32 = 0;
        let mut j: usize = 0;
        proof {
            assert(sorted@.subrange(0, sorted@.len() as int) =~= sorted@);
            assert(out@ + sweep_from(sorted@.subrange(0, sorted@.len() as int), 0) =~= sweep_from(
                sorted@,
                0,
            ));
        }
        while j < sorted.len()
            invariant
                j <= sorted@.len(),
                lo <= 0x1000000,
                sorted_by_start(sorted@),
                bounded(sorted@),
                sweep_from(sorted@, 0) == out@ + sweep_from(
                    sorted@.subrange(j as int, sorted@.len() as int),
                    lo as int,
                ),
            decreases sorted@.len() - j,
        {
            let p = sorted[j];
            proof {
                let rem = sorted@.subrange(j as int, sorted@.len() as int);
                assert(rem.first() == sorted@[j as int]);
                assert(rem.drop_first() =~= sorted@.subrange(j as int + 1, sorted@.len() as int));
            }
            let s2 = if p.0 > lo {
                p.0
            } else {
                lo
            };
            if s2 <= p.1 {
                proof {
                    let rem = sorted@.subrange(j as int, sorted@.len() as int);
                    assert(out@ + (seq![(s2 as u32, p.1)] + sweep_from(
                        rem.drop_first(),
                        p.1 + 1,
                    )) =~= (out@ + seq![(s2 as u32, p.1)]) + sweep_from(rem.drop_first(), p.1 + 1));
                    assert(out@.push((s2, p.1)) =~= out@ + seq![(s2, p.1)]);
                }
                out.push((s2, p.1));
                lo = p.1 + 1;
            }
            j = j + 1;
        }
        proof {
            assert(sorted@.subrange(sorted@.len() as int, sorted@.len() as int)
                =~= Seq::<(u32, u32)>::empty());
            assert(out@ + Seq::<(u32, u32)>::empty() =~= out@);
            lemma_sweep_wf(sorted@, 0);
        }
        Ok(TriadList { pairs: out })
    }
}

/// Inserts a pair into a run sorted by start, keeping it sorted.
fn insert_sorted(vec: &mut Vec<(u32, u32)>, p: (u32, u32))
    ensures
        final(vec)@ == insert_pair(old(vec)@, p),
    decreases old(vec)@.len(),
{
    let n = vec.len();
    if n == 0 {
        vec.push(p);
        assert(vec@ =~= insert_pair(old(vec)@, p));
    } else {
        let last = vec[n - 1];
        if last.0 <= p.0 {
            vec.push(p);
        } else {
            let popped = match vec.pop() {
                Some(q) => q,
                None => {
                    return ;
                },
            };
            insert_sorted(vec, p);
            vec.push(popped);
        }
    }
}

/// Acknowledges that datagrams were received: the sequence numbers carried
/// by an ack payload.
#[derive(Clone, Debug, PartialEq)]
pub struct Ack {
    pub packets: Vec<u32>,
}

/// Acknowledges that datagrams were missed: the sequence numbers carried
/// by a nack payload.
#[derive(Clone, Debug, PartialEq)]
pub struct Nack {
    pub packets: Vec<u32>,
}

impl Ack {
    /// The held numbers are strictly increasing triads.
    pub open spec fn wf(self) -> bool {
        sorted_nums(self.packets@)
    }

    /// Creates an `Ack` packet.
    pub fn new(vec: Vec<u32>) -> (r: Ack)
        requires
            sorted_nums(vec@),
        ensures
            r.packets@ == vec@,
            r.wf(),
    {
        Ack { packets: vec }
    }

    /// The sequence numbers of datagrams acknowledged in this packet.
    pub fn packets(&self) -> (r: &Vec<u32>)
        ensures
            r@ == self.packets@,
    {
        &self.packets
    }

    /// Appends the coalesced records of the held numbers.
    pub fn write(&self, vec: &mut Vec<u8>)
        requires
            self.wf(),
        ensures
            final(vec)@ == old(vec)@ + records_wire(cluster(self.packets@)),
    {
        let list = TriadList::from_sorted(&self.packets);
        list.write(vec);
    }

    /// Reads records until the buffer is exhausted and expands them to
    /// sorted packet numbers.
    pub fn read(src: &Vec<u8>, offset: &mut usize) -> (r: Result<Ack, DecodeError>)
        ensures
            match parse_records(src@, *old(offset) as int) {
                Ok(raw) => r matches Ok(a) && a.packets@ == flatten_pairs(normalize(raw)) && a.wf()
                    && *final(offset) == src@.len(),
                Err(e) => r == Err::<Ack, DecodeError>(e) && *final(offset) == *old(offset),
            },
    {
        match TriadList::read(src, offset) {
            Ok(l) => Ok(Ack { packets: l.to_sorted() }),
            Err(e) => Err(e),
        }
    }
}

impl Nack {
    /// The held numbers are strictly increasing triads.
    pub open spec fn wf(self) -> bool {
        sorted_nums(self.packets@)
    }

    /// Creates a `Nack` packet.
    pub fn new(vec: Vec<u32>) -> (r: Nack)
        requires
            sorted_nums(vec@),
        ensures
            r.packets@ == vec@,
            r.wf(),
    {
        Nack { packets: vec }
    }

    /// The sequence numbers of datagrams reported missing in this packet.
    pub fn packets(&self) -> (r: &Vec<u32>)
        ensures
            r@ == self.packets@,
    {
        &self.packets
    }

    /// Appends the coalesced records of the held numbers.
    pub fn write(&self, vec: &mut Vec<u8>)
        requires
            self.wf(),
        ensures
            final(vec)@ == old(vec)@ + records_wire(cluster(self.packets@)),
    {
        let list = TriadList::from_sorted(&self.packets);
        list.write(vec);
    }

    /// Reads records until the buffer is exhausted and expands them to
    /// sorted packet numbers.
    pub fn read(src: &Vec<u8>, offset: &mut usize) -> (r: Result<Nack, DecodeError>)
        ensures
            match parse_records(src@, *old(offset) as int) {
                Ok(raw) => r matches Ok(a) && a.packets@ == flatten_pairs(normalize(raw)) && a.wf()
                    && *final(offset) == src@.len(),
                Err(e) => r == Err::<Nack, DecodeError>(e) && *final(offset) == *old(offset),
            },
    {
        match TriadList::read(src, offset) {
            Ok(l) => Ok(Nack { packets: l.to_sorted() }),
            Err(e) => Err(e),
        }
    }
}

} // verus!
