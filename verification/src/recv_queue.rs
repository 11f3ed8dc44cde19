//! Receive-side reassembly: datagram sequence-number deduplication and ack
//! recording, split-group buffering until a submission's fragments are all
//! present, and the sequenced-channel filter.

use vstd::prelude::*;

use crate::acklist::sorted_nums;
use crate::error::RecvError;
use crate::reliability::Split;
use crate::triad::Triad;

verus! {

/// The cap on buffered split groups; exceeding it is a fatal session
/// error.
pub const MAX_SPLIT_GROUPS: usize = 64;

/// The cap on fragments within one split group, so a descriptor cannot
/// demand an absurd allocation.
pub const MAX_SPLIT_COUNT: u32 = 0x10000;

/// The cap on held out-of-order ordered-channel packets; exceeding it is
/// a fatal session error.
pub const MAX_HELD_ORDERED: usize = 1024;

/// One partially reassembled submission: which fragment indices have
/// arrived, and their payloads.
pub struct SplitGroup {
    pub split_id: u16,
    pub split_count: u32,
    pub got: Vec<bool>,
    pub data: Vec<Vec<u8>>,
    pub received: u32,
}

impl SplitGroup {
    /// Arrival marks and payload slots for every fragment, the received
    /// counter matching the marks.
    pub open spec fn wf(self) -> bool {
        &&& 1 <= self.split_count <= MAX_SPLIT_COUNT
        &&& self.got@.len() == self.split_count
        &&& self.data@.len() == self.split_count
        &&& self.received == count_true(self.got@)
    }
}

/// What a split group holds: its id, its fragment count, the arrival
/// marks, and the payloads.
pub type GroupModel = (u16, u32, Seq<bool>, Seq<Seq<u8>>);

/// The model of one group.
pub open spec fn group_model(g: SplitGroup) -> GroupModel {
    (g.split_id, g.split_count, g.got@, g.data@.map_values(|v: Vec<u8>| v@))
}

/// The models of all buffered groups.
pub open spec fn splits_model(gs: Seq<SplitGroup>) -> Seq<GroupModel> {
    gs.map_values(|g: SplitGroup| group_model(g))
}

/// How many marks are set.
pub open spec fn count_true(s: Seq<bool>) -> int
    decreases s.len(),
{
    if s.len() == 0 {
        0
    } else {
        (if s.first() {
            1int
        } else {
            0int
        }) + count_true(s.drop_first())
    }
}

/// Setting a clear mark raises the count by one.
proof fn lemma_count_true_update(s: Seq<bool>, i: int)
    requires
        0 <= i < s.len(),
        !s[i],
    ensures
        count_true(s.update(i, true)) == count_true(s) + 1,
    decreases s.len(),
{
    if i == 0 {
        assert(s.update(0, true).drop_first() =~= s.drop_first());
    } else {
        assert(s.update(i, true).drop_first() =~= s.drop_first().update(i - 1, true));
        lemma_count_true_update(s.drop_first(), i - 1);
    }
}

/// The count never exceeds the length.
proof fn lemma_count_true_bound(s: Seq<bool>)
    ensures
        0 <= count_true(s) <= s.len(),
    decreases s.len(),
{
    if s.len() > 0 {
        lemma_count_true_bound(s.drop_first());
    }
}

/// A full count means every mark is set.
proof fn lemma_count_true_full(s: Seq<bool>)
    requires
        count_true(s) == s.len(),
    ensures
        forall|t: int| 0 <= t < s.len() ==> s[t],
    decreases s.len(),
{
    if s.len() > 0 {
        lemma_count_true_bound(s.drop_first());
        lemma_count_true_full(s.drop_first());
        assert(forall|t: int| 1 <= t < s.len() ==> s[t] == s.drop_first()[t - 1]);
    }
}

/// No mark is set in an all-clear run.
proof fn lemma_count_true_zero(n: nat)
    ensures
        count_true(Seq::new(n, |u: int| false)) == 0,
    decreases n,
{
    if n > 0 {
        assert(Seq::new(n, |u: int| false).drop_first() =~= Seq::new(
            (n - 1) as nat,
            |u: int| false,
        ));
        lemma_count_true_zero((n - 1) as nat);
    }
}

/// The concatenation of byte strings, in order.
pub open spec fn flatten_seqs(ds: Seq<Seq<u8>>) -> Seq<u8>
    decreases ds.len(),
{
    if ds.len() == 0 {
        Seq::empty()
    } else {
        ds.first() + flatten_seqs(ds.drop_first())
    }
}

/// Appending a byte string appends it to the concatenation.
pub proof fn lemma_flatten_seqs_push(ds: Seq<Seq<u8>>, d: Seq<u8>)
    ensures
        flatten_seqs(ds.push(d)) == flatten_seqs(ds) + d,
    decreases ds.len(),
{
    if ds.len() == 0 {
        assert(ds =~= Seq::<Seq<u8>>::empty());
        assert(ds.push(d).drop_first() =~= Seq::<Seq<u8>>::empty());
        assert(flatten_seqs(ds.push(d)) =~= flatten_seqs(ds) + d);
    } else {
        assert(ds.push(d).drop_first() =~= ds.drop_first().push(d));
        assert(ds.push(d).first() == ds.first());
        lemma_flatten_seqs_push(ds.drop_first(), d);
        assert(flatten_seqs(ds.push(d)) =~= flatten_seqs(ds) + d);
    }
}

/// The concatenation of the first `t` byte strings.
pub open spec fn flatten_prefix(ds: Seq<Seq<u8>>, t: int) -> Seq<u8> {
    flatten_seqs(ds.subrange(0, t))
}

/// Extending the prefix appends the next byte string.
proof fn lemma_flatten_prefix_step(ds: Seq<Seq<u8>>, t: int)
    requires
        0 <= t < ds.len(),
    ensures
        flatten_prefix(ds, t + 1) == flatten_prefix(ds, t) + ds[t],
{
    assert(ds.subrange(0, t + 1) =~= ds.subrange(0, t).push(ds[t]));
    lemma_flatten_seqs_push(ds.subrange(0, t), ds[t]);
}

/// The whole run is its own prefix.
proof fn lemma_flatten_prefix_all(ds: Seq<Seq<u8>>)
    ensures
        flatten_prefix(ds, ds.len() as int) == flatten_seqs(ds),
{
    assert(ds.subrange(0, ds.len() as int) =~= ds);
}

/// The first buffered group carrying the id, or `-1`.
pub open spec fn find_group(gs: Seq<GroupModel>, id: u16) -> int
    decreases gs.len(),
{
    if gs.len() == 0 {
        -1
    } else if gs.first().0 == id {
        0
    } else {
        let r = find_group(gs.drop_first(), id);
        if r < 0 {
            -1
        } else {
            r + 1
        }
    }
}

/// The first group at or past `from` carrying the id, or `-1`.
pub open spec fn find_tail(gs: Seq<GroupModel>, id: u16, from: int) -> int
    decreases gs.len() - from,
{
    if !(0 <= from < gs.len()) {
        -1
    } else if gs[from].0 == id {
        from
    } else {
        find_tail(gs, id, from + 1)
    }
}

/// Searching a tail is searching the dropped-head run shifted by one.
proof fn lemma_find_tail_shift(gs: Seq<GroupModel>, id: u16, from: int)
    requires
        1 <= from,
        1 <= gs.len(),
    ensures
        find_tail(gs, id, from) == (if find_tail(gs.drop_first(), id, from - 1) < 0 {
            -1int
        } else {
            find_tail(gs.drop_first(), id, from - 1) + 1
        }),
    decreases gs.len() - from,
{
    let d = gs.drop_first();
    if from >= gs.len() {
        assert(find_tail(gs, id, from) == -1);
        assert(find_tail(d, id, from - 1) == -1);
    } else {
        assert(d[from - 1] == gs[from]);
        if gs[from].0 == id {
            assert(find_tail(gs, id, from) == from);
            assert(find_tail(d, id, from - 1) == from - 1);
        } else {
            lemma_find_tail_shift(gs, id, from + 1);
            assert(find_tail(gs, id, from) == find_tail(gs, id, from + 1));
            assert(find_tail(d, id, from - 1) == find_tail(d, id, from));
        }
    }
}

/// The search from the front agrees with the recursive definition.
proof fn lemma_find_group_is_tail(gs: Seq<GroupModel>, id: u16)
    ensures
        find_tail(gs, id, 0) == find_group(gs, id),
    decreases gs.len(),
{
    if gs.len() > 0 && gs.first().0 != id {
        lemma_find_group_is_tail(gs.drop_first(), id);
        lemma_find_tail_shift(gs, id, 1);
    }
}

/// The model of a fresh group created by its first fragment.
pub open spec fn fresh_group(sp: Split, payload: Seq<u8>) -> GroupModel {
    (
        sp.split_id,
        sp.split_count,
        Seq::new(sp.split_count as nat, |t: int| t == sp.split_index as int),
        Seq::new(
            sp.split_count as nat,
            |t: int|
                if t == sp.split_index as int {
                    payload
                } else {
                    Seq::empty()
                },
        ),
    )
}

/// What one fragment does to the buffered groups: an unusable descriptor
/// is a mismatch; a fragment for a fresh group either completes a
/// one-fragment submission at once, claims a new group slot (there are at
/// most `MAX_SPLIT_GROUPS`), or is refused; a fragment for a known group
/// must agree on the count, is dropped when its index already arrived,
/// and otherwise fills its slot — the group that becomes complete is
/// removed and its payloads are handed out concatenated in index order.
pub open spec fn accept_fragment_spec(gs: Seq<GroupModel>, sp: Split, payload: Seq<u8>) -> Result<
    (Seq<GroupModel>, Option<Seq<u8>>),
    RecvError,
> {
    if sp.split_count < 1 || sp.split_count > MAX_SPLIT_COUNT || sp.split_index
        >= sp.split_count {
        Err(RecvError::SplitMismatch)
    } else {
        let gi = find_group(gs, sp.split_id);
        if gi < 0 {
            if sp.split_count == 1 {
                Ok((gs, Some(payload)))
            } else if gs.len() >= MAX_SPLIT_GROUPS {
                Err(RecvError::TooManySplitGroups)
            } else {
                Ok((gs.push(fresh_group(sp, payload)), None))
            }
        } else {
            let g = gs[gi];
            if g.1 != sp.split_count {
                Err(RecvError::SplitMismatch)
            } else if g.2[sp.split_index as int] {
                Ok((gs, None))
            } else {
                let got2 = g.2.update(sp.split_index as int, true);
                let data2 = g.3.update(sp.split_index as int, payload);
                if count_true(got2) == g.1 {
                    Ok((gs.remove(gi), Some(flatten_seqs(data2))))
                } else {
                    Ok((gs.update(gi, (g.0, g.1, got2, data2)), None))
                }
            }
        }
    }
}

/// Insertion of a number into a strictly sorted run; a number already
/// present leaves the run unchanged.
pub open spec fn insert_num(s: Seq<u32>, v: u32) -> Seq<u32>
    decreases s.len(),
{
    if s.len() == 0 {
        seq![v]
    } else if s.last() == v {
        s
    } else if s.last() < v {
        s.push(v)
    } else {
        insert_num(s.drop_last(), v).push(s.last())
    }
}

/// Strict sortedness carries across any gap, not only neighbours.
proof fn lemma_sorted_nums_increasing(s: Seq<u32>, a: int, b: int)
    requires
        sorted_nums(s),
        0 <= a < b < s.len(),
    ensures
        s[a] < s[b],
    decreases b - a,
{
    if a + 1 < b {
        lemma_sorted_nums_increasing(s, a + 1, b);
    }
}

/// Insertion keeps a strictly sorted run of triads strictly sorted.
proof fn lemma_insert_num_sorted(s: Seq<u32>, v: u32)
    requires
        sorted_nums(s),
        v < 0x1000000,
    ensures
        sorted_nums(insert_num(s, v)),
    decreases s.len(),
{
    if s.len() == 0 {
    } else if s.last() == v {
    } else if s.last() < v {
        assert forall|a: int, b: int|
            0 <= a < b < s.push(v).len() implies #[trigger] s.push(v)[a] < #[trigger] s.push(
            v,
        )[b] by {
            if b < s.len() {
                lemma_sorted_nums_increasing(s, a, b);
            } else {
                if a < s.len() - 1 {
                    lemma_sorted_nums_increasing(s, a, s.len() - 1);
                }
            }
        };
        assert(sorted_nums(s.push(v))) by {
            assert(forall|t: int|
                0 <= t < s.push(v).len() - 1 ==> (#[trigger] s.push(v)[t]) < s.push(v)[t + 1]);
        };
    } else {
        let d = s.drop_last();
        assert(sorted_nums(d)) by {
            assert(forall|t: int| 0 <= t < d.len() ==> d[t] == s[t]);
        };
        lemma_insert_num_sorted(d, v);
        let q0 = insert_num(d, v);
        assert forall|a: int| 0 <= a < q0.len() implies (#[trigger] q0[a]) < s.last() by {
            lemma_insert_num_members(d, v);
            if q0[a] != v {
                assert(d.contains(q0[a]));
                let u = choose|u: int| 0 <= u < d.len() && d[u] == q0[a];
                assert(d[u] == s[u]);
                lemma_sorted_nums_increasing(s, u, s.len() - 1);
            }
        };
        lemma_insert_num_members(d, v);
        assert(sorted_nums(q0.push(s.last()))) by {
            assert(forall|t: int|
                0 <= t < q0.push(s.last()).len() ==> (#[trigger] q0.push(s.last())[t])
                    < 0x1000000);
        };
    }
}

/// Everything in the insertion result was there before or is the new
/// number.
proof fn lemma_insert_num_members(s: Seq<u32>, v: u32)
    ensures
        forall|t: int|
            0 <= t < insert_num(s, v).len() ==> (#[trigger] insert_num(s, v)[t]) == v
                || s.contains(insert_num(s, v)[t]),
    decreases s.len(),
{
    if s.len() == 0 {
    } else if s.last() == v {
        assert(forall|t: int| 0 <= t < s.len() ==> s.contains(#[trigger] s[t]));
    } else if s.last() < v {
        assert(forall|t: int|
            0 <= t < s.len() ==> s.contains(#[trigger] s.push(v)[t]) || s.push(v)[t] == v);
    } else {
        let d = s.drop_last();
        lemma_insert_num_members(d, v);
        let q0 = insert_num(d, v);
        assert forall|t: int| 0 <= t < q0.push(s.last()).len() implies (#[trigger] q0.push(
            s.last(),
        )[t]) == v || s.contains(q0.push(s.last())[t]) by {
            if t < q0.len() {
                if q0[t] != v {
                    assert(d.contains(q0[t]));
                    let u = choose|u: int| 0 <= u < d.len() && d[u] == q0[t];
                    assert(s[u] == q0[t]);
                }
            } else {
                assert(q0.push(s.last())[t] == s[s.len() - 1]);
            }
        };
    }
}

/// Whether a run of numbers holds the given one.
fn contains_num(v: &Vec<u32>, x: u32) -> (r: bool)
    ensures
        r == v@.contains(x),
{
    let mut t: usize = 0;
    while t < v.len()
        invariant
            t <= v@.len(),
            forall|u: int| 0 <= u < t ==> v@[u] != x,
        decreases v@.len() - t,
    {
        if v[t] == x {
            return true;
        }
        t = t + 1;
    }
    false
}

/// Inserts a number into a strictly sorted vector, keeping it sorted.
fn insert_sorted_num(vec: &mut Vec<u32>, v: u32)
    ensures
        final(vec)@ == insert_num(old(vec)@, v),
    decreases old(vec)@.len(),
{
    let n = vec.len();
    if n == 0 {
        vec.push(v);
        assert(vec@ =~= insert_num(old(vec)@, v));
    } else {
        let last = vec[n - 1];
        if last == v {
        } else if last < v {
            vec.push(v);
        } else {
            let popped = match vec.pop() {
                Some(q) => q,
                None => {
                    return ;
                },
            };
            insert_sorted_num(vec, v);
            vec.push(popped);
        }
    }
}

/// Finds the buffered group with the given id.
fn find_group_index(splits: &Vec<SplitGroup>, id: u16) -> (r: Option<usize>)
    ensures
        match r {
            Some(gi) => find_group(splits_model(splits@), id) == gi && gi < splits@.len()
                && splits@[gi as int].split_id == id,
            None => find_group(splits_model(splits@), id) == -1,
        },
{
    proof {
        lemma_find_group_is_tail(splits_model(splits@), id);
    }
    let mut gi: usize = 0;
    while gi < splits.len()
        invariant
            gi <= splits@.len(),
            find_group(splits_model(splits@), id) == find_tail(
                splits_model(splits@),
                id,
                gi as int,
            ),
        decreases splits@.len() - gi,
    {
        if splits[gi].split_id == id {
            return Some(gi);
        }
        gi = gi + 1;
    }
    None
}

/// What one held out-of-order packet carries: its channel, its order
/// index, and its payload.
pub type HeldModel = (u8, u32, Seq<u8>);

/// The models of the held out-of-order packets.
pub open spec fn held_model(h: Seq<(u8, u32, Vec<u8>)>) -> Seq<HeldModel> {
    h.map_values(|e: (u8, u32, Vec<u8>)| (e.0, e.1, e.2@))
}

/// The first held packet for the channel and order index, or `-1`.
pub open spec fn find_held(h: Seq<HeldModel>, c: u8, n: u32) -> int
    decreases h.len(),
{
    if h.len() == 0 {
        -1
    } else if h.first().0 == c && h.first().1 == n {
        0
    } else {
        let r = find_held(h.drop_first(), c, n);
        if r < 0 {
            -1
        } else {
            r + 1
        }
    }
}

/// The first held packet at or past `from`, or `-1`.
pub open spec fn find_held_tail(h: Seq<HeldModel>, c: u8, n: u32, from: int) -> int
    decreases h.len() - from,
{
    if !(0 <= from < h.len()) {
        -1
    } else if h[from].0 == c && h[from].1 == n {
        from
    } else {
        find_held_tail(h, c, n, from + 1)
    }
}

/// Searching a tail is searching the dropped-head run shifted by one.
proof fn lemma_find_held_tail_shift(h: Seq<HeldModel>, c: u8, n: u32, from: int)
    requires
        1 <= from,
        1 <= h.len(),
    ensures
        find_held_tail(h, c, n, from) == (if find_held_tail(h.drop_first(), c, n, from - 1) < 0 {
            -1int
        } else {
            find_held_tail(h.drop_first(), c, n, from - 1) + 1
        }),
    decreases h.len() - from,
{
    let d = h.drop_first();
    if from >= h.len() {
        assert(find_held_tail(h, c, n, from) == -1);
        assert(find_held_tail(d, c, n, from - 1) == -1);
    } else {
        assert(d[from - 1] == h[from]);
        if h[from].0 == c && h[from].1 == n {
            assert(find_held_tail(h, c, n, from) == from);
            assert(find_held_tail(d, c, n, from - 1) == from - 1);
        } else {
            lemma_find_held_tail_shift(h, c, n, from + 1);
            assert(find_held_tail(h, c, n, from) == find_held_tail(h, c, n, from + 1));
            assert(find_held_tail(d, c, n, from - 1) == find_held_tail(d, c, n, from));
        }
    }
}

/// The search from the front agrees with the recursive definition.
proof fn lemma_find_held_is_tail(h: Seq<HeldModel>, c: u8, n: u32)
    ensures
        find_held_tail(h, c, n, 0) == find_held(h, c, n),
    decreases h.len(),
{
    if h.len() > 0 && !(h.first().0 == c && h.first().1 == n) {
        lemma_find_held_is_tail(h.drop_first(), c, n);
        lemma_find_held_tail_shift(h, c, n, 1);
    }
}

/// Finds the held packet for the channel and order index.
fn find_held_index(held: &Vec<(u8, u32, Vec<u8>)>, c: u8, n: u32) -> (r: Option<usize>)
    ensures
        match r {
            Some(i) => find_held(held_model(held@), c, n) == i && i < held@.len()
                && held@[i as int].0 == c && held@[i as int].1 == n,
            None => find_held(held_model(held@), c, n) == -1,
        },
{
    proof {
        lemma_find_held_is_tail(held_model(held@), c, n);
    }
    let mut i: usize = 0;
    while i < held.len()
        invariant
            i <= held@.len(),
            find_held(held_model(held@), c, n) == find_held_tail(
                held_model(held@),
                c,
                n,
                i as int,
            ),
        decreases held@.len() - i,
    {
        let e = &held[i];
        if e.0 == c && e.1 == n {
            return Some(i);
        }
        i = i + 1;
    }
    None
}

/// The per-session receive state: the datagram sequence numbers already
/// seen and those pending ack emission, the buffered split groups, and
/// the per-channel sequenced watermark.
pub struct RecvQueue {
    pub seen: Vec<u32>,
    pub pending_ack: Vec<u32>,
    pub splits: Vec<SplitGroup>,
    pub next_sequence: Vec<u32>,
    pub next_order: Vec<u32>,
    pub held: Vec<(u8, u32, Vec<u8>)>,
}

impl RecvQueue {
    /// The number lists stay strictly sorted triads, the groups well
    /// formed and within the cap, and one watermark per channel.
    pub open spec fn wf(self) -> bool {
        &&& sorted_nums(self.seen@)
        &&& sorted_nums(self.pending_ack@)
        &&& self.splits@.len() <= MAX_SPLIT_GROUPS
        &&& forall|t: int| 0 <= t < self.splits@.len() ==> (#[trigger] self.splits@[t]).wf()
        &&& self.next_sequence@.len() == 32
        &&& self.next_order@.len() == 32
        &&& self.held@.len() <= MAX_HELD_ORDERED
    }

    /// A fresh receive state.
    pub fn new() -> (r: RecvQueue)
        ensures
            r.wf(),
            r.seen@.len() == 0,
            r.pending_ack@.len() == 0,
            r.splits@.len() == 0,
            forall|c: int| 0 <= c < 32 ==> #[trigger] r.next_sequence@[c] == 0,
            forall|c: int| 0 <= c < 32 ==> #[trigger] r.next_order@[c] == 0,
            r.held@.len() == 0,
    {
        let mut next_sequence: Vec<u32> = Vec::new();
        let mut c: usize = 0;
        while c < 32
            invariant
                c <= 32,
                next_sequence@.len() == c,
                forall|t: int| 0 <= t < c ==> #[trigger] next_sequence@[t] == 0,
            decreases 32 - c,
        {
            next_sequence.push(0);
            c = c + 1;
        }
        let mut next_order: Vec<u32> = Vec::new();
        let mut c2: usize = 0;
        while c2 < 32
            invariant
                c2 <= 32,
                next_order@.len() == c2,
                forall|t: int| 0 <= t < c2 ==> #[trigger] next_order@[t] == 0,
            decreases 32 - c2,
        {
            next_order.push(0);
            c2 = c2 + 1;
        }
        RecvQueue {
            seen: Vec::new(),
            pending_ack: Vec::new(),
            splits: Vec::new(),
            next_sequence,
            next_order,
            held: Vec::new(),
        }
    }

    /// Records an arriving datagram's sequence number for ack emission.
    /// Returns whether it is fresh; the body of a repeated datagram is to
    /// be dropped.
    pub fn register_datagram(&mut self, seq: Triad) -> (fresh: bool)
        requires
            old(self).wf(),
            seq.wf(),
        ensures
            final(self).wf(),
            fresh == !old(self).seen@.contains(seq.0),
            fresh ==> final(self).seen@ == insert_num(old(self).seen@, seq.0)
                && final(self).pending_ack@ == insert_num(old(self).pending_ack@, seq.0),
            !fresh ==> *final(self) == *old(self),
            final(self).splits == old(self).splits,
            final(self).next_sequence == old(self).next_sequence,
    {
        if contains_num(&self.seen, seq.0) {
            return false;
        }
        insert_sorted_num(&mut self.seen, seq.0);
        insert_sorted_num(&mut self.pending_ack, seq.0);
        proof {
            lemma_insert_num_sorted(old(self).seen@, seq.0);
            lemma_insert_num_sorted(old(self).pending_ack@, seq.0);
        }
        true
    }

    /// Hands over the sequence numbers pending ack emission, sorted and
    /// deduplicated, and clears them.
    pub fn take_ack_list(&mut self) -> (r: Vec<u32>)
        requires
            old(self).wf(),
        ensures
            final(self).wf(),
            r@ == old(self).pending_ack@,
            sorted_nums(r@),
            final(self).pending_ack@.len() == 0,
            final(self).seen == old(self).seen,
            final(self).splits == old(self).splits,
            final(self).next_sequence == old(self).next_sequence,
    {
        let mut out: Vec<u32> = Vec::new();
        core::mem::swap(&mut out, &mut self.pending_ack);
        out
    }

    /// The sequenced-channel filter: a packet at or past the channel's
    /// watermark is delivered and advances it; an older one is dropped.
    pub fn accept_sequenced(&mut self, channel: u8, sequence_index: Triad) -> (deliver: bool)
        requires
            old(self).wf(),
            channel < 32,
            sequence_index.wf(),
        ensures
            final(self).wf(),
            deliver == (sequence_index.0 >= old(self).next_sequence@[channel as int]),
            deliver ==> final(self).next_sequence@ == old(self).next_sequence@.update(
                channel as int,
                (sequence_index.0 + 1) as u32,
            ),
            !deliver ==> *final(self) == *old(self),
            final(self).seen == old(self).seen,
            final(self).pending_ack == old(self).pending_ack,
            final(self).splits == old(self).splits,
    {
        let c = channel as usize;
        if sequence_index.0 >= self.next_sequence[c] {
            self.next_sequence.set(c, sequence_index.0 + 1);
            true
        } else {
            false
        }
    }

    /// The ordered-channel reassembler's intake: the packet at the
    /// channel's expected index is delivered at once; a later one is held
    /// (within the cap) until the gap fills; an earlier or repeated one
    /// is dropped.  After a delivery, held successors are released one by
    /// one through `pop_ready`.
    pub fn accept_ordered(&mut self, channel: u8, order_index: Triad, payload: Vec<u8>) -> (r:
        Result<Option<Vec<u8>>, RecvError>)
        requires
            old(self).wf(),
            channel < 32,
            order_index.wf(),
        ensures
            final(self).wf(),
            order_index.0 < old(self).next_order@[channel as int] ==> r == Ok::<
                Option<Vec<u8>>,
                RecvError,
            >(None) && *final(self) == *old(self),
            order_index.0 == old(self).next_order@[channel as int] ==> (r matches Ok(o)
                && o matches Some(v) && v@ == payload@) && final(self).next_order@ == old(
                self,
            ).next_order@.update(channel as int, (order_index.0 + 1) as u32) && final(self).held
                == old(self).held,
            order_index.0 > old(self).next_order@[channel as int] ==> {
                if find_held(held_model(old(self).held@), channel, order_index.0) >= 0 {
                    r == Ok::<Option<Vec<u8>>, RecvError>(None) && *final(self) == *old(self)
                } else if old(self).held@.len() >= MAX_HELD_ORDERED {
                    r == Err::<Option<Vec<u8>>, RecvError>(RecvError::TooManyHeldOrdered)
                        && *final(self) == *old(self)
                } else {
                    r == Ok::<Option<Vec<u8>>, RecvError>(None) && held_model(final(self).held@)
                        == held_model(old(self).held@).push(
                        (channel, order_index.0, payload@),
                    ) && final(self).next_order == old(self).next_order
                }
            },
            final(self).seen == old(self).seen,
            final(self).pending_ack == old(self).pending_ack,
            final(self).splits == old(self).splits,
            final(self).next_sequence == old(self).next_sequence,
    {
        let c = channel as usize;
        let expected = self.next_order[c];
        if order_index.0 < expected {
            Ok(None)
        } else if order_index.0 == expected {
            self.next_order.set(c, order_index.0 + 1);
            Ok(Some(payload))
        } else {
            match find_held_index(&self.held, channel, order_index.0) {
                Some(_) => Ok(None),
                None => {
                    if self.held.len() >= MAX_HELD_ORDERED {
                        return Err(RecvError::TooManyHeldOrdered);
                    }
                    let entry = (channel, order_index.0, payload);
                    proof {
                        assert(held_model(self.held@.push(entry)) =~= held_model(
                            self.held@,
                        ).push((channel, order_index.0, entry.2@)));
                    }
                    self.held.push(entry);
                    Ok(None)
                },
            }
        }
    }

    /// Releases the held packet at the channel's expected index, if it
    /// has arrived, and advances the channel past it.  Calling this until
    /// it yields nothing drains everything a fresh delivery unblocked.
    pub fn pop_ready(&mut self, channel: u8) -> (r: Option<Vec<u8>>)
        requires
            old(self).wf(),
            channel < 32,
            old(self).next_order@[channel as int] < 0x1000000,
        ensures
            final(self).wf(),
            ({
                let i = find_held(
                    held_model(old(self).held@),
                    channel,
                    old(self).next_order@[channel as int],
                );
                if i < 0 {
                    r is None && *final(self) == *old(self)
                } else {
                    (r matches Some(v) && v@ == held_model(old(self).held@)[i].2) && held_model(
                        final(self).held@,
                    ) == held_model(old(self).held@).remove(i) && final(self).next_order@ == old(
                        self,
                    ).next_order@.update(
                        channel as int,
                        (old(self).next_order@[channel as int] + 1) as u32,
                    )
                }
            }),
            final(self).seen == old(self).seen,
            final(self).pending_ack == old(self).pending_ack,
            final(self).splits == old(self).splits,
            final(self).next_sequence == old(self).next_sequence,
    {
        let c = channel as usize;
        let expected = self.next_order[c];
        match find_held_index(&self.held, channel, expected) {
            None => None,
            Some(i) => {
                let entry = self.held.remove(i);
                proof {
                    assert(held_model(old(self).held@.remove(i as int)) =~= held_model(
                        old(self).held@,
                    ).remove(i as int));
                }
                self.next_order.set(c, expected + 1);
                Some(entry.2)
            },
        }
    }

    /// Buffers one fragment; when it completes its split group, the
    /// reconstituted payload is returned and the group is dropped.
    #[verifier::rlimit(100)]
    #[verifier::spinoff_prover]
    pub fn accept_fragment(&mut self, sp: Split, payload: Vec<u8>) -> (r: Result<
        Option<Vec<u8>>,
        RecvError,
    >)
        requires
            old(self).wf(),
        ensures
            final(self).wf(),
            match accept_fragment_spec(splits_model(old(self).splits@), sp, payload@) {
                Ok(m) => r matches Ok(o) && splits_model(final(self).splits@) == m.0 && (match m.1 {
                    Some(b) => o matches Some(v) && v@ == b,
                    None => o is None,
                }),
                Err(e) => r == Err::<Option<Vec<u8>>, RecvError>(e) && *final(self) == *old(self),
            },
            final(self).seen == old(self).seen,
            final(self).pending_ack == old(self).pending_ack,
            final(self).next_sequence == old(self).next_sequence,
    {
        if sp.split_count < 1 || sp.split_count > MAX_SPLIT_COUNT || sp.split_index
            >= sp.split_count {
            return Err(RecvError::SplitMismatch);
        }
        let found = find_group_index(&self.splits, sp.split_id);
        match found {
            None => {
                if sp.split_count == 1 {
                    return Ok(Some(payload));
                }
                if self.splits.len() >= MAX_SPLIT_GROUPS {
                    return Err(RecvError::TooManySplitGroups);
                }
                let count = sp.split_count as usize;
                let mut got: Vec<bool> = Vec::new();
                let mut data: Vec<Vec<u8>> = Vec::new();
                let mut t: usize = 0;
                while t < count
                    invariant
                        t <= count,
                        got@.len() == t,
                        data@.len() == t,
                        forall|u: int| 0 <= u < t ==> #[trigger] got@[u] == false,
                        forall|u: int| 0 <= u < t ==> (#[trigger] data@[u])@.len() == 0,
                    decreases count - t,
                {
                    got.push(false);
                    data.push(Vec::new());
                    t = t + 1;
                }
                let idx = sp.split_index as usize;
                proof {
                    assert(got@ =~= Seq::new(sp.split_count as nat, |u: int| false));
                    lemma_count_true_zero(sp.split_count as nat);
                    lemma_count_true_update(got@, idx as int);
                }
                got.set(idx, true);
                data.set(idx, payload);
                let group = SplitGroup {
                    split_id: sp.split_id,
                    split_count: sp.split_count,
                    got,
                    data,
                    received: 1,
                };
                proof {
                    assert(group.got@ =~= fresh_group(sp, payload@).2);
                    assert(group.data@.map_values(|v: Vec<u8>| v@) =~~= fresh_group(
                        sp,
                        payload@,
                    ).3);
                    assert(splits_model(self.splits@.push(group)) =~= splits_model(
                        self.splits@,
                    ).push(group_model(group)));
                }
                self.splits.push(group);
                Ok(None)
            },
            Some(gi) => {
                if self.splits[gi].split_count != sp.split_count {
                    return Err(RecvError::SplitMismatch);
                }
                let idx = sp.split_index as usize;
                if self.splits[gi].got[idx] {
                    return Ok(None);
                }
                let ghost pre_splits = self.splits@;
                let mut group = self.splits.remove(gi);
                proof {
                    assert(pre_splits.remove(gi as int)
                        =~= self.splits@);
                    lemma_count_true_update(group.got@, idx as int);
                    lemma_count_true_bound(group.got@);
                }
                let ghost old_model = group_model(group);
                group.got.set(idx, true);
                let ghost mid_data = group.data@;
                group.data.set(idx, payload);
                group.received = group.received + 1;
                proof {
                    assert(group.got@ =~= old_model.2.update(idx as int, true));
                    assert(group.data@.map_values(|v: Vec<u8>| v@) =~= old_model.3.update(
                        idx as int,
                        payload@,
                    ));
                }
                if group.received == group.split_count {
                    proof {
                        lemma_count_true_full(group.got@);
                        assert(splits_model(self.splits@) =~= splits_model(pre_splits).remove(
                            gi as int,
                        ));
                    }
                    let mut out: Vec<u8> = Vec::new();
                    let mut t: usize = 0;
                    let count = group.split_count as usize;
                    let ghost views = group.data@.map_values(|v: Vec<u8>| v@);
                    proof {
                        assert(flatten_prefix(views, 0) =~= Seq::<u8>::empty());
                        assert(out@ =~= flatten_prefix(views, 0));
                    }
                    while t < count
                        invariant
                            t <= count,
                            count == group.data@.len(),
                            views == group.data@.map_values(|v: Vec<u8>| v@),
                            out@ == flatten_prefix(views, t as int),
                        decreases count - t,
                    {
                        let mut piece = group.data[t].clone();
                        proof {
                            lemma_flatten_prefix_step(views, t as int);
                        }
                        out.append(&mut piece);
                        t = t + 1;
                    }
                    proof {
                        lemma_flatten_prefix_all(views);
                    }
                    Ok(Some(out))
                } else {
                    proof {
                        assert(splits_model(self.splits@.insert(gi as int, group))
                            =~= splits_model(pre_splits).update(gi as int, group_model(group)));
                    }
                    self.splits.insert(gi, group);
                    Ok(None)
                }
            },
        }
    }
}

} // verus!
