//! Ordering evaluated points by their order keys: stable sorting, the Pareto frontier,
//! the ranked lists that promotion and final selection draw from, and picking the best.
//!
//! An order key is a sequence of integers compared lexicographically; each real number
//! of a ranking stands in it as an integer that orders exactly as the number does.
use vstd::prelude::*;

verus! {

/// `a` comes strictly before `b` in lexicographic order.
pub open spec fn lex_lt(a: Seq<i64>, b: Seq<i64>) -> bool
    decreases a.len(),
{
    if a.len() == 0 {
        b.len() > 0
    } else if b.len() == 0 {
        false
    } else if a[0] != b[0] {
        a[0] < b[0]
    } else {
        lex_lt(a.drop_first(), b.drop_first())
    }
}

/// Whether key `a` orders strictly before key `b`.
pub fn key_less(a: &Vec<i64>, b: &Vec<i64>) -> (r: bool)
    ensures
        r == lex_lt(a@, b@),
{
    let mut i: usize = 0;
    assert(a@.skip(0) =~= a@);
    assert(b@.skip(0) =~= b@);
    while i < a.len() && i < b.len()
        invariant
            i <= a.len(),
            i <= b.len(),
            lex_lt(a@, b@) == lex_lt(a@.skip(i as int), b@.skip(i as int)),
        decreases a.len() - i,
    {
        if a[i] != b[i] {
            return a[i] < b[i];
        }
        assert(a@.skip(i as int).drop_first() =~= a@.skip(i + 1));
        assert(b@.skip(i as int).drop_first() =~= b@.skip(i + 1));
        i = i + 1;
    }
    a.len() < b.len()
}

// ---------------------------------------------------------------------------
// Keys of binary64 numbers
// ---------------------------------------------------------------------------

/// Whether the sign bit of a binary64 bit pattern is set.
pub open spec fn bits_negative(bits: u64) -> bool {
    bits >= 0x8000_0000_0000_0000u64
}

/// The bits of a binary64 bit pattern below the sign bit: exponent and fraction.
pub open spec fn bits_magnitude(bits: u64) -> int {
    (bits % 0x8000_0000_0000_0000u64) as int
}

/// Whether a binary64 bit pattern is a zero, of either sign.
pub open spec fn bits_zero(bits: u64) -> bool {
    bits_magnitude(bits) == 0
}

/// The total order of IEEE 754 on bit patterns, which the total comparison of `f64`
/// follows: every pattern with the sign bit set comes before every one without; without
/// it, a larger magnitude comes later, with it, earlier.
pub open spec fn total_before(a: u64, b: u64) -> bool {
    if bits_negative(a) != bits_negative(b) {
        bits_negative(a)
    } else if bits_negative(a) {
        bits_magnitude(a) > bits_magnitude(b)
    } else {
        bits_magnitude(a) < bits_magnitude(b)
    }
}

/// The order key of a bit pattern: its magnitude, or below zero for a set sign bit.
pub open spec fn spec_total_key(bits: u64) -> int {
    if bits_negative(bits) {
        -1 - bits_magnitude(bits)
    } else {
        bits_magnitude(bits)
    }
}

/// The key of a bit pattern where both zeros share the key of zero.
pub open spec fn spec_strict_key(bits: u64) -> int {
    if bits_zero(bits) {
        0
    } else {
        spec_total_key(bits)
    }
}

/// The order key of the number with binary64 bits `bits`: keys order as the total order
/// of IEEE 754 orders the numbers.
pub fn total_order_key(bits: u64) -> (k: i64)
    ensures
        k == spec_total_key(bits),
{
    if bits >= 0x8000_0000_0000_0000u64 {
        -1 - ((bits - 0x8000_0000_0000_0000u64) as i64)
    } else {
        bits as i64
    }
}

/// The order key of the number with binary64 bits `bits` under `<` and `>`: as
/// `total_order_key`, but both zeros share one key.
pub fn strict_order_key(bits: u64) -> (k: i64)
    ensures
        k == spec_strict_key(bits),
{
    if bits % 0x8000_0000_0000_0000u64 == 0 {
        0
    } else {
        total_order_key(bits)
    }
}

/// Keys order bit patterns as the total order does, and only equal patterns share one.
pub proof fn lemma_total_key_order(a: u64, b: u64)
    ensures
        spec_total_key(a) < spec_total_key(b) <==> total_before(a, b),
        spec_total_key(a) == spec_total_key(b) <==> a == b,
{
    assert(bits_negative(a) ==> a == 0x8000_0000_0000_0000u64 + bits_magnitude(a));
    assert(!bits_negative(a) ==> a == bits_magnitude(a));
    assert(bits_negative(b) ==> b == 0x8000_0000_0000_0000u64 + bits_magnitude(b));
    assert(!bits_negative(b) ==> b == bits_magnitude(b));
}

/// Strict keys order bit patterns as the total order does, except that the two zeros
/// are level; only equal patterns, or the two zeros, share a key.
pub proof fn lemma_strict_key_order(a: u64, b: u64)
    ensures
        spec_strict_key(a) < spec_strict_key(b) <==> total_before(a, b) && !(bits_zero(a) && bits_zero(b)),
        spec_strict_key(a) == spec_strict_key(b) <==> (a == b || (bits_zero(a) && bits_zero(b))),
{
    lemma_total_key_order(a, b);
    lemma_total_key_order(a, 0);
    lemma_total_key_order(b, 0);
}

pub open spec fn key_view<T>(e: (Seq<i64>, T)) -> Seq<i64> {
    e.0
}

/// Entries with their keys taken as sequences.
pub open spec fn entries_view<T>(v: Seq<(Vec<i64>, T)>) -> Seq<(Seq<i64>, T)> {
    v.map_values(|e: (Vec<i64>, T)| (e.0@, e.1))
}

/// Whether an entry with key `k` goes before an entry with key `other` in a stable sort:
/// only when it orders strictly before it, so that equal keys keep their order.
pub open spec fn goes_before(k: Seq<i64>, other: Seq<i64>, descending: bool) -> bool {
    if descending {
        lex_lt(other, k)
    } else {
        lex_lt(k, other)
    }
}

/// Whether an entry with key `k` goes before one with key `other`.
pub fn key_goes_before(k: &Vec<i64>, other: &Vec<i64>, descending: bool) -> (r: bool)
    ensures
        r == goes_before(k@, other@, descending),
{
    if descending {
        key_less(other, k)
    } else {
        key_less(k, other)
    }
}

/// Where an entry with key `k` goes into sorted `s`: before the first entry that it goes
/// before.
pub open spec fn insert_pos<T>(s: Seq<(Seq<i64>, T)>, k: Seq<i64>, descending: bool) -> int
    decreases s.len(),
{
    if s.len() == 0 {
        0
    } else if goes_before(k, key_view(s[0]), descending) {
        0
    } else {
        1 + insert_pos(s.drop_first(), k, descending)
    }
}

/// The entries sorted stably by key, ascending or descending: insertion sort.
pub open spec fn sorted_seq<T>(s: Seq<(Seq<i64>, T)>, descending: bool) -> Seq<(Seq<i64>, T)>
    decreases s.len(),
{
    if s.len() == 0 {
        seq![]
    } else {
        let r = sorted_seq(s.drop_last(), descending);
        r.insert(insert_pos(r, key_view(s.last()), descending), s.last())
    }
}

proof fn lemma_insert_pos<T>(s: Seq<(Seq<i64>, T)>, k: Seq<i64>, descending: bool, j: int)
    requires
        0 <= j <= s.len(),
        forall|i: int| 0 <= i < j ==> !goes_before(k, #[trigger] key_view(s[i]), descending),
        j < s.len() ==> goes_before(k, key_view(s[j]), descending),
    ensures
        insert_pos(s, k, descending) == j,
    decreases j,
{
    if j > 0 {
        let t = s.drop_first();
        assert forall|i: int| 0 <= i < j - 1 implies !goes_before(k, #[trigger] key_view(t[i]), descending) by {
            assert(t[i] == s[i + 1]);
        }
        lemma_insert_pos(t, k, descending, j - 1);
    }
}

proof fn lemma_insert_pos_bounds<T>(s: Seq<(Seq<i64>, T)>, k: Seq<i64>, descending: bool)
    ensures
        0 <= insert_pos(s, k, descending) <= s.len(),
    decreases s.len(),
{
    if s.len() > 0 {
        lemma_insert_pos_bounds(s.drop_first(), k, descending);
    }
}

/// Sorts the entries stably by key, ascending or descending.
pub fn sort_by_key<T>(items: Vec<(Vec<i64>, T)>, descending: bool) -> (r: Vec<(Vec<i64>, T)>)
    ensures
        entries_view(r@) == sorted_seq(entries_view(items@), descending),
{
    let ghost all = entries_view(items@);
    let ghost raw = items@;
    let mut out: Vec<(Vec<i64>, T)> = Vec::new();
    for item in it: items
        invariant
            it.seq() == raw,
            all == entries_view(raw),
            entries_view(out@) == sorted_seq(all.take(it.index() as int), descending),
    {
        assert(all.take(it.index() + 1).drop_last() =~= all.take(it.index() as int));
        assert(all.take(it.index() + 1).last() == (item.0@, item.1));
        let ghost before = entries_view(out@);
        let mut j: usize = 0;
        while j < out.len() && !key_goes_before(&item.0, &out[j].0, descending)
            invariant
                j <= out@.len(),
                before == entries_view(out@),
                forall|i: int| 0 <= i < j ==> !goes_before(item.0@, #[trigger] key_view(before[i]), descending),
            decreases out.len() - j,
        {
            assert(before[j as int].0 == out@[j as int].0@);
            j = j + 1;
        }
        if j < out.len() {
            assert(before[j as int].0 == out@[j as int].0@);
        }
        proof {
            lemma_insert_pos(before, item.0@, descending, j as int);
        }
        let ghost ins = (item.0@, item.1);
        out.insert(j, item);
        assert(entries_view(out@) =~= before.insert(j as int, ins));
    }
    assert(all.take(all.len() as int) =~= all);
    out
}


proof fn lemma_lex_trans(a: Seq<i64>, b: Seq<i64>, c: Seq<i64>)
    requires
        lex_lt(a, b),
        lex_lt(b, c),
    ensures
        lex_lt(a, c),
    decreases a.len(),
{
    if a.len() > 0 && b.len() > 0 && c.len() > 0 && a[0] == b[0] && b[0] == c[0] {
        lemma_lex_trans(a.drop_first(), b.drop_first(), c.drop_first());
    }
}

proof fn lemma_lex_irreflexive(a: Seq<i64>)
    ensures
        !lex_lt(a, a),
    decreases a.len(),
{
    if a.len() > 0 {
        lemma_lex_irreflexive(a.drop_first());
    }
}

proof fn lemma_insert_pos_props<T>(s: Seq<(Seq<i64>, T)>, k: Seq<i64>, descending: bool)
    ensures
        0 <= insert_pos(s, k, descending) <= s.len(),
        forall|i: int| 0 <= i < insert_pos(s, k, descending) ==> !goes_before(k, #[trigger] key_view(s[i]), descending),
        insert_pos(s, k, descending) < s.len() ==> goes_before(k, key_view(s[insert_pos(s, k, descending)]), descending),
    decreases s.len(),
{
    if s.len() > 0 && !goes_before(k, key_view(s[0]), descending) {
        let t = s.drop_first();
        lemma_insert_pos_props(t, k, descending);
        assert forall|i: int| 0 <= i < insert_pos(s, k, descending) implies !goes_before(k, #[trigger] key_view(s[i]), descending) by {
            if i > 0 {
                assert(s[i] == t[i - 1]);
            }
        }
        if insert_pos(s, k, descending) < s.len() {
            assert(s[insert_pos(s, k, descending)] == t[insert_pos(t, k, descending)]);
        }
    }
}

/// No later entry goes before an earlier one.
pub open spec fn is_sorted<T>(s: Seq<(Seq<i64>, T)>, descending: bool) -> bool {
    forall|i: int, j: int| 0 <= i < j < s.len() ==> !goes_before(#[trigger] key_view(s[j]), #[trigger] key_view(s[i]), descending)
}

/// Sorting orders the entries by key and keeps every entry, each as often as it came.
pub proof fn lemma_sort_sorted_permutation<T>(s: Seq<(Seq<i64>, T)>, descending: bool)
    ensures
        is_sorted(sorted_seq(s, descending), descending),
        sorted_seq(s, descending).to_multiset() == s.to_multiset(),
        sorted_seq(s, descending).len() == s.len(),
    decreases s.len(),
{
    if s.len() > 0 {
        let d = s.drop_last();
        let x = s.last();
        let r = sorted_seq(d, descending);
        lemma_sort_sorted_permutation(d, descending);
        lemma_insert_pos_props(r, key_view(x), descending);
        let p = insert_pos(r, key_view(x), descending);
        let n = r.insert(p, x);
        assert(sorted_seq(s, descending) == n);
        assert forall|i: int, j: int| 0 <= i < j < n.len() implies !goes_before(#[trigger] key_view(n[j]), #[trigger] key_view(n[i]), descending) by {
            if j < p {
                assert(n[i] == r[i] && n[j] == r[j]);
            } else if j == p {
                assert(n[j] == x && n[i] == r[i]);
            } else if i == p {
                assert(n[i] == x && n[j] == r[j - 1]);
                if p < r.len() && goes_before(key_view(r[j - 1]), key_view(x), descending) {
                    if descending {
                        lemma_lex_trans(key_view(r[p]), key_view(x), key_view(r[j - 1]));
                    } else {
                        lemma_lex_trans(key_view(r[j - 1]), key_view(x), key_view(r[p]));
                    }
                    if j - 1 > p {
                        assert(!goes_before(key_view(r[j - 1]), key_view(r[p]), descending));
                    } else {
                        lemma_lex_irreflexive(key_view(r[p]));
                    }
                }
            } else if i < p {
                assert(n[i] == r[i] && n[j] == r[j - 1]);
            } else {
                assert(n[i] == r[i - 1] && n[j] == r[j - 1]);
            }
        }
        vstd::seq_lib::to_multiset_insert(r, p, x);
        vstd::seq_lib::to_multiset_build(d, x);
        assert(d.push(x) =~= s);
        assert(n.to_multiset() == r.to_multiset().insert(x));
        assert(r.to_multiset() == d.to_multiset());
        assert(s.to_multiset() == d.push(x).to_multiset());
        assert(n.to_multiset() =~= s.to_multiset());
    } else {
        assert(s =~= Seq::<(Seq<i64>, T)>::empty());
    }
}


/// Sorting is stable: tagged with their positions, entries with equal keys come out in
/// the order in which they went in.
pub proof fn lemma_sort_stable(s: Seq<(Seq<i64>, usize)>, descending: bool)
    requires
        forall|i: int| 0 <= i < s.len() ==> (#[trigger] s[i]).1 == i,
    ensures
        forall|a: int, b: int|
            0 <= a < b < sorted_seq(s, descending).len() && (#[trigger] sorted_seq(s, descending)[a]).0 == (
            #[trigger] sorted_seq(s, descending)[b]).0 ==> sorted_seq(s, descending)[a].1 < sorted_seq(
                s,
                descending,
            )[b].1,
    decreases s.len(),
{
    if s.len() > 0 {
        let d = s.drop_last();
        let x = s.last();
        assert forall|i: int| 0 <= i < d.len() implies (#[trigger] d[i]).1 == i by {
            assert(d[i] == s[i]);
        }
        lemma_sort_stable(d, descending);
        lemma_sort_sorted_permutation(d, descending);
        let r = sorted_seq(d, descending);
        lemma_insert_pos_props(r, key_view(x), descending);
        let p = insert_pos(r, key_view(x), descending);
        let n = r.insert(p, x);
        assert(sorted_seq(s, descending) == n);
        assert(x.1 == s.len() - 1);
        assert forall|i: int| 0 <= i < r.len() implies (#[trigger] r[i]).1 < x.1 by {
            let e = r[i];
            assert(r.contains(e));
            vstd::seq_lib::to_multiset_contains(r, e);
            vstd::seq_lib::to_multiset_contains(d, e);
            let j = choose|j: int| 0 <= j < d.len() && d[j] == e;
        }
        assert forall|i: int| p <= i < r.len() implies (#[trigger] r[i]).0 != x.0 by {
            if r[i].0 == x.0 {
                if i == p {
                    lemma_lex_irreflexive(x.0);
                } else {
                    assert(!goes_before(key_view(r[i]), key_view(r[p]), descending));
                }
            }
        }
        assert forall|a: int, b: int| 0 <= a < b < n.len() && (#[trigger] n[a]).0 == (#[trigger] n[b]).0 implies n[a].1 < n[b].1 by {
            if b < p {
                assert(n[a] == r[a] && n[b] == r[b]);
            } else if b == p {
                assert(n[a] == r[a] && n[b] == x);
            } else if a == p {
                assert(n[a] == x && n[b] == r[b - 1]);
            } else if a < p {
                assert(n[a] == r[a] && n[b] == r[b - 1]);
            } else {
                assert(n[a] == r[a - 1] && n[b] == r[b - 1]);
            }
        }
    }
}

pub open spec fn indices_of<T>(s: Seq<(Seq<i64>, T)>) -> Seq<T> {
    s.map_values(|e: (Seq<i64>, T)| e.1)
}

// ---------------------------------------------------------------------------
// The Pareto frontier
// ---------------------------------------------------------------------------

/// Order keys of a point for the frontier: `x` and `y` order as memorized cards and cards
/// per minute do under a total order of real numbers; `y_strict` orders as `y` does under
/// `>`, and `y_comparable` is false where `y` compares with nothing.
#[derive(Debug, Clone, Copy, PartialEq, Eq, Structural)]
pub struct FrontierKeys {
    pub x: i64,
    pub y: i64,
    pub y_strict: i64,
    pub y_comparable: bool,
}

pub open spec fn frontier_input(pts: Seq<FrontierKeys>) -> Seq<(Seq<i64>, usize)> {
    Seq::new(pts.len(), |i: int| (seq![pts[i].x, pts[i].y], i as usize))
}

/// Walking the points from most to fewest memorized cards, those that beat every
/// earlier point on cards per minute, each keyed by its cards.
pub open spec fn scan_frontier(ordered: Seq<(Seq<i64>, usize)>, pts: Seq<FrontierKeys>, best: i64) -> Seq<(Seq<i64>, usize)>
    decreases ordered.len(),
{
    if ordered.len() == 0 {
        seq![]
    } else {
        let i = ordered[0].1;
        let p = pts[i as int];
        if p.y_comparable && p.y_strict > best {
            seq![(seq![p.x], i)] + scan_frontier(ordered.drop_first(), pts, p.y_strict)
        } else {
            scan_frontier(ordered.drop_first(), pts, best)
        }
    }
}

/// The positions of the points on the Pareto frontier, by memorized cards ascending.
/// `floor` is the comparison key of the lowest value that a point must beat.
pub open spec fn spec_pareto_frontier(pts: Seq<FrontierKeys>, floor: i64) -> Seq<usize> {
    indices_of(sorted_seq(scan_frontier(sorted_seq(frontier_input(pts), true), pts, floor), false))
}

/// The Pareto frontier of the points: their positions, by memorized cards ascending.
pub fn pareto_frontier_indices(pts: &Vec<FrontierKeys>, floor: i64) -> (r: Vec<usize>)
    ensures
        r@ == spec_pareto_frontier(pts@, floor),
{
    let mut entries: Vec<(Vec<i64>, usize)> = Vec::new();
    let mut i: usize = 0;
    while i < pts.len()
        invariant
            i <= pts@.len(),
            entries_view(entries@) == frontier_input(pts@).take(i as int),
        decreases pts.len() - i,
    {
        let ghost before = entries_view(entries@);
        let mut key: Vec<i64> = Vec::new();
        key.push(pts[i].x);
        key.push(pts[i].y);
        assert(key@ =~= seq![pts@[i as int].x, pts@[i as int].y]);
        entries.push((key, i));
        assert(entries_view(entries@) =~= before.push((seq![pts@[i as int].x, pts@[i as int].y], i)));
        assert(frontier_input(pts@).take(i + 1) =~= frontier_input(pts@).take(i as int).push(frontier_input(pts@)[i as int]));
        i = i + 1;
    }
    assert(frontier_input(pts@).take(pts@.len() as int) =~= frontier_input(pts@));
    let ordered = sort_by_key(entries, true);
    let ghost ov = entries_view(ordered@);
    proof {
        let input = entries_view(entries@);
        lemma_sort_sorted_permutation(input, true);
        assert forall|k: int| 0 <= k < ov.len() implies (#[trigger] ov[k]).1 < pts@.len() by {
            let e = ov[k];
            assert(ov.contains(e));
            vstd::seq_lib::to_multiset_contains(ov, e);
            vstd::seq_lib::to_multiset_contains(input, e);
            let j = choose|j: int| 0 <= j < input.len() && input[j] == e;
            assert(input[j] == frontier_input(pts@)[j]);
        }
    }
    let mut best = floor;
    let mut kept: Vec<(Vec<i64>, usize)> = Vec::new();
    let ghost target = scan_frontier(ov, pts@, floor);
    let n = ordered.len();
    assert(ov.skip(0) =~= ov);
    for item in it: ordered
        invariant
            ov == entries_view(it.seq()),
            n == it.seq().len(),
            forall|k: int| 0 <= k < ov.len() ==> (#[trigger] ov[k]).1 < pts@.len(),
            target == entries_view(kept@) + scan_frontier(ov.skip(it.index() as int), pts@, best),
    {
        let ghost rest = ov.skip(it.index() as int);
        assert(rest[0] == ov[it.index() as int]);
        assert(rest.drop_first() =~= ov.skip(it.index() + 1));
        let idx = item.1;
        let p = pts[idx];
        if p.y_comparable && p.y_strict > best {
            best = p.y_strict;
            let mut key: Vec<i64> = Vec::new();
            key.push(p.x);
            let ghost before = entries_view(kept@);
            kept.push((key, idx));
            assert(entries_view(kept@) =~= before + seq![(seq![p.x], idx)]);
        }
    }
    assert(ov.skip(n as int) =~= Seq::<(Seq<i64>, usize)>::empty());
    assert(entries_view(kept@) =~= target);
    let by_cards = sort_by_key(kept, false);
    let mut out: Vec<usize> = Vec::new();
    let ghost bv = entries_view(by_cards@);
    for item in it: by_cards
        invariant
            bv == entries_view(it.seq()),
            out@ == indices_of(bv.take(it.index() as int)),
    {
        assert(bv.take(it.index() + 1) =~= bv.take(it.index() as int).push(bv[it.index() as int]));
        out.push(item.1);
        assert(out@ =~= indices_of(bv.take(it.index() + 1)));
    }
    assert(bv.take(bv.len() as int) =~= bv);
    out
}


// ---------------------------------------------------------------------------
// Ranked lists
// ---------------------------------------------------------------------------

/// What ranking reads of a point of the pool: whether it lies northeast of the target
/// point of the fixed curve, whether its memorized cards and its cards per minute lie in
/// the band around the target, and its order keys.
#[derive(Debug)]
pub struct RankFacts {
    pub northeast: bool,
    pub in_x_band: bool,
    pub in_y_band: bool,
    pub equivalence_key: Vec<i64>,
    pub efficiency_key: Vec<i64>,
    pub memory_key: Vec<i64>,
    pub frontier: FrontierKeys,
}

pub struct RankFactsView {
    pub northeast: bool,
    pub in_x_band: bool,
    pub in_y_band: bool,
    pub equivalence_key: Seq<i64>,
    pub efficiency_key: Seq<i64>,
    pub memory_key: Seq<i64>,
    pub frontier: FrontierKeys,
}

impl View for RankFacts {
    type V = RankFactsView;

    open spec fn view(&self) -> RankFactsView {
        RankFactsView {
            northeast: self.northeast,
            in_x_band: self.in_x_band,
            in_y_band: self.in_y_band,
            equivalence_key: self.equivalence_key@,
            efficiency_key: self.efficiency_key@,
            memory_key: self.memory_key@,
            frontier: self.frontier,
        }
    }
}

pub open spec fn facts_view(v: Seq<RankFacts>) -> Seq<RankFactsView> {
    v.map_values(|f: RankFacts| f@)
}

/// The three lists that ranking sorts a pool into.
#[derive(Debug, Clone, Copy, PartialEq, Eq, Structural)]
pub enum RankList {
    Recommended,
    Efficiency,
    Memory,
}

pub open spec fn in_list(f: RankFactsView, l: RankList) -> bool {
    match l {
        RankList::Recommended => f.northeast,
        RankList::Efficiency => f.in_x_band,
        RankList::Memory => f.in_y_band,
    }
}

pub open spec fn list_key(f: RankFactsView, l: RankList) -> Seq<i64> {
    match l {
        RankList::Recommended => f.equivalence_key,
        RankList::Efficiency => f.efficiency_key,
        RankList::Memory => f.memory_key,
    }
}

/// Positions of the points that belong in list `l`, keyed for it, in pool order.
pub open spec fn members(f: Seq<RankFactsView>, l: RankList) -> Seq<(Seq<i64>, usize)>
    decreases f.len(),
{
    if f.len() == 0 {
        seq![]
    } else {
        let r = members(f.drop_last(), l);
        if in_list(f.last(), l) {
            r.push((list_key(f.last(), l), (f.len() - 1) as usize))
        } else {
            r
        }
    }
}

/// Every position of the pool, keyed for list `l`.
pub open spec fn everyone(f: Seq<RankFactsView>, l: RankList) -> Seq<(Seq<i64>, usize)> {
    Seq::new(f.len(), |i: int| (list_key(f[i], l), i as usize))
}

/// List `l`: its members, or the whole pool where it has none, best first.
pub open spec fn spec_ranked_list(f: Seq<RankFactsView>, l: RankList) -> Seq<usize> {
    let m = members(f, l);
    indices_of(sorted_seq(if m.len() == 0 { everyone(f, l) } else { m }, true))
}

/// The frontier of the pool, best first by equivalence.
pub open spec fn spec_ranked_frontier(f: Seq<RankFactsView>, floor: i64) -> Seq<usize> {
    let front = spec_pareto_frontier(f.map_values(|x: RankFactsView| x.frontier), floor);
    indices_of(sorted_seq(front.map_values(|i: usize| (f[i as int].equivalence_key, i)), true))
}

/// Ranked positions of a pool: recommended, by efficiency, by memory, and the frontier.
#[derive(Debug)]
pub struct RankedIndices {
    pub recommended: Vec<usize>,
    pub efficiency: Vec<usize>,
    pub memory: Vec<usize>,
    pub frontier: Vec<usize>,
}

fn list_key_exec(f: &RankFacts, l: RankList) -> (k: Vec<i64>)
    ensures
        k@ == list_key(f@, l),
{
    match l {
        RankList::Recommended => f.equivalence_key.clone(),
        RankList::Efficiency => f.efficiency_key.clone(),
        RankList::Memory => f.memory_key.clone(),
    }
}

/// List `l` of the pool: positions best first.
pub fn ranked_list(facts: &Vec<RankFacts>, l: RankList) -> (r: Vec<usize>)
    ensures
        r@ == spec_ranked_list(facts_view(facts@), l),
{
    let ghost fv = facts_view(facts@);
    let mut m: Vec<(Vec<i64>, usize)> = Vec::new();
    let mut all: Vec<(Vec<i64>, usize)> = Vec::new();
    let mut i: usize = 0;
    while i < facts.len()
        invariant
            i <= facts@.len(),
            fv == facts_view(facts@),
            entries_view(m@) == members(fv.take(i as int), l),
            entries_view(all@) == everyone(fv, l).take(i as int),
        decreases facts.len() - i,
    {
        assert(fv.take(i + 1).drop_last() =~= fv.take(i as int));
        assert(fv.take(i + 1).last() == facts@[i as int]@);
        let ghost before_m = entries_view(m@);
        let ghost before_all = entries_view(all@);
        let f = &facts[i];
        let member = match l {
            RankList::Recommended => f.northeast,
            RankList::Efficiency => f.in_x_band,
            RankList::Memory => f.in_y_band,
        };
        if member {
            m.push((list_key_exec(f, l), i));
            assert(entries_view(m@) =~= before_m.push((list_key(fv[i as int], l), i)));
        }
        all.push((list_key_exec(f, l), i));
        assert(entries_view(all@) =~= before_all.push((list_key(fv[i as int], l), i)));
        assert(everyone(fv, l).take(i + 1) =~= everyone(fv, l).take(i as int).push(everyone(fv, l)[i as int]));
        i = i + 1;
    }
    assert(fv.take(fv.len() as int) =~= fv);
    assert(everyone(fv, l).take(fv.len() as int) =~= everyone(fv, l));
    let chosen = if m.len() == 0 {
        all
    } else {
        m
    };
    let sorted = sort_by_key(chosen, true);
    let ghost sv = entries_view(sorted@);
    let mut out: Vec<usize> = Vec::new();
    for item in it: sorted
        invariant
            sv == entries_view(it.seq()),
            out@ == indices_of(sv.take(it.index() as int)),
    {
        assert(sv.take(it.index() + 1) =~= sv.take(it.index() as int).push(sv[it.index() as int]));
        out.push(item.1);
        assert(out@ =~= indices_of(sv.take(it.index() + 1)));
    }
    assert(sv.take(sv.len() as int) =~= sv);
    out
}

/// The frontier of the pool, positions best first by equivalence.
pub fn ranked_frontier(facts: &Vec<RankFacts>, floor: i64) -> (r: Vec<usize>)
    ensures
        r@ == spec_ranked_frontier(facts_view(facts@), floor),
{
    let ghost fv = facts_view(facts@);
    let mut keys: Vec<FrontierKeys> = Vec::new();
    let mut i: usize = 0;
    while i < facts.len()
        invariant
            i <= facts@.len(),
            fv == facts_view(facts@),
            keys@ == fv.map_values(|x: RankFactsView| x.frontier).take(i as int),
        decreases facts.len() - i,
    {
        keys.push(facts[i].frontier);
        assert(keys@ =~= fv.map_values(|x: RankFactsView| x.frontier).take(i + 1));
        i = i + 1;
    }
    assert(keys@ =~= fv.map_values(|x: RankFactsView| x.frontier));
    let front = pareto_frontier_indices(&keys, floor);
    proof {
        lemma_frontier_in_range(keys@, floor);
    }
    let mut entries: Vec<(Vec<i64>, usize)> = Vec::new();
    let mut k: usize = 0;
    while k < front.len()
        invariant
            k <= front@.len(),
            fv == facts_view(facts@),
            front@ == spec_pareto_frontier(fv.map_values(|x: RankFactsView| x.frontier), floor),
            forall|j: int| 0 <= j < front@.len() ==> (#[trigger] front@[j]) < fv.len(),
            entries_view(entries@) == front@.map_values(|i: usize| (fv[i as int].equivalence_key, i)).take(k as int),
        decreases front.len() - k,
    {
        let idx = front[k];
        let ghost before = entries_view(entries@);
        assert(idx < fv.len());
        assert(fv[idx as int] == facts@[idx as int]@);
        let key = facts[idx].equivalence_key.clone();
        assert(key@ == fv[idx as int].equivalence_key);
        entries.push((key, idx));
        assert(entries_view(entries@) =~= before.push((fv[idx as int].equivalence_key, idx)));
        assert(entries_view(entries@) =~= front@.map_values(|i: usize| (fv[i as int].equivalence_key, i)).take(k + 1));
        k = k + 1;
    }
    assert(front@.map_values(|i: usize| (fv[i as int].equivalence_key, i)).take(front@.len() as int) =~= front@.map_values(|i: usize| (fv[i as int].equivalence_key, i)));
    let sorted = sort_by_key(entries, true);
    let ghost sv = entries_view(sorted@);
    let mut out: Vec<usize> = Vec::new();
    for item in it: sorted
        invariant
            sv == entries_view(it.seq()),
            out@ == indices_of(sv.take(it.index() as int)),
    {
        assert(sv.take(it.index() + 1) =~= sv.take(it.index() as int).push(sv[it.index() as int]));
        out.push(item.1);
        assert(out@ =~= indices_of(sv.take(it.index() + 1)));
    }
    assert(sv.take(sv.len() as int) =~= sv);
    out
}

/// Every position on the frontier is a position of the pool.
pub proof fn lemma_frontier_in_range(pts: Seq<FrontierKeys>, floor: i64)
    ensures
        forall|j: int| 0 <= j < spec_pareto_frontier(pts, floor).len() ==> (#[trigger] spec_pareto_frontier(pts, floor)[j]) < pts.len(),
{
    let input = frontier_input(pts);
    let ordered = sorted_seq(input, true);
    lemma_sort_sorted_permutation(input, true);
    assert forall|k: int| 0 <= k < ordered.len() implies (#[trigger] ordered[k]).1 < pts.len() by {
        let e = ordered[k];
        assert(ordered.contains(e));
        vstd::seq_lib::to_multiset_contains(ordered, e);
        vstd::seq_lib::to_multiset_contains(input, e);
        let j = choose|j: int| 0 <= j < input.len() && input[j] == e;
    }
    let scanned = scan_frontier(ordered, pts, floor);
    lemma_scan_from(ordered, pts, floor);
    let fin = sorted_seq(scanned, false);
    lemma_sort_sorted_permutation(scanned, false);
    assert forall|j: int| 0 <= j < fin.len() implies (#[trigger] fin[j]).1 < pts.len() by {
        let e = fin[j];
        assert(fin.contains(e));
        vstd::seq_lib::to_multiset_contains(fin, e);
        vstd::seq_lib::to_multiset_contains(scanned, e);
    }
}

proof fn lemma_scan_from(ordered: Seq<(Seq<i64>, usize)>, pts: Seq<FrontierKeys>, best: i64)
    ensures
        forall|j: int| 0 <= j < scan_frontier(ordered, pts, best).len() ==> exists|k: int| 0 <= k < ordered.len() && (#[trigger] scan_frontier(ordered, pts, best)[j]).1 == ordered[k].1,
    decreases ordered.len(),
{
    if ordered.len() > 0 {
        let rest = ordered.drop_first();
        let p = pts[ordered[0].1 as int];
        let nb = if p.y_comparable && p.y_strict > best { p.y_strict } else { best };
        lemma_scan_from(rest, pts, nb);
        let sc = scan_frontier(ordered, pts, best);
        let sr = scan_frontier(rest, pts, nb);
        assert forall|j: int| 0 <= j < sc.len() implies exists|k: int| 0 <= k < ordered.len() && (#[trigger] sc[j]).1 == ordered[k].1 by {
            if p.y_comparable && p.y_strict > best {
                if j == 0 {
                    assert(sc[0].1 == ordered[0].1);
                } else {
                    assert(sc[j] == sr[j - 1]);
                    let k = choose|k: int| 0 <= k < rest.len() && sr[j - 1].1 == rest[k].1;
                    assert(rest[k] == ordered[k + 1]);
                }
            } else {
                assert(sc[j] == sr[j]);
                let k = choose|k: int| 0 <= k < rest.len() && sr[j].1 == rest[k].1;
                assert(rest[k] == ordered[k + 1]);
            }
        }
    }
}


/// `a` comes no later than `b` when points are walked by memorized cards, then cards per
/// minute, both descending: fewer cards, or as many and no more cards per minute.
pub open spec fn behind_or_level(a: FrontierKeys, b: FrontierKeys) -> bool {
    a.x < b.x || (a.x == b.x && a.y <= b.y)
}

/// `y_strict` orders the comparable points as `y` does.
pub open spec fn strict_follows_y(pts: Seq<FrontierKeys>) -> bool {
    forall|i: int, j: int|
        0 <= i < pts.len() && 0 <= j < pts.len() && (#[trigger] pts[i]).y_comparable && (#[trigger] pts[j]).y_comparable
            && pts[i].y <= pts[j].y ==> pts[i].y_strict <= pts[j].y_strict
}

proof fn lemma_lex_pair(a: Seq<i64>, b: Seq<i64>)
    requires
        a.len() == 2,
        b.len() == 2,
    ensures
        lex_lt(a, b) <==> (a[0] < b[0] || (a[0] == b[0] && a[1] < b[1])),
{
    reveal_with_fuel(lex_lt, 3);
    let a1 = a.drop_first();
    let b1 = b.drop_first();
    assert(a1.drop_first().len() == 0 && b1.drop_first().len() == 0);
    assert(a1[0] == a[1] && b1[0] == b[1]);
}

proof fn lemma_lex_single(a: Seq<i64>, b: Seq<i64>)
    requires
        a.len() == 1,
        b.len() == 1,
    ensures
        lex_lt(a, b) <==> a[0] < b[0],
{
    assert(!lex_lt(a.drop_first(), b.drop_first()));
}

/// What the scan keeps: points in walking order, each comparable and above `best`,
/// memorized cards strictly falling and cards per minute strictly rising.
proof fn lemma_scan_monotone(o: Seq<(Seq<i64>, usize)>, pts: Seq<FrontierKeys>, best: i64)
    requires
        forall|k: int| 0 <= k < o.len() ==> (#[trigger] o[k]).1 < pts.len(),
        forall|k1: int, k2: int|
            0 <= k1 < k2 < o.len() ==> behind_or_level(pts[(#[trigger] o[k2]).1 as int], pts[(#[trigger] o[k1]).1 as int]),
        strict_follows_y(pts),
    ensures
        forall|j: int| 0 <= j < scan_frontier(o, pts, best).len() ==> {
            let e = #[trigger] scan_frontier(o, pts, best)[j];
            &&& e.1 < pts.len()
            &&& e.0 == seq![pts[e.1 as int].x]
            &&& pts[e.1 as int].y_comparable
            &&& pts[e.1 as int].y_strict > best
            &&& o.len() > 0 ==> behind_or_level(pts[e.1 as int], pts[o[0].1 as int])
        },
        forall|j1: int, j2: int|
            0 <= j1 < j2 < scan_frontier(o, pts, best).len() ==> {
                let e1 = #[trigger] scan_frontier(o, pts, best)[j1];
                let e2 = #[trigger] scan_frontier(o, pts, best)[j2];
                pts[e2.1 as int].x < pts[e1.1 as int].x && pts[e1.1 as int].y_strict < pts[e2.1 as int].y_strict
            },
    decreases o.len(),
{
    if o.len() > 0 {
        let rest = o.drop_first();
        let h = o[0];
        let p = pts[h.1 as int];
        let kept = p.y_comparable && p.y_strict > best;
        let nb = if kept { p.y_strict } else { best };
        assert forall|k1: int, k2: int| 0 <= k1 < k2 < rest.len() implies behind_or_level(
            pts[(#[trigger] rest[k2]).1 as int],
            pts[(#[trigger] rest[k1]).1 as int],
        ) by {
            assert(rest[k1] == o[k1 + 1] && rest[k2] == o[k2 + 1]);
        }
        assert forall|k: int| 0 <= k < rest.len() implies (#[trigger] rest[k]).1 < pts.len() by {
            assert(rest[k] == o[k + 1]);
        }
        lemma_scan_monotone(rest, pts, nb);
        let sr = scan_frontier(rest, pts, nb);
        let sc = scan_frontier(o, pts, best);
        if rest.len() > 0 {
            assert(rest[0] == o[1]);
            assert(behind_or_level(pts[o[1].1 as int], pts[o[0].1 as int]));
        }
        if kept {
            assert(sc == seq![(seq![p.x], h.1)] + sr);
            assert forall|j: int| 0 <= j < sr.len() implies pts[(#[trigger] sr[j]).1 as int].x < p.x by {
                let q = pts[sr[j].1 as int];
                assert(behind_or_level(q, p));
                if q.x == p.x {
                    assert(q.y <= p.y);
                    assert(q.y_strict <= p.y_strict);
                }
            }
            assert forall|j: int| 0 <= j < sc.len() implies {
                let e = #[trigger] sc[j];
                &&& e.1 < pts.len()
                &&& e.0 == seq![pts[e.1 as int].x]
                &&& pts[e.1 as int].y_comparable
                &&& pts[e.1 as int].y_strict > best
                &&& o.len() > 0 ==> behind_or_level(pts[e.1 as int], pts[o[0].1 as int])
            } by {
                if j > 0 {
                    assert(sc[j] == sr[j - 1]);
                }
            }
            assert forall|j1: int, j2: int| 0 <= j1 < j2 < sc.len() implies {
                let e1 = #[trigger] sc[j1];
                let e2 = #[trigger] sc[j2];
                pts[e2.1 as int].x < pts[e1.1 as int].x && pts[e1.1 as int].y_strict < pts[e2.1 as int].y_strict
            } by {
                assert(sc[j2] == sr[j2 - 1]);
                if j1 > 0 {
                    assert(sc[j1] == sr[j1 - 1]);
                } else {
                    assert(sc[j1] == (seq![p.x], h.1));
                }
            }
        } else {
            assert(sc == sr);
        }
    }
}

/// Every point of the walk that beats `best` is kept or lies behind a kept point that is
/// at least as good on cards per minute.
proof fn lemma_scan_covers(o: Seq<(Seq<i64>, usize)>, pts: Seq<FrontierKeys>, best: i64)
    requires
        forall|k1: int, k2: int|
            0 <= k1 < k2 < o.len() ==> behind_or_level(pts[(#[trigger] o[k2]).1 as int], pts[(#[trigger] o[k1]).1 as int]),
    ensures
        forall|k: int|
            0 <= k < o.len() && pts[(#[trigger] o[k]).1 as int].y_comparable && pts[o[k].1 as int].y_strict > best
                ==> exists|j: int|
                0 <= j < scan_frontier(o, pts, best).len() && behind_or_level(
                    pts[o[k].1 as int],
                    pts[(#[trigger] scan_frontier(o, pts, best)[j]).1 as int],
                ) && pts[scan_frontier(o, pts, best)[j].1 as int].y_strict >= pts[o[k].1 as int].y_strict,
    decreases o.len(),
{
    if o.len() > 0 {
        let rest = o.drop_first();
        let h = o[0];
        let p = pts[h.1 as int];
        let kept = p.y_comparable && p.y_strict > best;
        let nb = if kept { p.y_strict } else { best };
        assert forall|k1: int, k2: int| 0 <= k1 < k2 < rest.len() implies behind_or_level(
            pts[(#[trigger] rest[k2]).1 as int],
            pts[(#[trigger] rest[k1]).1 as int],
        ) by {
            assert(rest[k1] == o[k1 + 1] && rest[k2] == o[k2 + 1]);
        }
        lemma_scan_covers(rest, pts, nb);
        let sr = scan_frontier(rest, pts, nb);
        let sc = scan_frontier(o, pts, best);
        if kept {
            assert(sc == seq![(seq![p.x], h.1)] + sr);
        } else {
            assert(sc == sr);
        }
        assert forall|k: int|
            0 <= k < o.len() && pts[(#[trigger] o[k]).1 as int].y_comparable && pts[o[k].1 as int].y_strict > best
                implies exists|j: int|
                0 <= j < sc.len() && behind_or_level(pts[o[k].1 as int], pts[(#[trigger] sc[j]).1 as int])
                    && pts[sc[j].1 as int].y_strict >= pts[o[k].1 as int].y_strict by {
            let q = pts[o[k].1 as int];
            if k == 0 {
                assert(sc[0].1 == h.1);
                assert(behind_or_level(q, pts[sc[0].1 as int]));
            } else {
                assert(o[k] == rest[k - 1]);
                if q.y_strict > nb {
                    let j = choose|j: int|
                        0 <= j < sr.len() && behind_or_level(q, pts[(#[trigger] sr[j]).1 as int])
                            && pts[sr[j].1 as int].y_strict >= q.y_strict;
                    if kept {
                        assert(sc[j + 1] == sr[j]);
                    } else {
                        assert(sc[j] == sr[j]);
                    }
                } else {
                    assert(kept);
                    assert(sc[0].1 == h.1);
                    assert(behind_or_level(q, p));
                    assert(behind_or_level(q, pts[sc[0].1 as int]));
                }
            }
        }
    }
}

/// Sorting by ascending key entries whose keys strictly fall reverses them.
proof fn lemma_sort_falling(s: Seq<(Seq<i64>, usize)>)
    requires
        forall|j1: int, j2: int| 0 <= j1 < j2 < s.len() ==> lex_lt(#[trigger] s[j2].0, #[trigger] s[j1].0),
    ensures
        sorted_seq(s, false) == s.reverse(),
    decreases s.len(),
{
    if s.len() > 0 {
        let d = s.drop_last();
        assert forall|j1: int, j2: int| 0 <= j1 < j2 < d.len() implies lex_lt(#[trigger] d[j2].0, #[trigger] d[j1].0) by {
            assert(d[j1] == s[j1] && d[j2] == s[j2]);
        }
        lemma_sort_falling(d);
        let r = sorted_seq(d, false);
        if d.len() > 0 {
            assert(r[0] == d[d.len() - 1]);
            assert(lex_lt(s.last().0, s[s.len() - 2].0));
        }
        assert(insert_pos(r, key_view(s.last()), false) == 0);
        assert(sorted_seq(s, false) == r.insert(0, s.last()));
        assert(r.insert(0, s.last()) =~= s.reverse());
    }
}

/// Read by memorized cards ascending, the frontier trades one measure for the other:
/// memorized cards strictly rise while cards per minute strictly fall, and every point
/// on it is comparable and beats the floor.
pub proof fn lemma_frontier_trade_off(pts: Seq<FrontierKeys>, floor: i64)
    requires
        pts.len() <= usize::MAX,
        strict_follows_y(pts),
    ensures
        forall|a: int| 0 <= a < spec_pareto_frontier(pts, floor).len() ==> {
            let i = #[trigger] spec_pareto_frontier(pts, floor)[a];
            &&& i < pts.len()
            &&& pts[i as int].y_comparable
            &&& pts[i as int].y_strict > floor
        },
        forall|a: int, b: int|
            0 <= a < b < spec_pareto_frontier(pts, floor).len() ==> {
                let i = #[trigger] spec_pareto_frontier(pts, floor)[a];
                let j = #[trigger] spec_pareto_frontier(pts, floor)[b];
                pts[i as int].x < pts[j as int].x && pts[i as int].y_strict > pts[j as int].y_strict
            },
{
    let input = frontier_input(pts);
    let o = sorted_seq(input, true);
    lemma_sort_sorted_permutation(input, true);
    assert forall|k: int| 0 <= k < o.len() implies (#[trigger] o[k]).1 < pts.len() && o[k].0 == seq![
        pts[o[k].1 as int].x,
        pts[o[k].1 as int].y,
    ] by {
        let e = o[k];
        assert(o.contains(e));
        vstd::seq_lib::to_multiset_contains(o, e);
        vstd::seq_lib::to_multiset_contains(input, e);
        let j = choose|j: int| 0 <= j < input.len() && input[j] == e;
        assert(input[j] == (seq![pts[j].x, pts[j].y], j as usize));
        assert(e.1 as int == j);
    }
    assert forall|k1: int, k2: int| 0 <= k1 < k2 < o.len() implies behind_or_level(
        pts[(#[trigger] o[k2]).1 as int],
        pts[(#[trigger] o[k1]).1 as int],
    ) by {
        assert(!goes_before(key_view(o[k2]), key_view(o[k1]), true));
        lemma_lex_pair(o[k1].0, o[k2].0);
    }
    lemma_scan_monotone(o, pts, floor);
    let sc = scan_frontier(o, pts, floor);
    assert forall|j1: int, j2: int| 0 <= j1 < j2 < sc.len() implies lex_lt(#[trigger] sc[j2].0, #[trigger] sc[j1].0) by {
        lemma_lex_single(sc[j2].0, sc[j1].0);
    }
    lemma_sort_falling(sc);
    let f = spec_pareto_frontier(pts, floor);
    assert(f == indices_of(sc.reverse()));
    assert forall|a: int| 0 <= a < f.len() implies {
        let i = #[trigger] f[a];
        &&& i < pts.len()
        &&& pts[i as int].y_comparable
        &&& pts[i as int].y_strict > floor
    } by {
        assert(f[a] == sc[sc.len() - 1 - a].1);
    }
    assert forall|a: int, b: int| 0 <= a < b < f.len() implies {
        let i = #[trigger] f[a];
        let j = #[trigger] f[b];
        pts[i as int].x < pts[j as int].x && pts[i as int].y_strict > pts[j as int].y_strict
    } by {
        assert(f[a] == sc[sc.len() - 1 - a].1);
        assert(f[b] == sc[sc.len() - 1 - b].1);
    }
}


/// Nothing beats the frontier: every comparable point above the floor is matched or
/// outdone, on memorized cards and on cards per minute both, by a point on the frontier.
pub proof fn lemma_frontier_covers(pts: Seq<FrontierKeys>, floor: i64)
    requires
        pts.len() <= usize::MAX,
    ensures
        forall|i: int|
            0 <= i < pts.len() && (#[trigger] pts[i]).y_comparable && pts[i].y_strict > floor ==> exists|a: int|
                0 <= a < spec_pareto_frontier(pts, floor).len() && {
                    let f = #[trigger] spec_pareto_frontier(pts, floor)[a];
                    pts[i].x <= pts[f as int].x && pts[i].y_strict <= pts[f as int].y_strict
                },
{
    let input = frontier_input(pts);
    let o = sorted_seq(input, true);
    lemma_sort_sorted_permutation(input, true);
    assert forall|k: int| 0 <= k < o.len() implies (#[trigger] o[k]).1 < pts.len() && o[k].0 == seq![
        pts[o[k].1 as int].x,
        pts[o[k].1 as int].y,
    ] by {
        let e = o[k];
        assert(o.contains(e));
        vstd::seq_lib::to_multiset_contains(o, e);
        vstd::seq_lib::to_multiset_contains(input, e);
        let j = choose|j: int| 0 <= j < input.len() && input[j] == e;
        assert(input[j] == (seq![pts[j].x, pts[j].y], j as usize));
        assert(e.1 as int == j);
    }
    assert forall|k1: int, k2: int| 0 <= k1 < k2 < o.len() implies behind_or_level(
        pts[(#[trigger] o[k2]).1 as int],
        pts[(#[trigger] o[k1]).1 as int],
    ) by {
        assert(!goes_before(key_view(o[k2]), key_view(o[k1]), true));
        lemma_lex_pair(o[k1].0, o[k2].0);
    }
    lemma_scan_covers(o, pts, floor);
    let sc = scan_frontier(o, pts, floor);
    let fin = sorted_seq(sc, false);
    lemma_sort_sorted_permutation(sc, false);
    let f = spec_pareto_frontier(pts, floor);
    assert(f == indices_of(fin));
    assert forall|i: int| 0 <= i < pts.len() && (#[trigger] pts[i]).y_comparable && pts[i].y_strict > floor implies exists|a: int|
        0 <= a < f.len() && {
            let g = #[trigger] f[a];
            pts[i].x <= pts[g as int].x && pts[i].y_strict <= pts[g as int].y_strict
        } by {
        let e = input[i];
        assert(e == (seq![pts[i].x, pts[i].y], i as usize));
        assert(input.contains(e));
        vstd::seq_lib::to_multiset_contains(input, e);
        vstd::seq_lib::to_multiset_contains(o, e);
        let k = choose|k: int| 0 <= k < o.len() && o[k] == e;
        assert(o[k].1 as int == i);
        let j = choose|j: int|
            0 <= j < sc.len() && behind_or_level(pts[o[k].1 as int], pts[(#[trigger] sc[j]).1 as int])
                && pts[sc[j].1 as int].y_strict >= pts[o[k].1 as int].y_strict;
        let w = sc[j];
        assert(sc.contains(w));
        vstd::seq_lib::to_multiset_contains(sc, w);
        vstd::seq_lib::to_multiset_contains(fin, w);
        let a = choose|a: int| 0 <= a < fin.len() && fin[a] == w;
        assert(f[a] == w.1);
    }
}

/// `q` outdoes `p`: at least as many memorized cards and at least as many cards per minute,
/// and more of one of them.
pub open spec fn outdoes(q: FrontierKeys, p: FrontierKeys) -> bool {
    q.x >= p.x && q.y_strict >= p.y_strict && (q.x > p.x || q.y_strict > p.y_strict)
}

/// No comparable point of the walk outdoes a point that the scan keeps.
proof fn lemma_scan_undominated(o: Seq<(Seq<i64>, usize)>, pts: Seq<FrontierKeys>, best: i64)
    requires
        forall|k: int| 0 <= k < o.len() ==> (#[trigger] o[k]).1 < pts.len(),
        forall|k1: int, k2: int|
            0 <= k1 < k2 < o.len() ==> behind_or_level(pts[(#[trigger] o[k2]).1 as int], pts[(#[trigger] o[k1]).1 as int]),
        strict_follows_y(pts),
    ensures
        forall|j: int, k: int|
            0 <= j < scan_frontier(o, pts, best).len() && 0 <= k < o.len() && pts[(#[trigger] o[k]).1 as int].y_comparable
                ==> !outdoes(pts[o[k].1 as int], pts[(#[trigger] scan_frontier(o, pts, best)[j]).1 as int]),
    decreases o.len(),
{
    if o.len() > 0 {
        let rest = o.drop_first();
        let h = o[0];
        let p = pts[h.1 as int];
        let kept = p.y_comparable && p.y_strict > best;
        let nb = if kept { p.y_strict } else { best };
        assert forall|k1: int, k2: int| 0 <= k1 < k2 < rest.len() implies behind_or_level(
            pts[(#[trigger] rest[k2]).1 as int],
            pts[(#[trigger] rest[k1]).1 as int],
        ) by {
            assert(rest[k1] == o[k1 + 1] && rest[k2] == o[k2 + 1]);
        }
        assert forall|k: int| 0 <= k < rest.len() implies (#[trigger] rest[k]).1 < pts.len() by {
            assert(rest[k] == o[k + 1]);
        }
        lemma_scan_undominated(rest, pts, nb);
        lemma_scan_monotone(rest, pts, nb);
        lemma_scan_monotone(o, pts, best);
        let sr = scan_frontier(rest, pts, nb);
        let sc = scan_frontier(o, pts, best);
        if kept {
            assert(sc == seq![(seq![p.x], h.1)] + sr);
        } else {
            assert(sc == sr);
        }
        assert forall|j: int, k: int|
            0 <= j < sc.len() && 0 <= k < o.len() && pts[(#[trigger] o[k]).1 as int].y_comparable
                implies !outdoes(pts[o[k].1 as int], pts[(#[trigger] sc[j]).1 as int]) by {
            let q = pts[o[k].1 as int];
            let w = pts[sc[j].1 as int];
            let from_rest = !kept || j > 0;
            if from_rest {
                let jr = if kept { j - 1 } else { j };
                assert(sc[j] == sr[jr]);
                assert(w.y_strict > nb);
                if k == 0 {
                    assert(q.y_strict <= nb);
                } else {
                    assert(o[k] == rest[k - 1]);
                }
            } else {
                assert(sc[j].1 == h.1);
                if k > 0 {
                    assert(behind_or_level(q, p));
                    if q.x == p.x {
                        assert(q.y_strict <= p.y_strict);
                    }
                }
            }
        }
    }
}

/// Some step of the walk `o` is at the point `i`.
spec fn walk_visits(o: Seq<(Seq<i64>, usize)>, i: int) -> bool {
    exists|k: int| 0 <= k < o.len() && (#[trigger] o[k]).1 == i
}

/// The walk behind the frontier: it reaches every point, by memorized cards and then cards
/// per minute, both falling.
proof fn lemma_walk(pts: Seq<FrontierKeys>)
    requires
        pts.len() <= usize::MAX,
    ensures
        ({
            let o = sorted_seq(frontier_input(pts), true);
            &&& forall|k: int| 0 <= k < o.len() ==> (#[trigger] o[k]).1 < pts.len()
            &&& forall|k1: int, k2: int|
                0 <= k1 < k2 < o.len() ==> behind_or_level(pts[(#[trigger] o[k2]).1 as int], pts[(#[trigger] o[k1]).1 as int])
            &&& forall|i: int| 0 <= i < pts.len() ==> #[trigger] walk_visits(o, i)
        }),
{
    let input = frontier_input(pts);
    let o = sorted_seq(input, true);
    lemma_sort_sorted_permutation(input, true);
    assert forall|k: int| 0 <= k < o.len() implies (#[trigger] o[k]).1 < pts.len() && o[k].0 == seq![
        pts[o[k].1 as int].x,
        pts[o[k].1 as int].y,
    ] by {
        let e = o[k];
        assert(o.contains(e));
        vstd::seq_lib::to_multiset_contains(o, e);
        vstd::seq_lib::to_multiset_contains(input, e);
        let j = choose|j: int| 0 <= j < input.len() && input[j] == e;
        assert(input[j] == (seq![pts[j].x, pts[j].y], j as usize));
        assert(e.1 as int == j);
    }
    assert forall|k1: int, k2: int| 0 <= k1 < k2 < o.len() implies behind_or_level(
        pts[(#[trigger] o[k2]).1 as int],
        pts[(#[trigger] o[k1]).1 as int],
    ) by {
        assert(!goes_before(key_view(o[k2]), key_view(o[k1]), true));
        lemma_lex_pair(o[k1].0, o[k2].0);
    }
    assert forall|i: int| 0 <= i < pts.len() implies #[trigger] walk_visits(o, i) by {
        let e = input[i];
        assert(input.contains(e));
        vstd::seq_lib::to_multiset_contains(input, e);
        vstd::seq_lib::to_multiset_contains(o, e);
        let k = choose|k: int| 0 <= k < o.len() && o[k] == e;
        assert(o[k].1 as int == i);
    }
}

/// No point outdoes a point on the frontier: none that compares on cards per minute has
/// at least as many memorized cards and at least as many cards per minute, and more of one.
pub proof fn lemma_frontier_undominated(pts: Seq<FrontierKeys>, floor: i64)
    requires
        pts.len() <= usize::MAX,
        strict_follows_y(pts),
    ensures
        forall|a: int, i: int|
            0 <= a < spec_pareto_frontier(pts, floor).len() && 0 <= i < pts.len() && (#[trigger] pts[i]).y_comparable
                ==> !outdoes(pts[i], pts[(#[trigger] spec_pareto_frontier(pts, floor)[a]) as int]),
{
    lemma_walk(pts);
    let o = sorted_seq(frontier_input(pts), true);
    lemma_scan_monotone(o, pts, floor);
    lemma_scan_undominated(o, pts, floor);
    let sc = scan_frontier(o, pts, floor);
    assert forall|j1: int, j2: int| 0 <= j1 < j2 < sc.len() implies lex_lt(#[trigger] sc[j2].0, #[trigger] sc[j1].0) by {
        lemma_lex_single(sc[j2].0, sc[j1].0);
    }
    lemma_sort_falling(sc);
    let f = spec_pareto_frontier(pts, floor);
    assert(f == indices_of(sc.reverse()));
    assert forall|a: int, i: int|
        0 <= a < f.len() && 0 <= i < pts.len() && (#[trigger] pts[i]).y_comparable
            implies !outdoes(pts[i], pts[(#[trigger] f[a]) as int]) by {
        assert(f[a] == sc[sc.len() - 1 - a].1);
        assert(walk_visits(o, i));
        let k = choose|k: int| 0 <= k < o.len() && (#[trigger] o[k]).1 == i;
        assert(pts[o[k].1 as int].y_comparable);
    }
}

// ---------------------------------------------------------------------------
// Picking the best
// ---------------------------------------------------------------------------

/// Keeping the better of the entry kept so far and the next one: for the largest key a
/// tie goes to the later entry, for the smallest to the earlier one, as `max_by` and
/// `min_by` of iterators decide.
pub open spec fn keep_better<T>(acc: (Seq<i64>, T), next: (Seq<i64>, T), largest: bool) -> (Seq<i64>, T) {
    if largest {
        if lex_lt(next.0, acc.0) {
            acc
        } else {
            next
        }
    } else {
        if lex_lt(next.0, acc.0) {
            next
        } else {
            acc
        }
    }
}

/// The entry that a left-to-right pass keeps as the best.
pub open spec fn best_of<T>(s: Seq<(Seq<i64>, T)>, largest: bool) -> (Seq<i64>, T)
    recommends
        s.len() > 0,
    decreases s.len(),
{
    if s.len() <= 1 {
        s[0]
    } else {
        keep_better(best_of(s.drop_last(), largest), s.last(), largest)
    }
}

/// Where the entry that a left-to-right pass keeps as the best stands.
fn best_index(entries: &Vec<(Vec<i64>, usize)>, largest: bool) -> (b: usize)
    requires
        entries@.len() > 0,
    ensures
        b < entries@.len(),
        entries_view(entries@)[b as int] == best_of(entries_view(entries@), largest),
{
    let ghost ev = entries_view(entries@);
    let mut best: usize = 0;
    let mut i: usize = 1;
    assert(ev.take(1).len() == 1);
    while i < entries.len()
        invariant
            1 <= i <= entries@.len(),
            best < i,
            ev == entries_view(entries@),
            ev[best as int] == best_of(ev.take(i as int), largest),
        decreases entries.len() - i,
    {
        assert(ev.take(i + 1).drop_last() =~= ev.take(i as int));
        assert(ev.take(i + 1).last() == ev[i as int]);
        assert(ev[i as int].0 == entries@[i as int].0@);
        assert(ev[best as int].0 == entries@[best as int].0@);
        let next_first = key_less(&entries[i].0, &entries[best].0);
        if largest {
            if !next_first {
                best = i;
            }
        } else {
            if next_first {
                best = i;
            }
        }
        i = i + 1;
    }
    assert(ev.take(ev.len() as int) =~= ev);
    best
}

/// The position that the entry with the largest key (the last such) or the smallest key
/// (the first such) carries, or none when there are no entries.
pub fn pick_best(entries: &Vec<(Vec<i64>, usize)>, largest: bool) -> (r: Option<usize>)
    ensures
        entries@.len() == 0 ==> r is None,
        entries@.len() > 0 ==> r == Some(best_of(entries_view(entries@), largest).1),
{
    if entries.len() == 0 {
        return None;
    }
    let best = best_index(entries, largest);
    Some(entries[best].1)
}

/// One step of a hill climb from a point whose key is `current`, over its neighbours
/// `entries` (larger keys are better): the position of the best neighbour when its key
/// beats `current`, else `None`, and the climb stops.
pub fn climb_step(entries: &Vec<(Vec<i64>, usize)>, current: &Vec<i64>) -> (r: Option<usize>)
    ensures
        r == (if entries@.len() > 0 && lex_lt(current@, best_of(entries_view(entries@), true).0) {
            Some(best_of(entries_view(entries@), true).1)
        } else {
            None::<usize>
        }),
{
    if entries.len() == 0 {
        return None;
    }
    let best = best_index(entries, true);
    assert(entries_view(entries@)[best as int].0 == entries@[best as int].0@);
    if key_less(current, &entries[best].0) {
        Some(entries[best].1)
    } else {
        None
    }
}


proof fn lemma_lex_total(a: Seq<i64>, b: Seq<i64>)
    ensures
        lex_lt(a, b) || lex_lt(b, a) || a == b,
    decreases a.len(),
{
    if a.len() > 0 && b.len() > 0 && a[0] == b[0] {
        lemma_lex_total(a.drop_first(), b.drop_first());
        if a.drop_first() == b.drop_first() {
            assert(a =~= seq![a[0]] + a.drop_first());
            assert(b =~= seq![b[0]] + b.drop_first());
        }
    } else if a.len() == 0 && b.len() == 0 {
        assert(a =~= b);
    }
}

proof fn lemma_lex_asymmetric(a: Seq<i64>, b: Seq<i64>)
    ensures
        !(lex_lt(a, b) && lex_lt(b, a)),
{
    if lex_lt(a, b) && lex_lt(b, a) {
        lemma_lex_trans(a, b, a);
        lemma_lex_irreflexive(a);
    }
}

/// The picked entry is extreme: no entry has a key strictly beyond its key.
pub proof fn lemma_best_is_extreme<T>(s: Seq<(Seq<i64>, T)>, largest: bool)
    requires
        s.len() > 0,
    ensures
        s.contains(best_of(s, largest)),
        forall|i: int| 0 <= i < s.len() ==> if largest {
            !lex_lt(best_of(s, largest).0, #[trigger] s[i].0)
        } else {
            !lex_lt(s[i].0, best_of(s, largest).0)
        },
    decreases s.len(),
{
    if s.len() == 1 {
        assert(s[0] == best_of(s, largest));
        lemma_lex_irreflexive(s[0].0);
    } else {
        let d = s.drop_last();
        lemma_best_is_extreme(d, largest);
        let acc = best_of(d, largest);
        let next = s.last();
        let b = best_of(s, largest);
        lemma_lex_asymmetric(next.0, acc.0);
        lemma_lex_total(next.0, acc.0);
        lemma_lex_irreflexive(next.0);
        lemma_lex_irreflexive(acc.0);
        let j = choose|j: int| 0 <= j < d.len() && d[j] == acc;
        assert(s[j] == acc);
        assert(s[s.len() - 1] == next);
        assert forall|i: int| 0 <= i < s.len() implies if largest {
            !lex_lt(b.0, #[trigger] s[i].0)
        } else {
            !lex_lt(s[i].0, b.0)
        } by {
            if i < s.len() - 1 {
                assert(s[i] == d[i]);
                let e = s[i].0;
                if largest {
                    if !lex_lt(next.0, acc.0) && lex_lt(next.0, e) {
                        if acc.0 != next.0 {
                            lemma_lex_trans(acc.0, next.0, e);
                        }
                    }
                } else {
                    if lex_lt(next.0, acc.0) && lex_lt(e, next.0) {
                        lemma_lex_trans(e, next.0, acc.0);
                    }
                }
            }
        }
    }
}

// ---------------------------------------------------------------------------
// The labelled points of the final pool
// ---------------------------------------------------------------------------

/// What choosing the labelled points reads of a point of the final pool: its ranking
/// facts; whether its spread floor lies within the regret bound below that of the
/// recommended point; and its order keys for the Aggressive, Calm and Max Spread labels.
#[derive(Debug)]
pub struct LabelFacts {
    pub rank: RankFacts,
    pub within_regret: bool,
    pub aggressive_key: Vec<i64>,
    pub calm_key: Vec<i64>,
    pub max_spread_key: Vec<i64>,
}

pub struct LabelFactsView {
    pub rank: RankFactsView,
    pub within_regret: bool,
    pub aggressive_key: Seq<i64>,
    pub calm_key: Seq<i64>,
    pub max_spread_key: Seq<i64>,
}

impl View for LabelFacts {
    type V = LabelFactsView;

    open spec fn view(&self) -> LabelFactsView {
        LabelFactsView {
            rank: self.rank@,
            within_regret: self.within_regret,
            aggressive_key: self.aggressive_key@,
            calm_key: self.calm_key@,
            max_spread_key: self.max_spread_key@,
        }
    }
}

pub open spec fn label_facts_view(v: Seq<LabelFacts>) -> Seq<LabelFactsView> {
    v.map_values(|f: LabelFacts| f@)
}

pub open spec fn rank_views(f: Seq<LabelFactsView>) -> Seq<RankFactsView> {
    f.map_values(|x: LabelFactsView| x.rank)
}

/// The pools of the spread labels: Aggressive and Calm choose among the northeast points
/// within the regret bound, Max Spread among all points.
#[derive(Debug, Clone, Copy, PartialEq, Eq, Structural)]
pub enum SpreadList {
    Aggressive,
    Calm,
    MaxSpread,
}

pub open spec fn in_spread_list(f: LabelFactsView, l: SpreadList) -> bool {
    match l {
        SpreadList::MaxSpread => true,
        _ => f.rank.northeast && f.within_regret,
    }
}

pub open spec fn spread_list_key(f: LabelFactsView, l: SpreadList) -> Seq<i64> {
    match l {
        SpreadList::Aggressive => f.aggressive_key,
        SpreadList::Calm => f.calm_key,
        SpreadList::MaxSpread => f.max_spread_key,
    }
}

/// Positions of the points in spread list `l`, keyed for it, in pool order.
pub open spec fn spread_members(f: Seq<LabelFactsView>, l: SpreadList) -> Seq<(Seq<i64>, usize)>
    decreases f.len(),
{
    if f.len() == 0 {
        seq![]
    } else {
        let r = spread_members(f.drop_last(), l);
        if in_spread_list(f.last(), l) {
            r.push((spread_list_key(f.last(), l), (f.len() - 1) as usize))
        } else {
            r
        }
    }
}

/// The position that the best entry carries, if there is an entry.
pub open spec fn best_position(s: Seq<(Seq<i64>, usize)>, largest: bool) -> Option<usize> {
    if s.len() == 0 {
        None
    } else {
        Some(best_of(s, largest).1)
    }
}

/// The labelled points, by position in the pool.
#[derive(Debug, Clone, Copy, PartialEq, Eq, Structural)]
pub struct ChosenPoints {
    pub recommended: Option<usize>,
    pub aggressive: Option<usize>,
    pub calm: Option<usize>,
    pub efficiency: Option<usize>,
    pub memory: Option<usize>,
    pub max_spread: Option<usize>,
}

/// The recommended point: the northeast point with the largest equivalence key (the last
/// such), none where no point lies northeast.
pub open spec fn spec_recommended(f: Seq<LabelFactsView>) -> Option<usize> {
    best_position(members(rank_views(f), RankList::Recommended), true)
}

/// The best of list `l`, or of the whole pool where `l` has no member.
pub open spec fn best_or_everyone(r: Seq<RankFactsView>, l: RankList) -> Option<usize> {
    let m = members(r, l);
    best_position(if m.len() == 0 { everyone(r, l) } else { m }, true)
}

/// The labelled points of a pool. Where a point lies northeast: Recommended; Aggressive
/// with the largest and Calm with the smallest spread key among the northeast points
/// within the regret bound, both the recommended point where none is. Efficiency and
/// Memory Potential: the best by their keys among the points in their band, or among
/// all points where none is. Max Spread: the best of all points.
pub open spec fn spec_chosen_points(f: Seq<LabelFactsView>) -> ChosenPoints {
    let r = rank_views(f);
    let rec = spec_recommended(f);
    let ag = spread_members(f, SpreadList::Aggressive);
    let cm = spread_members(f, SpreadList::Calm);
    ChosenPoints {
        recommended: rec,
        aggressive: if rec is None { None } else if ag.len() == 0 { rec } else { best_position(ag, true) },
        calm: if rec is None { None } else if cm.len() == 0 { rec } else { best_position(cm, false) },
        efficiency: best_or_everyone(r, RankList::Efficiency),
        memory: best_or_everyone(r, RankList::Memory),
        max_spread: best_position(spread_members(f, SpreadList::MaxSpread), true),
    }
}

/// Members and everyone of rank list `l` over the facts.
fn rank_entries(facts: &Vec<LabelFacts>, l: RankList) -> (r: (Vec<(Vec<i64>, usize)>, Vec<(Vec<i64>, usize)>))
    ensures
        entries_view(r.0@) == members(rank_views(label_facts_view(facts@)), l),
        entries_view(r.1@) == everyone(rank_views(label_facts_view(facts@)), l),
{
    let ghost rv = rank_views(label_facts_view(facts@));
    let mut m: Vec<(Vec<i64>, usize)> = Vec::new();
    let mut all: Vec<(Vec<i64>, usize)> = Vec::new();
    let mut i: usize = 0;
    while i < facts.len()
        invariant
            i <= facts@.len(),
            rv == rank_views(label_facts_view(facts@)),
            entries_view(m@) == members(rv.take(i as int), l),
            entries_view(all@) == everyone(rv, l).take(i as int),
        decreases facts.len() - i,
    {
        assert(rv.take(i + 1).drop_last() =~= rv.take(i as int));
        assert(rv.take(i + 1).last() == facts@[i as int].rank@);
        let ghost before_m = entries_view(m@);
        let ghost before_all = entries_view(all@);
        let f = &facts[i].rank;
        let member = match l {
            RankList::Recommended => f.northeast,
            RankList::Efficiency => f.in_x_band,
            RankList::Memory => f.in_y_band,
        };
        if member {
            m.push((list_key_exec(f, l), i));
            assert(entries_view(m@) =~= before_m.push((list_key(rv[i as int], l), i)));
        }
        all.push((list_key_exec(f, l), i));
        assert(entries_view(all@) =~= before_all.push((list_key(rv[i as int], l), i)));
        assert(everyone(rv, l).take(i + 1) =~= everyone(rv, l).take(i as int).push(everyone(rv, l)[i as int]));
        i = i + 1;
    }
    assert(rv.take(rv.len() as int) =~= rv);
    assert(everyone(rv, l).take(rv.len() as int) =~= everyone(rv, l));
    (m, all)
}

/// Members of spread list `l` over the facts.
fn spread_entries(facts: &Vec<LabelFacts>, l: SpreadList) -> (r: Vec<(Vec<i64>, usize)>)
    ensures
        entries_view(r@) == spread_members(label_facts_view(facts@), l),
{
    let ghost fv = label_facts_view(facts@);
    let mut m: Vec<(Vec<i64>, usize)> = Vec::new();
    let mut i: usize = 0;
    while i < facts.len()
        invariant
            i <= facts@.len(),
            fv == label_facts_view(facts@),
            entries_view(m@) == spread_members(fv.take(i as int), l),
        decreases facts.len() - i,
    {
        assert(fv.take(i + 1).drop_last() =~= fv.take(i as int));
        assert(fv.take(i + 1).last() == facts@[i as int]@);
        let ghost before = entries_view(m@);
        let f = &facts[i];
        let member = match l {
            SpreadList::MaxSpread => true,
            _ => f.rank.northeast && f.within_regret,
        };
        if member {
            let key = match l {
                SpreadList::Aggressive => f.aggressive_key.clone(),
                SpreadList::Calm => f.calm_key.clone(),
                SpreadList::MaxSpread => f.max_spread_key.clone(),
            };
            m.push((key, i));
            assert(entries_view(m@) =~= before.push((spread_list_key(fv[i as int], l), i)));
        }
        i = i + 1;
    }
    assert(fv.take(fv.len() as int) =~= fv);
    m
}

/// The recommended point of the pool, which fixes the regret bound of the spread labels.
pub fn pick_recommended(facts: &Vec<LabelFacts>) -> (r: Option<usize>)
    ensures
        r == spec_recommended(label_facts_view(facts@)),
{
    let (m, _) = rank_entries(facts, RankList::Recommended);
    pick_best(&m, true)
}

/// The labelled points of the pool, by position.
pub fn choose_labelled_points(facts: &Vec<LabelFacts>) -> (r: ChosenPoints)
    ensures
        r == spec_chosen_points(label_facts_view(facts@)),
{
    let recommended = pick_recommended(facts);
    let ag = spread_entries(facts, SpreadList::Aggressive);
    let cm = spread_entries(facts, SpreadList::Calm);
    let (aggressive, calm) = match recommended {
        None => (None, None),
        Some(_) => (
            if ag.len() == 0 { recommended } else { pick_best(&ag, true) },
            if cm.len() == 0 { recommended } else { pick_best(&cm, false) },
        ),
    };
    let (em, ea) = rank_entries(facts, RankList::Efficiency);
    let efficiency = if em.len() == 0 { pick_best(&ea, true) } else { pick_best(&em, true) };
    let (mm, ma) = rank_entries(facts, RankList::Memory);
    let memory = if mm.len() == 0 { pick_best(&ma, true) } else { pick_best(&mm, true) };
    let ms = spread_entries(facts, SpreadList::MaxSpread);
    let max_spread = pick_best(&ms, true);
    ChosenPoints { recommended, aggressive, calm, efficiency, memory, max_spread }
}

proof fn lemma_members_props(r: Seq<RankFactsView>, l: RankList)
    requires
        r.len() <= usize::MAX,
    ensures
        forall|j: int| 0 <= j < members(r, l).len() ==> {
            let e = #[trigger] members(r, l)[j];
            e.1 < r.len() && in_list(r[e.1 as int], l)
        },
        (members(r, l).len() == 0) <==> !(exists|i: int| 0 <= i < r.len() && in_list(#[trigger] r[i], l)),
    decreases r.len(),
{
    if r.len() > 0 {
        let d = r.drop_last();
        lemma_members_props(d, l);
        let m = members(r, l);
        let md = members(d, l);
        assert forall|j: int| 0 <= j < m.len() implies {
            let e = #[trigger] m[j];
            e.1 < r.len() && in_list(r[e.1 as int], l)
        } by {
            if j < md.len() {
                assert(m[j] == md[j]);
                assert(d[md[j].1 as int] == r[md[j].1 as int]);
            } else {
                assert(m[j] == (list_key(r.last(), l), (r.len() - 1) as usize));
                assert(r[r.len() - 1] == r.last());
            }
        }
        if exists|i: int| 0 <= i < r.len() && in_list(#[trigger] r[i], l) {
            let i = choose|i: int| 0 <= i < r.len() && in_list(#[trigger] r[i], l);
            if i < d.len() {
                assert(in_list(d[i], l));
            } else {
                assert(m.len() > 0);
            }
        }
        if exists|i: int| 0 <= i < d.len() && in_list(#[trigger] d[i], l) {
            let i = choose|i: int| 0 <= i < d.len() && in_list(#[trigger] d[i], l);
            assert(in_list(r[i], l));
        }
    }
}

proof fn lemma_everyone_props(r: Seq<RankFactsView>, l: RankList)
    ensures
        everyone(r, l).len() == r.len(),
        forall|j: int| 0 <= j < everyone(r, l).len() ==> (#[trigger] everyone(r, l)[j]).1 < r.len(),
{
}

proof fn lemma_spread_members_props(f: Seq<LabelFactsView>, l: SpreadList)
    requires
        f.len() <= usize::MAX,
    ensures
        forall|j: int| 0 <= j < spread_members(f, l).len() ==> {
            let e = #[trigger] spread_members(f, l)[j];
            e.1 < f.len() && in_spread_list(f[e.1 as int], l) && e.0 == spread_list_key(f[e.1 as int], l)
        },
        forall|i: int| 0 <= i < f.len() && in_spread_list(#[trigger] f[i], l) ==> spread_members(f, l).contains(
            (spread_list_key(f[i], l), i as usize),
        ),
    decreases f.len(),
{
    if f.len() > 0 {
        let d = f.drop_last();
        lemma_spread_members_props(d, l);
        let m = spread_members(f, l);
        let md = spread_members(d, l);
        assert forall|j: int| 0 <= j < m.len() implies {
            let e = #[trigger] m[j];
            e.1 < f.len() && in_spread_list(f[e.1 as int], l) && e.0 == spread_list_key(f[e.1 as int], l)
        } by {
            if j < md.len() {
                assert(m[j] == md[j]);
                assert(d[md[j].1 as int] == f[md[j].1 as int]);
            } else {
                assert(m[j] == (spread_list_key(f.last(), l), (f.len() - 1) as usize));
                assert(f[f.len() - 1] == f.last());
            }
        }
        assert forall|i: int| 0 <= i < f.len() && in_spread_list(#[trigger] f[i], l) implies m.contains(
            (spread_list_key(f[i], l), i as usize),
        ) by {
            if i < f.len() - 1 {
                assert(d[i] == f[i]);
                let j = choose|j: int| 0 <= j < md.len() && md[j] == (spread_list_key(d[i], l), i as usize);
                assert(m[j] == md[j]);
            } else {
                assert(m[m.len() - 1] == (spread_list_key(f.last(), l), (f.len() - 1) as usize));
            }
        }
    }
}

proof fn lemma_best_or_everyone(r: Seq<RankFactsView>, l: RankList)
    requires
        r.len() <= usize::MAX,
    ensures
        best_or_everyone(r, l) is Some <==> r.len() > 0,
        forall|i: usize| best_or_everyone(r, l) == Some(i) ==> i < r.len(),
{
    lemma_members_props(r, l);
    lemma_everyone_props(r, l);
    let m = members(r, l);
    let p = if m.len() == 0 { everyone(r, l) } else { m };
    if r.len() > 0 {
        assert(p.len() > 0);
        lemma_best_is_extreme(p, true);
        let j = choose|j: int| 0 <= j < p.len() && p[j] == best_of(p, true);
        assert(p[j].1 < r.len());
    } else {
        assert(m.len() == 0);
    }
}

/// Every labelled point is a point of the pool, a pool with points gives every label but
/// the three northeast ones, and those three (Recommended, Aggressive, Calm) are given
/// exactly when some point lies northeast, and then lie northeast.
pub proof fn lemma_chosen_points(f: Seq<LabelFactsView>)
    requires
        f.len() <= usize::MAX,
    ensures
        ({
            let c = spec_chosen_points(f);
            &&& c.recommended is Some <==> exists|i: int| 0 <= i < f.len() && (#[trigger] f[i]).rank.northeast
            &&& (c.aggressive is Some <==> c.recommended is Some) && (c.calm is Some <==> c.recommended is Some)
            &&& (f.len() > 0 <==> c.efficiency is Some) && (f.len() > 0 <==> c.memory is Some)
            &&& (f.len() > 0 <==> c.max_spread is Some)
            &&& forall|i: usize| c.recommended == Some(i) || c.aggressive == Some(i) || c.calm == Some(i)
                ==> i < f.len() && f[i as int].rank.northeast
            &&& forall|i: usize| c.efficiency == Some(i) || c.memory == Some(i) || c.max_spread == Some(i)
                ==> i < f.len()
        }),
{
    let r = rank_views(f);
    let c = spec_chosen_points(f);
    lemma_members_props(r, RankList::Recommended);
    lemma_members_props(r, RankList::Efficiency);
    lemma_members_props(r, RankList::Memory);
    lemma_everyone_props(r, RankList::Efficiency);
    lemma_everyone_props(r, RankList::Memory);
    lemma_spread_members_props(f, SpreadList::Aggressive);
    lemma_spread_members_props(f, SpreadList::Calm);
    lemma_spread_members_props(f, SpreadList::MaxSpread);
    assert forall|i: int| 0 <= i < f.len() implies (#[trigger] r[i]) == f[i].rank by {}
    assert((exists|i: int| 0 <= i < r.len() && in_list(#[trigger] r[i], RankList::Recommended)) <==> exists|i: int|
        0 <= i < f.len() && (#[trigger] f[i]).rank.northeast) by {
        if exists|i: int| 0 <= i < f.len() && (#[trigger] f[i]).rank.northeast {
            let i = choose|i: int| 0 <= i < f.len() && (#[trigger] f[i]).rank.northeast;
            assert(in_list(r[i], RankList::Recommended));
        }
    }
    let rm = members(r, RankList::Recommended);
    if rm.len() > 0 {
        lemma_best_is_extreme(rm, true);
        let j = choose|j: int| 0 <= j < rm.len() && rm[j] == best_of(rm, true);
        assert(rm[j].1 < r.len());
    }
    let ag = spread_members(f, SpreadList::Aggressive);
    if ag.len() > 0 {
        lemma_best_is_extreme(ag, true);
        let j = choose|j: int| 0 <= j < ag.len() && ag[j] == best_of(ag, true);
        assert(ag[j].1 < f.len());
    }
    let cm = spread_members(f, SpreadList::Calm);
    if cm.len() > 0 {
        lemma_best_is_extreme(cm, false);
        let j = choose|j: int| 0 <= j < cm.len() && cm[j] == best_of(cm, false);
        assert(cm[j].1 < f.len());
    }
    let ms = spread_members(f, SpreadList::MaxSpread);
    if f.len() > 0 {
        assert(in_spread_list(f[f.len() - 1], SpreadList::MaxSpread));
        assert(ms.len() > 0);
        lemma_best_is_extreme(ms, true);
        let j = choose|j: int| 0 <= j < ms.len() && ms[j] == best_of(ms, true);
        assert(ms[j].1 < f.len());
    }
    lemma_best_or_everyone(r, RankList::Efficiency);
    lemma_best_or_everyone(r, RankList::Memory);
}

/// Aggressive and Calm are chosen among the northeast points within the regret bound
/// where there are any: Aggressive is such a point whose Aggressive key no other such
/// point exceeds, Calm one whose Calm key no other such point falls below. Where there is
/// none, both are the recommended point.
pub proof fn lemma_spread_labels(f: Seq<LabelFactsView>)
    requires
        f.len() <= usize::MAX,
    ensures
        ({
            let c = spec_chosen_points(f);
            let pooled = exists|i: int| 0 <= i < f.len() && (#[trigger] f[i]).rank.northeast && f[i].within_regret;
            &&& pooled ==> (c.aggressive matches Some(a) && a < f.len() && f[a as int].rank.northeast
                && f[a as int].within_regret && forall|i: int|
                0 <= i < f.len() && (#[trigger] f[i]).rank.northeast && f[i].within_regret
                    ==> !lex_lt(f[a as int].aggressive_key, f[i].aggressive_key))
            &&& pooled ==> (c.calm matches Some(b) && b < f.len() && f[b as int].rank.northeast
                && f[b as int].within_regret && forall|i: int|
                0 <= i < f.len() && (#[trigger] f[i]).rank.northeast && f[i].within_regret
                    ==> !lex_lt(f[i].calm_key, f[b as int].calm_key))
            &&& !pooled ==> c.aggressive == c.recommended && c.calm == c.recommended
        }),
{
    lemma_chosen_points(f);
    lemma_spread_members_props(f, SpreadList::Aggressive);
    lemma_spread_members_props(f, SpreadList::Calm);
    let c = spec_chosen_points(f);
    let ag = spread_members(f, SpreadList::Aggressive);
    let cm = spread_members(f, SpreadList::Calm);
    if exists|i: int| 0 <= i < f.len() && (#[trigger] f[i]).rank.northeast && f[i].within_regret {
        let i0 = choose|i: int| 0 <= i < f.len() && (#[trigger] f[i]).rank.northeast && f[i].within_regret;
        assert(in_spread_list(f[i0], SpreadList::Aggressive));
        assert(in_spread_list(f[i0], SpreadList::Calm));
        assert(ag.contains((spread_list_key(f[i0], SpreadList::Aggressive), i0 as usize)));
        assert(cm.contains((spread_list_key(f[i0], SpreadList::Calm), i0 as usize)));
        assert(c.recommended is Some);
        lemma_best_is_extreme(ag, true);
        lemma_best_is_extreme(cm, false);
        let ja = choose|j: int| 0 <= j < ag.len() && ag[j] == best_of(ag, true);
        let jc = choose|j: int| 0 <= j < cm.len() && cm[j] == best_of(cm, false);
        let a = ag[ja].1;
        let b = cm[jc].1;
        assert(c.aggressive == Some(a));
        assert(c.calm == Some(b));
        assert forall|i: int| 0 <= i < f.len() && (#[trigger] f[i]).rank.northeast && f[i].within_regret
            implies !lex_lt(f[a as int].aggressive_key, f[i].aggressive_key) by {
            assert(in_spread_list(f[i], SpreadList::Aggressive));
            let j = choose|j: int| 0 <= j < ag.len() && ag[j] == (spread_list_key(f[i], SpreadList::Aggressive), i as usize);
            assert(!lex_lt(best_of(ag, true).0, ag[j].0));
        }
        assert forall|i: int| 0 <= i < f.len() && (#[trigger] f[i]).rank.northeast && f[i].within_regret
            implies !lex_lt(f[i].calm_key, f[b as int].calm_key) by {
            assert(in_spread_list(f[i], SpreadList::Calm));
            let j = choose|j: int| 0 <= j < cm.len() && cm[j] == (spread_list_key(f[i], SpreadList::Calm), i as usize);
            assert(!lex_lt(cm[j].0, best_of(cm, false).0));
        }
    } else {
        if ag.len() > 0 {
            assert(in_spread_list(f[ag[0].1 as int], SpreadList::Aggressive));
        }
        if cm.len() > 0 {
            assert(in_spread_list(f[cm[0].1 as int], SpreadList::Calm));
        }
    }
}

/// The ranked frontier holds the points of the Pareto frontier, each once, best first by
/// equivalence key: no entry's key is below the next one's.
pub proof fn lemma_ranked_frontier_order(f: Seq<RankFactsView>, floor: i64)
    requires
        f.len() <= usize::MAX,
    ensures
        ({
            let r = spec_ranked_frontier(f, floor);
            let front = spec_pareto_frontier(f.map_values(|x: RankFactsView| x.frontier), floor);
            &&& r.len() == front.len()
            &&& forall|a: int| 0 <= a < r.len() ==> front.contains(#[trigger] r[a])
            &&& forall|b: int| 0 <= b < front.len() ==> r.contains(#[trigger] front[b])
            &&& forall|a: int, b: int|
                0 <= a < b < r.len() ==> !lex_lt(
                    f[(#[trigger] r[a]) as int].equivalence_key,
                    f[(#[trigger] r[b]) as int].equivalence_key,
                )
        }),
{
    let pts = f.map_values(|x: RankFactsView| x.frontier);
    let front = spec_pareto_frontier(pts, floor);
    lemma_frontier_in_range(pts, floor);
    let s = front.map_values(|i: usize| (f[i as int].equivalence_key, i));
    let sorted = sorted_seq(s, true);
    lemma_sort_sorted_permutation(s, true);
    let r = spec_ranked_frontier(f, floor);
    assert(r == indices_of(sorted));
    assert forall|k: int| 0 <= k < sorted.len() implies (#[trigger] sorted[k]).0 == f[sorted[k].1 as int].equivalence_key
        && front.contains(sorted[k].1) by {
        let e = sorted[k];
        assert(sorted.contains(e));
        vstd::seq_lib::to_multiset_contains(sorted, e);
        vstd::seq_lib::to_multiset_contains(s, e);
        let j = choose|j: int| 0 <= j < s.len() && s[j] == e;
        assert(front[j] == e.1);
    }
    assert forall|a: int| 0 <= a < r.len() implies front.contains(#[trigger] r[a]) by {
        assert(r[a] == sorted[a].1);
    }
    assert forall|b: int| 0 <= b < front.len() implies r.contains(#[trigger] front[b]) by {
        let e = s[b];
        assert(s.contains(e));
        vstd::seq_lib::to_multiset_contains(s, e);
        vstd::seq_lib::to_multiset_contains(sorted, e);
        let k = choose|k: int| 0 <= k < sorted.len() && sorted[k] == e;
        assert(r[k] == front[b]);
    }
    assert forall|a: int, b: int| 0 <= a < b < r.len() implies !lex_lt(
        f[(#[trigger] r[a]) as int].equivalence_key,
        f[(#[trigger] r[b]) as int].equivalence_key,
    ) by {
        assert(r[a] == sorted[a].1 && r[b] == sorted[b].1);
        assert(!goes_before(key_view(sorted[b]), key_view(sorted[a]), true));
        assert(sorted[a].0 == f[sorted[a].1 as int].equivalence_key);
        assert(sorted[b].0 == f[sorted[b].1 as int].equivalence_key);
    }
}

} // verus!
