//! Collections of search points kept in order, one entry per point key.
use vstd::prelude::*;
use crate::types::PointKey;

verus! {

/// Position of the last entry with key `k`, or -1 where there is none.
pub open spec fn key_index<T>(s: Seq<(PointKey, T)>, k: PointKey) -> int
    decreases s.len(),
{
    if s.len() == 0 {
        -1
    } else if s.last().0 == k {
        s.len() - 1
    } else {
        key_index(s.drop_last(), k)
    }
}

/// Whether some entry has key `k`.
pub open spec fn has_key<T>(s: Seq<(PointKey, T)>, k: PointKey) -> bool {
    exists|i: int| 0 <= i < s.len() && s[i].0 == k
}

/// No two entries share a key.
pub open spec fn distinct_keys<T>(s: Seq<(PointKey, T)>) -> bool {
    forall|i: int, j: int| 0 <= i < s.len() && 0 <= j < s.len() && i != j ==> s[i].0 != s[j].0
}

/// `item` in place of the entry with its key, or added at the end.
pub open spec fn upsert<T>(s: Seq<(PointKey, T)>, item: (PointKey, T)) -> Seq<(PointKey, T)> {
    let i = key_index(s, item.0);
    if i >= 0 {
        s.update(i, item)
    } else {
        s.push(item)
    }
}

/// The entries one per key, in the order in which keys first occur, each holding the
/// value of the last entry with its key.
pub open spec fn dedupe_seq<T>(items: Seq<(PointKey, T)>) -> Seq<(PointKey, T)>
    decreases items.len(),
{
    if items.len() == 0 {
        seq![]
    } else {
        upsert(dedupe_seq(items.drop_last()), items.last())
    }
}

/// Where a key stands: the last entry that holds it, or -1 where no entry does.
pub proof fn lemma_key_index<T>(s: Seq<(PointKey, T)>, k: PointKey)
    ensures
        -1 <= key_index(s, k) < s.len(),
        key_index(s, k) >= 0 ==> s[key_index(s, k)].0 == k,
        key_index(s, k) == -1 <==> !has_key(s, k),
        forall|j: int| key_index(s, k) < j < s.len() ==> s[j].0 != k,
    decreases s.len(),
{
    if s.len() > 0 {
        lemma_key_index(s.drop_last(), k);
        if s.last().0 != k && has_key(s, k) {
            let i = choose|i: int| 0 <= i < s.len() && s[i].0 == k;
            assert(s.drop_last()[i].0 == k);
        }
        if has_key(s.drop_last(), k) {
            let i = choose|i: int| 0 <= i < s.drop_last().len() && s.drop_last()[i].0 == k;
            assert(s[i].0 == k);
        }
        if s.last().0 != k {
            assert forall|j: int| key_index(s, k) < j < s.len() implies s[j].0 != k by {
                if j < s.len() - 1 {
                    assert(s.drop_last()[j] == s[j]);
                }
            }
        }
    }
}

/// Upserting into entries with distinct keys keeps the keys distinct, adds the item's key
/// and no other, and grows the entries by one exactly when the key was new.
pub proof fn lemma_upsert<T>(s: Seq<(PointKey, T)>, item: (PointKey, T))
    requires
        distinct_keys(s),
    ensures
        distinct_keys(upsert(s, item)),
        has_key(upsert(s, item), item.0),
        forall|k: PointKey| has_key(upsert(s, item), k) <==> (has_key(s, k) || k == item.0),
        upsert(s, item).len() == s.len() + (if has_key(s, item.0) { 0int } else { 1 }),
{
    lemma_key_index(s, item.0);
    let r = upsert(s, item);
    let i = key_index(s, item.0);
    if i >= 0 {
        assert(r[i].0 == item.0);
        assert forall|k: PointKey| has_key(r, k) <==> (has_key(s, k) || k == item.0) by {
            if has_key(s, k) {
                let j = choose|j: int| 0 <= j < s.len() && s[j].0 == k;
                assert(r[j].0 == k);
            }
            if has_key(r, k) {
                let j = choose|j: int| 0 <= j < r.len() && r[j].0 == k;
                if j != i {
                    assert(s[j].0 == k);
                }
            }
        }
    } else {
        assert(r[s.len() as int].0 == item.0);
        assert forall|k: PointKey| has_key(r, k) <==> (has_key(s, k) || k == item.0) by {
            if has_key(s, k) {
                let j = choose|j: int| 0 <= j < s.len() && s[j].0 == k;
                assert(r[j].0 == k);
            }
            if has_key(r, k) {
                let j = choose|j: int| 0 <= j < r.len() && r[j].0 == k;
                if j < s.len() {
                    assert(s[j].0 == k);
                }
            }
        }
    }
}

/// The position of the entry with key `k`, if there is one.
pub fn find_key<T>(v: &Vec<(PointKey, T)>, k: PointKey) -> (r: Option<usize>)
    ensures
        match r {
            Some(i) => i == key_index(v@, k),
            None => key_index(v@, k) == -1,
        },
{
    let mut i: usize = v.len();
    assert(v@.take(i as int) =~= v@);
    while i > 0
        invariant
            i <= v@.len(),
            key_index(v@, k) == key_index(v@.take(i as int), k),
        decreases i,
    {
        assert(v@.take(i as int).drop_last() =~= v@.take(i - 1));
        if v[i - 1].0 == k {
            return Some(i - 1);
        }
        i = i - 1;
    }
    None
}

/// Puts `item` in place of the entry with its key, or adds it at the end.
pub fn upsert_keyed<T>(v: &mut Vec<(PointKey, T)>, item: (PointKey, T))
    ensures
        final(v)@ == upsert(old(v)@, item),
{
    match find_key(v, item.0) {
        Some(i) => {
            proof {
                lemma_key_index(v@, item.0);
            }
            v.set(i, item);
        },
        None => {
            v.push(item);
        },
    }
}

/// One entry per key, in the order in which the keys first occur, each with the value
/// of the last entry that had its key.
pub fn dedupe_by_key<T>(items: Vec<(PointKey, T)>) -> (r: Vec<(PointKey, T)>)
    ensures
        r@ == dedupe_seq(items@),
{
    let ghost all = items@;
    let mut out: Vec<(PointKey, T)> = Vec::new();
    for item in it: items
        invariant
            it.seq() == all,
            out@ == dedupe_seq(all.take(it.index() as int)),
    {
        assert(all.take(it.index() + 1).drop_last() =~= all.take(it.index() as int));
        upsert_keyed(&mut out, item);
    }
    assert(all.take(all.len() as int) =~= all);
    out
}


/// A set of entries with distinct keys is its own deduplication.
pub proof fn lemma_dedupe_distinct_fixed<T>(s: Seq<(PointKey, T)>)
    requires
        distinct_keys(s),
    ensures
        dedupe_seq(s) == s,
    decreases s.len(),
{
    if s.len() > 0 {
        let d = s.drop_last();
        assert(distinct_keys(d));
        lemma_dedupe_distinct_fixed(d);
        lemma_key_index(d, s.last().0);
        if has_key(d, s.last().0) {
            let j = choose|j: int| 0 <= j < d.len() && d[j].0 == s.last().0;
            assert(s[j].0 == s[s.len() - 1].0);
        }
        assert(d.push(s.last()) =~= s);
    }
}

/// Deduplication leaves one entry per key, keeps every key, and brings in no other.
pub proof fn lemma_dedupe_keys<T>(items: Seq<(PointKey, T)>)
    ensures
        distinct_keys(dedupe_seq(items)),
        forall|k: PointKey| has_key(dedupe_seq(items), k) <==> has_key(items, k),
        dedupe_seq(items).len() <= items.len(),
    decreases items.len(),
{
    if items.len() > 0 {
        let d = items.drop_last();
        lemma_dedupe_keys(d);
        lemma_upsert(dedupe_seq(d), items.last());
        assert forall|k: PointKey| has_key(dedupe_seq(items), k) <==> has_key(items, k) by {
            if has_key(d, k) {
                let j = choose|j: int| 0 <= j < d.len() && d[j].0 == k;
                assert(items[j].0 == k);
            }
            if has_key(items, k) && k != items.last().0 {
                let j = choose|j: int| 0 <= j < items.len() && items[j].0 == k;
                assert(d[j].0 == k);
            }
            if k == items.last().0 {
                assert(items[items.len() - 1].0 == k);
            }
        }
    }
}

/// Deduplicating twice gives what deduplicating once gives.
pub proof fn lemma_dedupe_idempotent<T>(items: Seq<(PointKey, T)>)
    ensures
        dedupe_seq(dedupe_seq(items)) == dedupe_seq(items),
{
    lemma_dedupe_keys(items);
    lemma_dedupe_distinct_fixed(dedupe_seq(items));
}

/// The entry that deduplication keeps for a key holds the value of the last entry that
/// had the key: a later evaluation of a point replaces an earlier one.
pub proof fn lemma_dedupe_last_value<T>(items: Seq<(PointKey, T)>, k: PointKey)
    requires
        has_key(items, k),
    ensures
        key_index(dedupe_seq(items), k) >= 0,
        dedupe_seq(items)[key_index(dedupe_seq(items), k)] == items[key_index(items, k)],
    decreases items.len(),
{
    let d = items.drop_last();
    let r = dedupe_seq(d);
    let last = items.last();
    let u = dedupe_seq(items);
    assert(u == upsert(r, last));
    lemma_dedupe_keys(d);
    lemma_dedupe_keys(items);
    lemma_key_index(r, last.0);
    lemma_key_index(items, k);
    lemma_key_index(u, k);
    let m = key_index(r, last.0);
    if last.0 == k {
        assert(key_index(items, k) == items.len() - 1);
        let pos = if m >= 0 { m } else { r.len() as int };
        assert(u[pos] == last);
        assert(key_index(u, k) == pos);
    } else {
        let j = choose|j: int| 0 <= j < items.len() && items[j].0 == k;
        assert(j != items.len() - 1);
        assert(d[j].0 == k);
        lemma_dedupe_last_value(d, k);
        lemma_key_index(d, k);
        lemma_key_index(r, k);
        let i = key_index(r, k);
        assert(key_index(items, k) == key_index(d, k));
        if m >= 0 {
            assert(r[m].0 != k);
            assert(u == r.update(m, last));
        } else {
            assert(u == r.push(last));
        }
        assert(u[i] == r[i]);
        assert(u[i].0 == k);
        assert(key_index(u, k) == i);
    }
}

/// The candidates that filtering lets through, each with its key: all of them, or, where
/// the quadrant is enforced, those marked as lying in it.
pub open spec fn quadrant_filter<T>(items: Seq<(PointKey, bool, T)>, enforce: bool) -> Seq<(PointKey, T)>
    decreases items.len(),
{
    if items.len() == 0 {
        seq![]
    } else {
        let r = quadrant_filter(items.drop_last(), enforce);
        let x = items.last();
        if enforce && !x.1 {
            r
        } else {
            r.push((x.0, x.2))
        }
    }
}

/// Some candidate has key `k` and, where the quadrant is enforced, lies in it.
pub open spec fn admitted_key<T>(items: Seq<(PointKey, bool, T)>, enforce: bool, k: PointKey) -> bool {
    exists|i: int| 0 <= i < items.len() && items[i].0 == k && (enforce ==> items[i].1)
}

/// Filtering keeps exactly the keys of the admitted candidates.
proof fn lemma_quadrant_filter<T>(items: Seq<(PointKey, bool, T)>, enforce: bool)
    ensures
        forall|k: PointKey|
            #![trigger has_key(quadrant_filter(items, enforce), k)]
            #![trigger admitted_key(items, enforce, k)]
            has_key(quadrant_filter(items, enforce), k) <==> admitted_key(items, enforce, k),
    decreases items.len(),
{
    let f = quadrant_filter(items, enforce);
    if items.len() > 0 {
        let d = items.drop_last();
        let x = items.last();
        lemma_quadrant_filter(d, enforce);
        let r = quadrant_filter(d, enforce);
        let kept = !(enforce && !x.1);
        assert(f == if kept { r.push((x.0, x.2)) } else { r });
        assert forall|k: PointKey| #![trigger has_key(f, k)] has_key(f, k) implies admitted_key(items, enforce, k) by {
            let j = choose|j: int| 0 <= j < f.len() && f[j].0 == k;
            if j < r.len() {
                assert(f[j] == r[j]);
                assert(has_key(r, k));
                assert(admitted_key(d, enforce, k));
                let i = choose|i: int| 0 <= i < d.len() && d[i].0 == k && (enforce ==> d[i].1);
                assert(items[i] == d[i]);
            } else {
                assert(kept && f[j] == (x.0, x.2));
                assert(items[items.len() - 1] == x);
            }
        }
        assert forall|k: PointKey| #![trigger admitted_key(items, enforce, k)] admitted_key(items, enforce, k)
            implies has_key(f, k) by {
            let i = choose|i: int| 0 <= i < items.len() && items[i].0 == k && (enforce ==> items[i].1);
            if i < d.len() {
                assert(d[i] == items[i]);
                assert(admitted_key(d, enforce, k));
                assert(has_key(r, k));
                let j = choose|j: int| 0 <= j < r.len() && r[j].0 == k;
                assert(f[j] == r[j]);
            } else {
                assert(items[i] == x);
                assert(f[f.len() - 1] == (x.0, x.2));
            }
        }
    } else {
        assert(f =~= Seq::<(PointKey, T)>::empty());
        assert forall|k: PointKey| has_key(f, k) <==> admitted_key(items, enforce, k) by {
            assert(!has_key(f, k));
            assert(!admitted_key(items, enforce, k));
        }
    }
}

/// Candidate deduplication keeps one entry per key, and the keys it keeps are the keys
/// of the candidates, those marked outside the quadrant left out when the quadrant is
/// enforced.
pub proof fn lemma_dedupe_candidates_keys<T>(items: Seq<(PointKey, bool, T)>, enforce_quadrant: bool)
    ensures
        distinct_keys(dedupe_seq(quadrant_filter(items, enforce_quadrant))),
        forall|k: PointKey|
            #![trigger has_key(dedupe_seq(quadrant_filter(items, enforce_quadrant)), k)]
            #![trigger admitted_key(items, enforce_quadrant, k)]
            has_key(dedupe_seq(quadrant_filter(items, enforce_quadrant)), k) <==> admitted_key(
                items,
                enforce_quadrant,
                k,
            ),
{
    let f = quadrant_filter(items, enforce_quadrant);
    lemma_quadrant_filter(items, enforce_quadrant);
    lemma_dedupe_keys(f);
    assert forall|k: PointKey| has_key(dedupe_seq(f), k) <==> admitted_key(items, enforce_quadrant, k) by {
        assert(has_key(dedupe_seq(f), k) <==> has_key(f, k));
        assert(has_key(f, k) <==> admitted_key(items, enforce_quadrant, k));
    }
}

/// Deduplicates snapped candidates by key. Each candidate comes with its key and with
/// whether it lies in the searched quadrant; those that do not are dropped first when
/// `enforce_quadrant` asks for it.
pub fn dedupe_candidates<T>(items: Vec<(PointKey, bool, T)>, enforce_quadrant: bool) -> (r: Vec<
    (PointKey, T),
>)
    ensures
        r@ == dedupe_seq(quadrant_filter(items@, enforce_quadrant)),
{
    let ghost all = items@;
    let mut kept: Vec<(PointKey, T)> = Vec::new();
    for item in it: items
        invariant
            it.seq() == all,
            kept@ == quadrant_filter(all.take(it.index() as int), enforce_quadrant),
    {
        assert(all.take(it.index() + 1).drop_last() =~= all.take(it.index() as int));
        let (key, inside, value) = item;
        if !enforce_quadrant || inside {
            kept.push((key, value));
        }
    }
    assert(all.take(all.len() as int) =~= all);
    dedupe_by_key(kept)
}

// ---------------------------------------------------------------------------
// Taking the best of ranked lists
// ---------------------------------------------------------------------------

/// `ranked` taken in order into `sel` (an entry with a key already there replaces it)
/// until `limit` new keys have come in, `count` of them having come in already. The
/// check comes after each entry, so a limit of zero still takes the first entry.
pub open spec fn add_top_seq<T>(sel: Seq<(PointKey, T)>, ranked: Seq<(PointKey, T)>, limit: int, count: int) -> Seq<(PointKey, T)>
    decreases ranked.len(),
{
    if ranked.len() == 0 {
        sel
    } else {
        let p = ranked[0];
        let c = if has_key(sel, p.0) { count } else { count + 1 };
        let s = upsert(sel, p);
        if c >= limit {
            s
        } else {
            add_top_seq(s, ranked.drop_first(), limit, c)
        }
    }
}

/// Takes the first entries of `ranked` into `selected` until `limit` new keys came in.
pub fn add_top<T>(selected: &mut Vec<(PointKey, T)>, ranked: Vec<(PointKey, T)>, limit: usize)
    ensures
        final(selected)@ == add_top_seq(old(selected)@, ranked@, limit as int, 0),
{
    let ghost r0 = ranked@;
    let ghost target = add_top_seq(old(selected)@, r0, limit as int, 0);
    let mut count: usize = 0;
    let mut done = false;
    let n = ranked.len();
    assert(r0.skip(0) =~= r0);
    for item in it: ranked
        invariant
            it.seq() == r0,
            r0.len() == n,
            count <= it.index(),
            done ==> selected@ == target,
            !done ==> target == add_top_seq(selected@, r0.skip(it.index() as int), limit as int, count as int),
    {
        if !done {
            let ghost rest = r0.skip(it.index() as int);
            assert(rest[0] == item);
            assert(rest.drop_first() =~= r0.skip(it.index() + 1));
            proof {
                lemma_key_index(selected@, item.0);
            }
            let new = find_key(selected, item.0).is_none();
            upsert_keyed(selected, item);
            if new {
                count = count + 1;
            }
            if count >= limit {
                done = true;
            }
        }
    }
}

/// Frontier entries with keys in neither `sel` nor `ext`, added to `ext` until `limit`
/// of them came in, `count` having come in already.
pub open spec fn extras_seq<T>(sel: Seq<(PointKey, T)>, ext: Seq<(PointKey, T)>, frontier: Seq<(PointKey, T)>, limit: int, count: int) -> Seq<(PointKey, T)>
    decreases frontier.len(),
{
    if frontier.len() == 0 {
        ext
    } else {
        let p = frontier[0];
        if has_key(sel, p.0) || has_key(ext, p.0) {
            extras_seq(sel, ext, frontier.drop_first(), limit, count)
        } else if count + 1 >= limit {
            ext.push(p)
        } else {
            extras_seq(sel, ext.push(p), frontier.drop_first(), limit, count + 1)
        }
    }
}

/// How many of each ranked list to promote.
#[derive(Debug, Clone, Copy, PartialEq, Eq, Structural)]
pub struct PromotionLimits {
    pub recommended: usize,
    pub efficiency: usize,
    pub memory: usize,
    pub pareto_extra: usize,
}

pub open spec fn spec_promotions<T>(
    recommended: Seq<(PointKey, T)>,
    efficiency: Seq<(PointKey, T)>,
    memory: Seq<(PointKey, T)>,
    frontier: Seq<(PointKey, T)>,
    limits: PromotionLimits,
    include_pareto_extra: bool,
    pareto_as_render_only: bool,
) -> (Seq<(PointKey, T)>, Seq<(PointKey, T)>) {
    let s1 = add_top_seq(seq![], recommended, limits.recommended as int, 0);
    let s2 = add_top_seq(s1, efficiency, limits.efficiency as int, 0);
    let s3 = add_top_seq(s2, memory, limits.memory as int, 0);
    let ext = if include_pareto_extra {
        extras_seq(s3, seq![], frontier, limits.pareto_extra as int, 0)
    } else {
        seq![]
    };
    if pareto_as_render_only {
        (s3, ext)
    } else {
        (s3 + ext, seq![])
    }
}

/// The promoted points of a phase from its ranked lists: the best recommended, then the
/// best by efficiency and by memory, then frontier points that none of those took, kept
/// apart when they only serve the plot.
pub fn select_promotions_from_ranked<T>(
    recommended: Vec<(PointKey, T)>,
    efficiency: Vec<(PointKey, T)>,
    memory: Vec<(PointKey, T)>,
    frontier: Vec<(PointKey, T)>,
    limits: PromotionLimits,
    include_pareto_extra: bool,
    pareto_as_render_only: bool,
) -> (r: (Vec<(PointKey, T)>, Vec<(PointKey, T)>))
    ensures
        (r.0@, r.1@) == spec_promotions(
            recommended@,
            efficiency@,
            memory@,
            frontier@,
            limits,
            include_pareto_extra,
            pareto_as_render_only,
        ),
{
    let mut selected: Vec<(PointKey, T)> = Vec::new();
    add_top(&mut selected, recommended, limits.recommended);
    add_top(&mut selected, efficiency, limits.efficiency);
    add_top(&mut selected, memory, limits.memory);
    let mut extras: Vec<(PointKey, T)> = Vec::new();
    if include_pareto_extra {
        let ghost f0 = frontier@;
        let ghost target = extras_seq(selected@, seq![], f0, limits.pareto_extra as int, 0);
        let mut count: usize = 0;
        let mut done = false;
        let n = frontier.len();
        assert(f0.skip(0) =~= f0);
        for item in it: frontier
            invariant
                it.seq() == f0,
                f0.len() == n,
                count <= it.index(),
                done ==> extras@ == target,
                !done ==> target == extras_seq(selected@, extras@, f0.skip(it.index() as int), limits.pareto_extra as int, count as int),
        {
            if !done {
                let ghost rest = f0.skip(it.index() as int);
                assert(rest[0] == item);
                assert(rest.drop_first() =~= f0.skip(it.index() + 1));
                proof {
                    lemma_key_index(selected@, item.0);
                    lemma_key_index(extras@, item.0);
                }
                let seen = find_key(&selected, item.0).is_some() || find_key(&extras, item.0).is_some();
                if !seen {
                    extras.push(item);
                    count = count + 1;
                    if count >= limits.pareto_extra {
                        done = true;
                    }
                }
            }
        }
    }
    if pareto_as_render_only {
        return (selected, extras);
    }
    let ghost s = selected@;
    let ghost e = extras@;
    let mut extras = extras;
    selected.append(&mut extras);
    assert(selected@ =~= s + e);
    (selected, Vec::new())
}


/// Taking ranked entries in keeps the keys distinct.
proof fn lemma_add_top_distinct<T>(sel: Seq<(PointKey, T)>, ranked: Seq<(PointKey, T)>, limit: int, count: int)
    requires
        distinct_keys(sel),
    ensures
        distinct_keys(add_top_seq(sel, ranked, limit, count)),
    decreases ranked.len(),
{
    if ranked.len() > 0 {
        lemma_upsert(sel, ranked[0]);
        let c = if has_key(sel, ranked[0].0) { count } else { count + 1 };
        if c < limit {
            lemma_add_top_distinct(upsert(sel, ranked[0]), ranked.drop_first(), limit, c);
        }
    }
}

/// Extras have distinct keys, none of them a key of `sel`.
pub open spec fn apart<T>(sel: Seq<(PointKey, T)>, ext: Seq<(PointKey, T)>) -> bool {
    &&& distinct_keys(ext)
    &&& forall|i: int| 0 <= i < ext.len() ==> !has_key(sel, #[trigger] ext[i].0)
}

proof fn lemma_extras_apart<T>(sel: Seq<(PointKey, T)>, ext: Seq<(PointKey, T)>, frontier: Seq<(PointKey, T)>, limit: int, count: int)
    requires
        apart(sel, ext),
    ensures
        apart(sel, extras_seq(sel, ext, frontier, limit, count)),
    decreases frontier.len(),
{
    if frontier.len() > 0 {
        let p = frontier[0];
        if !(has_key(sel, p.0) || has_key(ext, p.0)) {
            let e = ext.push(p);
            assert forall|i: int, j: int| 0 <= i < e.len() && 0 <= j < e.len() && i != j implies e[i].0 != e[j].0 by {
                if i == ext.len() as int {
                    assert(ext[j].0 != p.0);
                } else if j == ext.len() as int {
                    assert(ext[i].0 != p.0);
                }
            }
            assert(apart(sel, e));
            if count + 1 < limit {
                lemma_extras_apart(sel, e, frontier.drop_first(), limit, count + 1);
            }
        } else {
            lemma_extras_apart(sel, ext, frontier.drop_first(), limit, count);
        }
    }
}

/// Promotion never takes a point twice: the promoted entries have distinct keys, and the
/// extras kept for the plot have distinct keys that none of the promoted entries has.
pub proof fn lemma_promotions_distinct<T>(
    recommended: Seq<(PointKey, T)>,
    efficiency: Seq<(PointKey, T)>,
    memory: Seq<(PointKey, T)>,
    frontier: Seq<(PointKey, T)>,
    limits: PromotionLimits,
    include_pareto_extra: bool,
    pareto_as_render_only: bool,
)
    ensures
        distinct_keys(spec_promotions(recommended, efficiency, memory, frontier, limits, include_pareto_extra, pareto_as_render_only).0),
        apart(
            spec_promotions(recommended, efficiency, memory, frontier, limits, include_pareto_extra, pareto_as_render_only).0,
            spec_promotions(recommended, efficiency, memory, frontier, limits, include_pareto_extra, pareto_as_render_only).1,
        ),
{
    let empty = Seq::<(PointKey, T)>::empty();
    let s1 = add_top_seq(empty, recommended, limits.recommended as int, 0);
    let s2 = add_top_seq(s1, efficiency, limits.efficiency as int, 0);
    let s3 = add_top_seq(s2, memory, limits.memory as int, 0);
    lemma_add_top_distinct(empty, recommended, limits.recommended as int, 0);
    lemma_add_top_distinct(s1, efficiency, limits.efficiency as int, 0);
    lemma_add_top_distinct(s2, memory, limits.memory as int, 0);
    let ext = if include_pareto_extra {
        extras_seq(s3, empty, frontier, limits.pareto_extra as int, 0)
    } else {
        empty
    };
    if include_pareto_extra {
        lemma_extras_apart(s3, empty, frontier, limits.pareto_extra as int, 0);
    }
    if !pareto_as_render_only {
        let all = s3 + ext;
        assert forall|i: int, j: int| 0 <= i < all.len() && 0 <= j < all.len() && i != j implies all[i].0 != all[j].0 by {
            if i < s3.len() && j >= s3.len() {
                assert(!has_key(s3, ext[j - s3.len()].0));
            } else if j < s3.len() && i >= s3.len() {
                assert(!has_key(s3, ext[i - s3.len()].0));
            }
        }
        assert(apart(all, empty));
    }
}

// ---------------------------------------------------------------------------
// Seeds of the local search
// ---------------------------------------------------------------------------

/// The objective that a local-search seed climbs.
#[derive(Debug, Clone, Copy, PartialEq, Eq, Structural)]
pub enum SeedObjective {
    Recommended,
    Efficiency,
    Memory,
    Frontier,
}

impl SeedObjective {
    pub open spec fn spec_name(self) -> Seq<char> {
        match self {
            SeedObjective::Recommended => "recommended"@,
            SeedObjective::Efficiency => "efficiency"@,
            SeedObjective::Memory => "memory"@,
            SeedObjective::Frontier => "frontier"@,
        }
    }

    /// The objective's name.
    pub fn name(self) -> (r: &'static str)
        ensures
            r@ == self.spec_name(),
    {
        match self {
            SeedObjective::Recommended => "recommended",
            SeedObjective::Efficiency => "efficiency",
            SeedObjective::Memory => "memory",
            SeedObjective::Frontier => "frontier",
        }
    }
}

/// The first `n` entries of `s`, tagged with objective `o`.
pub open spec fn tagged<T>(o: SeedObjective, s: Seq<(PointKey, T)>, n: int) -> Seq<(SeedObjective, PointKey, T)> {
    let m = if n < s.len() { n } else { s.len() as int };
    s.take(m).map_values(|e: (PointKey, T)| (o, e.0, e.1))
}

pub open spec fn has_seed<T>(s: Seq<(SeedObjective, PointKey, T)>, o: SeedObjective, k: PointKey) -> bool {
    exists|i: int| 0 <= i < s.len() && s[i].0 == o && s[i].1 == k
}

/// The entries of `s` added to `acc` in order, each unless `acc` already holds its
/// objective and key.
pub open spec fn fold_seen<T>(acc: Seq<(SeedObjective, PointKey, T)>, s: Seq<(SeedObjective, PointKey, T)>) -> Seq<(SeedObjective, PointKey, T)>
    decreases s.len(),
{
    if s.len() == 0 {
        acc
    } else {
        let next = if has_seed(acc, s[0].0, s[0].1) {
            acc
        } else {
            acc.push(s[0])
        };
        fold_seen(next, s.drop_first())
    }
}

pub open spec fn spec_seed_profiles<T>(
    recommended: Seq<(PointKey, T)>,
    efficiency: Seq<(PointKey, T)>,
    memory: Seq<(PointKey, T)>,
    frontier: Seq<(PointKey, T)>,
    per_objective: int,
) -> Seq<(SeedObjective, PointKey, T)> {
    let a = fold_seen(seq![], tagged(SeedObjective::Recommended, recommended, per_objective));
    let b = fold_seen(a, tagged(SeedObjective::Efficiency, efficiency, per_objective));
    let c = fold_seen(b, tagged(SeedObjective::Memory, memory, per_objective));
    fold_seen(c, tagged(SeedObjective::Frontier, frontier, per_objective))
}

/// Whether `out` holds a seed with objective `o` and key `k`.
fn find_seed<T>(out: &Vec<(SeedObjective, PointKey, T)>, o: SeedObjective, k: PointKey) -> (b: bool)
    ensures
        b == has_seed(out@, o, k),
{
    let mut i: usize = 0;
    while i < out.len()
        invariant
            i <= out@.len(),
            forall|j: int| 0 <= j < i ==> !(out@[j].0 == o && out@[j].1 == k),
        decreases out.len() - i,
    {
        if out[i].0 == o && out[i].1 == k {
            return true;
        }
        i = i + 1;
    }
    false
}

fn add_seeds<T>(out: &mut Vec<(SeedObjective, PointKey, T)>, o: SeedObjective, list: Vec<(PointKey, T)>, n: usize)
    ensures
        final(out)@ == fold_seen(old(out)@, tagged(o, list@, n as int)),
{
    let ghost l0 = list@;
    let ghost t = tagged(o, l0, n as int);
    let ghost target = fold_seen(old(out)@, t);
    assert(t.skip(0) =~= t);
    let mut idx: usize = 0;
    let len = list.len();
    for item in it: list
        invariant
            it.seq() == l0,
            l0.len() == len,
            idx == it.index(),
            t == tagged(o, l0, n as int),
            target == fold_seen(out@, t.skip(if it.index() < t.len() { it.index() as int } else { t.len() as int })),
    {
        if idx < n {
            let ghost rest = t.skip(it.index() as int);
            assert(rest[0] == (o, item.0, item.1));
            assert(rest.drop_first() =~= t.skip(it.index() + 1));
            if !find_seed(out, o, item.0) {
                out.push((o, item.0, item.1));
            }
        }
        idx = idx + 1;
    }
    assert(t.skip(t.len() as int) =~= Seq::<(SeedObjective, PointKey, T)>::empty());
}

/// The seeds of the local search: the first `per_objective` entries of each ranked list,
/// tagged with the list's objective, each objective and key once.
pub fn seed_profiles<T>(
    recommended: Vec<(PointKey, T)>,
    efficiency: Vec<(PointKey, T)>,
    memory: Vec<(PointKey, T)>,
    frontier: Vec<(PointKey, T)>,
    per_objective: usize,
) -> (r: Vec<(SeedObjective, PointKey, T)>)
    ensures
        r@ == spec_seed_profiles(recommended@, efficiency@, memory@, frontier@, per_objective as int),
{
    let mut out: Vec<(SeedObjective, PointKey, T)> = Vec::new();
    add_seeds(&mut out, SeedObjective::Recommended, recommended, per_objective);
    add_seeds(&mut out, SeedObjective::Efficiency, efficiency, per_objective);
    add_seeds(&mut out, SeedObjective::Memory, memory, per_objective);
    add_seeds(&mut out, SeedObjective::Frontier, frontier, per_objective);
    out
}

/// No two seeds climb the same objective from the same point.
pub open spec fn distinct_seeds<T>(s: Seq<(SeedObjective, PointKey, T)>) -> bool {
    forall|i: int, j: int|
        0 <= i < s.len() && 0 <= j < s.len() && i != j ==> !(s[i].0 == s[j].0 && s[i].1 == s[j].1)
}

proof fn lemma_fold_seen_distinct<T>(acc: Seq<(SeedObjective, PointKey, T)>, s: Seq<(SeedObjective, PointKey, T)>)
    requires
        distinct_seeds(acc),
    ensures
        distinct_seeds(fold_seen(acc, s)),
    decreases s.len(),
{
    if s.len() > 0 {
        if has_seed(acc, s[0].0, s[0].1) {
            lemma_fold_seen_distinct(acc, s.drop_first());
        } else {
            let next = acc.push(s[0]);
            assert forall|i: int, j: int| 0 <= i < next.len() && 0 <= j < next.len() && i != j implies !(next[i].0
                == next[j].0 && next[i].1 == next[j].1) by {
                if i == acc.len() as int {
                    assert(!(acc[j].0 == s[0].0 && acc[j].1 == s[0].1));
                } else if j == acc.len() as int {
                    assert(!(acc[i].0 == s[0].0 && acc[i].1 == s[0].1));
                }
            }
            lemma_fold_seen_distinct(next, s.drop_first());
        }
    }
}

/// The seeds of the local search never repeat an objective with a point.
pub proof fn lemma_seed_profiles_distinct<T>(
    recommended: Seq<(PointKey, T)>,
    efficiency: Seq<(PointKey, T)>,
    memory: Seq<(PointKey, T)>,
    frontier: Seq<(PointKey, T)>,
    per_objective: int,
)
    ensures
        distinct_seeds(spec_seed_profiles(recommended, efficiency, memory, frontier, per_objective)),
{
    let e = Seq::<(SeedObjective, PointKey, T)>::empty();
    let a = fold_seen(e, tagged(SeedObjective::Recommended, recommended, per_objective));
    let b = fold_seen(a, tagged(SeedObjective::Efficiency, efficiency, per_objective));
    let c = fold_seen(b, tagged(SeedObjective::Memory, memory, per_objective));
    lemma_fold_seen_distinct(e, tagged(SeedObjective::Recommended, recommended, per_objective));
    lemma_fold_seen_distinct(a, tagged(SeedObjective::Efficiency, efficiency, per_objective));
    lemma_fold_seen_distinct(b, tagged(SeedObjective::Memory, memory, per_objective));
    lemma_fold_seen_distinct(c, tagged(SeedObjective::Frontier, frontier, per_objective));
}

/// How many entries of a ranked list with `n` distinct new keys are taken when `room`
/// more keys may come in: at least one of a list that has any, since the limit is
/// checked after each entry.
pub open spec fn taken(n: int, room: int) -> int {
    if n <= 0 {
        0
    } else if room <= 1 {
        1
    } else if n < room {
        n
    } else {
        room
    }
}

/// Taking a ranked list of distinct keys, none of them selected yet, appends its first
/// entries.
proof fn lemma_add_top_fresh<T>(sel: Seq<(PointKey, T)>, ranked: Seq<(PointKey, T)>, limit: int, count: int)
    requires
        distinct_keys(ranked),
        forall|k: int| 0 <= k < ranked.len() ==> !has_key(sel, #[trigger] ranked[k].0),
    ensures
        add_top_seq(sel, ranked, limit, count) == sel + ranked.take(taken(ranked.len() as int, limit - count)),
    decreases ranked.len(),
{
    if ranked.len() > 0 {
        let p = ranked[0];
        let rest = ranked.drop_first();
        lemma_key_index(sel, p.0);
        assert(!has_key(sel, p.0));
        let s = upsert(sel, p);
        assert(s == sel.push(p));
        if count + 1 >= limit {
            assert(sel.push(p) =~= sel + ranked.take(1));
        } else {
            assert forall|k: int| 0 <= k < rest.len() implies !has_key(s, #[trigger] rest[k].0) by {
                assert(rest[k] == ranked[k + 1]);
                assert(ranked[k + 1].0 != ranked[0].0);
                if has_key(s, rest[k].0) {
                    let j = choose|j: int| 0 <= j < s.len() && s[j].0 == rest[k].0;
                    if j < sel.len() {
                        assert(sel[j] == s[j]);
                    }
                }
            }
            assert forall|a: int, b: int| 0 <= a < rest.len() && 0 <= b < rest.len() && a != b implies rest[a].0 != rest[b].0 by {
                assert(rest[a] == ranked[a + 1] && rest[b] == ranked[b + 1]);
            }
            lemma_add_top_fresh(s, rest, limit, count + 1);
            let t = taken(rest.len() as int, limit - count - 1);
            assert(t + 1 == taken(ranked.len() as int, limit - count));
            assert(sel.push(p) + rest.take(t) =~= sel + ranked.take(t + 1));
        }
    }
}

/// Taking a ranked list in never moves or drops a selected key.
proof fn lemma_add_top_keeps_prefix<T>(sel: Seq<(PointKey, T)>, ranked: Seq<(PointKey, T)>, limit: int, count: int)
    ensures
        add_top_seq(sel, ranked, limit, count).len() >= sel.len(),
        forall|j: int| 0 <= j < sel.len() ==> (#[trigger] add_top_seq(sel, ranked, limit, count)[j]).0 == sel[j].0,
    decreases ranked.len(),
{
    if ranked.len() > 0 {
        let p = ranked[0];
        lemma_key_index(sel, p.0);
        let s = upsert(sel, p);
        assert(s.len() >= sel.len());
        assert forall|j: int| 0 <= j < sel.len() implies (#[trigger] s[j]).0 == sel[j].0 by {}
        let c = if has_key(sel, p.0) { count } else { count + 1 };
        if c < limit {
            lemma_add_top_keeps_prefix(s, ranked.drop_first(), limit, c);
        }
    }
}

/// Promotion starts with the recommended list: where its keys are distinct, the promoted
/// entries begin with the keys of its first `limits.recommended` entries (its first entry
/// when the limit is zero, all of it when it is shorter), whatever the other limits.
pub proof fn lemma_promotions_start_with_recommended<T>(
    recommended: Seq<(PointKey, T)>,
    efficiency: Seq<(PointKey, T)>,
    memory: Seq<(PointKey, T)>,
    frontier: Seq<(PointKey, T)>,
    limits: PromotionLimits,
    include_pareto_extra: bool,
    pareto_as_render_only: bool,
)
    requires
        distinct_keys(recommended),
    ensures
        ({
            let sel = spec_promotions(recommended, efficiency, memory, frontier, limits, include_pareto_extra, pareto_as_render_only).0;
            let m = taken(recommended.len() as int, limits.recommended as int);
            &&& sel.len() >= m
            &&& forall|j: int| 0 <= j < m ==> (#[trigger] sel[j]).0 == recommended[j].0
        }),
{
    let empty = Seq::<(PointKey, T)>::empty();
    let m = taken(recommended.len() as int, limits.recommended as int);
    lemma_add_top_fresh(empty, recommended, limits.recommended as int, 0);
    let s1 = add_top_seq(empty, recommended, limits.recommended as int, 0);
    assert(s1 =~= recommended.take(m));
    let s2 = add_top_seq(s1, efficiency, limits.efficiency as int, 0);
    let s3 = add_top_seq(s2, memory, limits.memory as int, 0);
    lemma_add_top_keeps_prefix(s1, efficiency, limits.efficiency as int, 0);
    lemma_add_top_keeps_prefix(s2, memory, limits.memory as int, 0);
    let sel = spec_promotions(recommended, efficiency, memory, frontier, limits, include_pareto_extra, pareto_as_render_only).0;
    assert forall|j: int| 0 <= j < m implies (#[trigger] sel[j]).0 == recommended[j].0 by {
        assert(s1[j] == recommended[j]);
        assert(s2[j].0 == s1[j].0);
        assert(s3[j].0 == s2[j].0);
        if !pareto_as_render_only {
            let ext = if include_pareto_extra {
                extras_seq(s3, seq![], frontier, limits.pareto_extra as int, 0)
            } else {
                seq![]
            };
            assert(sel == s3 + ext);
            assert(sel[j] == s3[j]);
        }
    }
}

} // verus!
