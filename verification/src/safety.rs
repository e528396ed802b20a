//! Which evaluated points count as safe, and which candidates a safety check lets through.
use vstd::prelude::*;
use crate::keyed::{key_index, lemma_key_index};
use crate::types::{safety_row_is_safe, spec_row_is_safe, PointKey, SafetySummary};

verus! {

pub open spec fn values_of<T>(items: Seq<(bool, T)>) -> Seq<T> {
    items.map_values(|e: (bool, T)| e.1)
}

/// The values of the entries marked safe, in order.
pub open spec fn safe_values<T>(items: Seq<(bool, T)>) -> Seq<T>
    decreases items.len(),
{
    if items.len() == 0 {
        seq![]
    } else {
        let r = safe_values(items.drop_last());
        if items.last().0 {
            r.push(items.last().1)
        } else {
            r
        }
    }
}

pub open spec fn any_safe<T>(items: Seq<(bool, T)>) -> bool {
    exists|i: int| 0 <= i < items.len() && items[i].0
}

/// The pool that ranking works on: every point when safety is ignored or when no point
/// is safe, else the safe points.
pub open spec fn spec_safety_pool<T>(items: Seq<(bool, T)>, ignore_safety: bool) -> Seq<T> {
    if ignore_safety || !any_safe(items) {
        values_of(items)
    } else {
        safe_values(items)
    }
}

proof fn lemma_safe_values_empty<T>(items: Seq<(bool, T)>)
    ensures
        (safe_values(items).len() == 0) <==> !any_safe(items),
    decreases items.len(),
{
    if items.len() > 0 {
        lemma_safe_values_empty(items.drop_last());
        if any_safe(items.drop_last()) {
            let i = choose|i: int| 0 <= i < items.drop_last().len() && items.drop_last()[i].0;
            assert(items[i].0);
        }
        if any_safe(items) && !items.last().0 {
            let i = choose|i: int| 0 <= i < items.len() && items[i].0;
            assert(items.drop_last()[i].0);
        }
    }
}

/// Each value marked with whether its point is safe; the pool to rank.
pub fn safety_pool<T>(items: Vec<(bool, T)>, ignore_safety: bool) -> (r: Vec<T>)
    ensures
        r@ == spec_safety_pool(items@, ignore_safety),
{
    let ghost all = items@;
    let mut any = false;
    let mut i: usize = 0;
    while i < items.len()
        invariant
            i <= all.len(),
            all == items@,
            any <==> exists|j: int| 0 <= j < i && all[j].0,
        decreases items.len() - i,
    {
        if items[i].0 {
            any = true;
        }
        i = i + 1;
    }
    let keep_all = ignore_safety || !any;
    let mut out: Vec<T> = Vec::new();
    for item in it: items
        invariant
            it.seq() == all,
            out@ == if keep_all {
                values_of(all.take(it.index() as int))
            } else {
                safe_values(all.take(it.index() as int))
            },
    {
        assert(all.take(it.index() + 1).drop_last() =~= all.take(it.index() as int));
        assert(values_of(all.take(it.index() + 1)) =~= values_of(all.take(it.index() as int)).push(item.1));
        let (is_safe, value) = item;
        if keep_all || is_safe {
            out.push(value);
        }
    }
    assert(all.take(all.len() as int) =~= all);
    out
}

/// `x` is the value of a safe entry of `items`.
pub open spec fn safe_value_of<T>(items: Seq<(bool, T)>, x: T) -> bool {
    exists|i: int| 0 <= i < items.len() && items[i].0 && items[i].1 == x
}

/// A pool taken from points that are there is never empty, and where some point is
/// safe and safety counts, it holds only values of safe points.
pub proof fn lemma_safety_pool_nonempty<T>(items: Seq<(bool, T)>, ignore_safety: bool)
    requires
        items.len() > 0,
    ensures
        spec_safety_pool(items, ignore_safety).len() > 0,
        !ignore_safety && any_safe(items) ==> forall|j: int|
            0 <= j < spec_safety_pool(items, ignore_safety).len() ==> safe_value_of(
                items,
                #[trigger] spec_safety_pool(items, ignore_safety)[j],
            ),
{
    lemma_safe_values_empty(items);
    lemma_safe_values_from_safe(items);
}

proof fn lemma_safe_values_from_safe<T>(items: Seq<(bool, T)>)
    ensures
        forall|j: int| 0 <= j < safe_values(items).len() ==> safe_value_of(items, #[trigger] safe_values(items)[j]),
    decreases items.len(),
{
    if items.len() > 0 {
        let d = items.drop_last();
        let r = safe_values(d);
        let s = safe_values(items);
        lemma_safe_values_from_safe(d);
        assert forall|j: int| 0 <= j < s.len() implies safe_value_of(items, #[trigger] s[j]) by {
            if j < r.len() {
                assert(s[j] == r[j]);
                assert(safe_value_of(d, r[j]));
                let i = choose|i: int| 0 <= i < d.len() && d[i].0 && d[i].1 == r[j];
                assert(items[i] == d[i]);
            } else {
                assert(items.last().0 && s == r.push(items.last().1));
                assert(items[items.len() - 1] == items.last());
            }
        }
    }
}

/// The summary that the safety rows give for `k`: the last row with that key.
pub open spec fn row_for<T>(rows: Seq<(PointKey, T)>, k: PointKey) -> Option<T> {
    let i = key_index(rows, k);
    if i >= 0 {
        Some(rows[i].1)
    } else {
        None
    }
}

/// The safety summary of the candidate with key `k`, if a row has one.
pub fn lookup_safety(rows: &Vec<(PointKey, SafetySummary)>, k: PointKey) -> (r: Option<SafetySummary>)
    ensures
        r == row_for(rows@, k),
{
    proof {
        lemma_key_index(rows@, k);
    }
    match crate::keyed::find_key(rows, k) {
        Some(i) => Some(rows[i].1),
        None => None,
    }
}

pub open spec fn passes_check(rows: Seq<(PointKey, SafetySummary)>, k: PointKey) -> bool {
    match row_for(rows, k) {
        Some(row) => spec_row_is_safe(row),
        None => false,
    }
}

/// The candidates that pass their safety check, in order.
pub open spec fn passing<T>(items: Seq<(PointKey, T)>, rows: Seq<(PointKey, SafetySummary)>) -> Seq<(PointKey, T)>
    decreases items.len(),
{
    if items.len() == 0 {
        seq![]
    } else {
        let r = passing(items.drop_last(), rows);
        if passes_check(rows, items.last().0) {
            r.push(items.last())
        } else {
            r
        }
    }
}

/// The keys of the candidates that do not pass, in order.
pub open spec fn screened_out<T>(items: Seq<(PointKey, T)>, rows: Seq<(PointKey, SafetySummary)>) -> Seq<PointKey>
    decreases items.len(),
{
    if items.len() == 0 {
        seq![]
    } else {
        let r = screened_out(items.drop_last(), rows);
        if passes_check(rows, items.last().0) {
            r
        } else {
            r.push(items.last().0)
        }
    }
}

/// Splits candidates into those whose safety row says safe, and the keys of the others,
/// candidates without a row among them.
pub fn partition_by_safety<T>(items: Vec<(PointKey, T)>, rows: &Vec<(PointKey, SafetySummary)>) -> (r: (Vec<(PointKey, T)>, Vec<PointKey>))
    ensures
        r.0@ == passing(items@, rows@),
        r.1@ == screened_out(items@, rows@),
        r.0@.len() + r.1@.len() == items@.len(),
{
    let ghost all = items@;
    let mut safe: Vec<(PointKey, T)> = Vec::new();
    let mut skipped: Vec<PointKey> = Vec::new();
    for item in it: items
        invariant
            it.seq() == all,
            safe@ == passing(all.take(it.index() as int), rows@),
            skipped@ == screened_out(all.take(it.index() as int), rows@),
            safe@.len() + skipped@.len() == it.index(),
    {
        assert(all.take(it.index() + 1).drop_last() =~= all.take(it.index() as int));
        let ok = match lookup_safety(rows, item.0) {
            Some(row) => safety_row_is_safe(&row),
            None => false,
        };
        if ok {
            safe.push(item);
        } else {
            skipped.push(item.0);
        }
    }
    assert(all.take(all.len() as int) =~= all);
    (safe, skipped)
}

} // verus!
