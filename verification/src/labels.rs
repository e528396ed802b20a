//! Labels of search points: the reference points' labels, and labels grouped by key.
use vstd::prelude::*;
use crate::keyed::{distinct_keys, find_key, has_key, key_index, lemma_key_index};
use crate::options::strings_view;
use crate::text::{chars_of, decimal, push_decimal, string_from_chars};
use crate::types::PointKey;

verus! {

broadcast use vstd::string::group_string_axioms;

/// Labels grouped by point key: each key once, in the order in which keys first occur,
/// with its labels in the order in which they came.
pub open spec fn grouped(entries: Seq<(PointKey, Seq<char>)>) -> Seq<(PointKey, Seq<Seq<char>>)>
    decreases entries.len(),
{
    if entries.len() == 0 {
        seq![]
    } else {
        let g = grouped(entries.drop_last());
        let e = entries.last();
        let i = key_index(g, e.0);
        if i >= 0 {
            g.update(i, (e.0, g[i].1.push(e.1)))
        } else {
            g.push((e.0, seq![e.1]))
        }
    }
}

pub open spec fn label_entries_view(v: Seq<(PointKey, String)>) -> Seq<(PointKey, Seq<char>)> {
    v.map_values(|e: (PointKey, String)| (e.0, e.1@))
}

pub open spec fn groups_view(v: Seq<(PointKey, Vec<String>)>) -> Seq<(PointKey, Seq<Seq<char>>)> {
    v.map_values(|e: (PointKey, Vec<String>)| (e.0, strings_view(e.1@)))
}

proof fn lemma_key_index_groups(v: Seq<(PointKey, Vec<String>)>, k: PointKey)
    ensures
        key_index(groups_view(v), k) == key_index(v, k),
    decreases v.len(),
{
    if v.len() > 0 {
        assert(groups_view(v).drop_last() =~= groups_view(v.drop_last()));
        lemma_key_index_groups(v.drop_last(), k);
    }
}

/// Labels grouped by point key, keys in the order in which they first occur.
pub fn group_labels(entries: Vec<(PointKey, String)>) -> (r: Vec<(PointKey, Vec<String>)>)
    ensures
        groups_view(r@) == grouped(label_entries_view(entries@)),
{
    let ghost raw = entries@;
    let ghost all = label_entries_view(raw);
    let mut out: Vec<(PointKey, Vec<String>)> = Vec::new();
    assert(groups_view(out@) =~= grouped(all.take(0)));
    for e in it: entries
        invariant
            it.seq() == raw,
            all == label_entries_view(raw),
            groups_view(out@) == grouped(all.take(it.index() as int)),
    {
        assert(all.take(it.index() + 1).drop_last() =~= all.take(it.index() as int));
        assert(all.take(it.index() + 1).last() == (e.0, e.1@));
        let ghost before = out@;
        let ghost gb = groups_view(before);
        proof {
            lemma_key_index_groups(before, e.0);
            lemma_key_index(before, e.0);
        }
        let ghost label = e.1@;
        match find_key(&out, e.0) {
            Some(i) => {
                let (k, mut labels) = out.remove(i);
                let ghost old_labels = labels@;
                labels.push(e.1);
                assert(strings_view(labels@) =~= strings_view(old_labels).push(label));
                out.insert(i, (k, labels));
                assert(groups_view(out@) =~= gb.update(i as int, (e.0, gb[i as int].1.push(label))));
            },
            None => {
                let mut labels: Vec<String> = Vec::new();
                labels.push(e.1);
                assert(strings_view(labels@) =~= seq![label]);
                out.push((e.0, labels));
                assert(groups_view(out@) =~= gb.push((e.0, seq![label])));
            },
        }
    }
    assert(all.take(all.len() as int) =~= all);
    out
}

/// The labels of the entries with key `k`, in order.
pub open spec fn labels_for(entries: Seq<(PointKey, Seq<char>)>, k: PointKey) -> Seq<Seq<char>>
    decreases entries.len(),
{
    if entries.len() == 0 {
        seq![]
    } else {
        let r = labels_for(entries.drop_last(), k);
        if entries.last().0 == k {
            r.push(entries.last().1)
        } else {
            r
        }
    }
}

proof fn lemma_key_index_same_keys<T, U>(a: Seq<(PointKey, T)>, b: Seq<(PointKey, U)>, k: PointKey)
    requires
        a.len() == b.len(),
        forall|j: int| 0 <= j < a.len() ==> (#[trigger] a[j]).0 == b[j].0,
    ensures
        key_index(a, k) == key_index(b, k),
    decreases a.len(),
{
    if a.len() > 0 {
        let da = a.drop_last();
        let db = b.drop_last();
        assert forall|j: int| 0 <= j < da.len() implies (#[trigger] da[j]).0 == db[j].0 by {
            assert(da[j] == a[j] && db[j] == b[j]);
        }
        lemma_key_index_same_keys(da, db, k);
        assert(a.last().0 == b.last().0);
    }
}

proof fn lemma_labels_for_absent(entries: Seq<(PointKey, Seq<char>)>, k: PointKey)
    requires
        !has_key(entries, k),
    ensures
        labels_for(entries, k) == Seq::<Seq<char>>::empty(),
    decreases entries.len(),
{
    if entries.len() > 0 {
        let d = entries.drop_last();
        assert(!has_key(d, k)) by {
            if has_key(d, k) {
                let j = choose|j: int| 0 <= j < d.len() && d[j].0 == k;
                assert(entries[j] == d[j]);
            }
        }
        lemma_labels_for_absent(d, k);
        assert(entries[entries.len() - 1].0 != k);
    }
}

/// Grouping gives every key of the entries one group, and no other key, and the group
/// of a key holds the labels of its entries in the order in which they came.
pub proof fn lemma_grouped(entries: Seq<(PointKey, Seq<char>)>)
    ensures
        distinct_keys(grouped(entries)),
        forall|k: PointKey| #![trigger has_key(grouped(entries), k)] #![trigger has_key(entries, k)]
            has_key(grouped(entries), k) <==> has_key(entries, k),
        forall|k: PointKey|
            has_key(entries, k) ==> (#[trigger] grouped(entries)[key_index(grouped(entries), k)]).1 == labels_for(
                entries,
                k,
            ),
    decreases entries.len(),
{
    let g2 = grouped(entries);
    if entries.len() == 0 {
        assert forall|k: PointKey| has_key(g2, k) <==> has_key(entries, k) by {}
    } else {
        let d = entries.drop_last();
        let e = entries.last();
        lemma_grouped(d);
        let g = grouped(d);
        let i = key_index(g, e.0);
        lemma_key_index(g, e.0);
        assert forall|k: PointKey| has_key(entries, k) <==> (has_key(d, k) || k == e.0) by {
            if has_key(entries, k) && k != e.0 {
                let j = choose|j: int| 0 <= j < entries.len() && entries[j].0 == k;
                assert(d[j] == entries[j]);
            }
            if has_key(d, k) {
                let j = choose|j: int| 0 <= j < d.len() && d[j].0 == k;
                assert(entries[j] == d[j]);
            }
            if k == e.0 {
                assert(entries[entries.len() - 1] == e);
            }
        }
        if i >= 0 {
            assert(g2 == g.update(i, (e.0, g[i].1.push(e.1))));
            assert forall|j: int| 0 <= j < g2.len() implies (#[trigger] g2[j]).0 == g[j].0 by {}
            assert forall|k: PointKey| has_key(g2, k) <==> has_key(entries, k) by {
                if has_key(g2, k) {
                    let j = choose|j: int| 0 <= j < g2.len() && g2[j].0 == k;
                    assert(g[j].0 == k);
                }
                if has_key(g, k) {
                    let j = choose|j: int| 0 <= j < g.len() && g[j].0 == k;
                    assert(g2[j].0 == k);
                }
            }
            assert forall|k: PointKey| has_key(entries, k) implies (#[trigger] g2[key_index(g2, k)]).1 == labels_for(
                entries,
                k,
            ) by {
                lemma_key_index_same_keys(g2, g, k);
                lemma_key_index(g, k);
                if k == e.0 {
                    assert(key_index(g2, k) == i);
                } else {
                    assert(has_key(d, k));
                    assert(key_index(g, k) != i);
                }
            }
        } else {
            assert(g2 == g.push((e.0, seq![e.1])));
            assert(!has_key(d, e.0));
            lemma_labels_for_absent(d, e.0);
            assert forall|k: PointKey| has_key(g2, k) <==> has_key(entries, k) by {
                if has_key(g2, k) {
                    let j = choose|j: int| 0 <= j < g2.len() && g2[j].0 == k;
                    if j < g.len() {
                        assert(g[j].0 == k);
                    }
                }
                if has_key(g, k) {
                    let j = choose|j: int| 0 <= j < g.len() && g[j].0 == k;
                    assert(g2[j].0 == k);
                }
                if k == e.0 {
                    assert(g2[g.len() as int].0 == k);
                }
            }
            assert forall|k: PointKey| has_key(entries, k) implies (#[trigger] g2[key_index(g2, k)]).1 == labels_for(
                entries,
                k,
            ) by {
                if k != e.0 {
                    assert(g2.drop_last() =~= g);
                    lemma_key_index(g, k);
                }
            }
        }
    }
}

/// The label of the `n`-th point to inspect.
pub open spec fn inspect_label(n: nat) -> Seq<char> {
    "Inspect "@ + decimal(n)
}

/// The reference points with their labels: the original parameters when they are
/// included, then each point to inspect, numbered from one.
pub open spec fn reference_entries(include_original: bool, original: PointKey, inspect: Seq<PointKey>) -> Seq<
    (PointKey, Seq<char>),
> {
    let head: Seq<(PointKey, Seq<char>)> = if include_original {
        seq![(original, "Original"@)]
    } else {
        seq![]
    };
    head + Seq::new(inspect.len(), |i: int| (inspect[i], inspect_label((i + 1) as nat)))
}

/// The labels of the reference points, grouped by key.
pub fn reference_labels(include_original: bool, original: PointKey, inspect: &Vec<PointKey>) -> (r: Vec<
    (PointKey, Vec<String>),
>)
    ensures
        groups_view(r@) == grouped(reference_entries(include_original, original, inspect@)),
{
    let ghost target = reference_entries(include_original, original, inspect@);
    let mut entries: Vec<(PointKey, String)> = Vec::new();
    if include_original {
        entries.push((original, "Original".to_string()));
    }
    let ghost head = label_entries_view(entries@);
    let mut i: usize = 0;
    while i < inspect.len()
        invariant
            i <= inspect@.len(),
            head == (if include_original {
                seq![(original, "Original"@)]
            } else {
                Seq::<(PointKey, Seq<char>)>::empty()
            }),
            label_entries_view(entries@) == head + Seq::new(
                i as nat,
                |j: int| (inspect@[j], inspect_label((j + 1) as nat)),
            ),
        decreases inspect.len() - i,
    {
        let ghost before = label_entries_view(entries@);
        let mut cs = chars_of("Inspect ");
        push_decimal(&mut cs, (i + 1) as u64);
        let label = string_from_chars(&cs);
        assert(label@ == inspect_label((i + 1) as nat));
        entries.push((inspect[i], label));
        assert(label_entries_view(entries@) =~= before.push((inspect@[i as int], inspect_label((i + 1) as nat))));
        assert(label_entries_view(entries@) =~= head + Seq::new(
            (i + 1) as nat,
            |j: int| (inspect@[j], inspect_label((j + 1) as nat)),
        ));
        i = i + 1;
    }
    assert(label_entries_view(entries@) =~= target);
    group_labels(entries)
}

} // verus!
