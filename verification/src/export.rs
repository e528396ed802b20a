//! Export files: their rows, their names, and the row that a preset or deck selector names.
use vstd::prelude::*;
use crate::config::joined;
use crate::options::{nonempty_trimmed, split_at, split_trimmed, strings_view};
use crate::text::{chars_of, concat, debug_quoted, debug_str, starts_with_lit};
use serde_json::Value;

verus! {

broadcast use vstd::string::group_string_axioms;

/// What `str::to_lowercase` gives for a string: its Unicode lowercase mapping.
pub uninterp spec fn unicode_lowercase(s: Seq<char>) -> Seq<char>;

/// `str::to_lowercase`. Claimed: the result is `unicode_lowercase` of the characters of
/// `s`; the Unicode case tables are left unsaid.
#[verifier::external_body]
pub(crate) fn to_lowercase(s: &str) -> (r: String)
    ensures
        r@ == unicode_lowercase(s@),
{
    s.to_lowercase()
}

/// Whether `needle` occurs in `hay` as a run of consecutive characters.
pub open spec fn occurs_in(hay: Seq<char>, needle: Seq<char>) -> bool {
    exists|i: int| 0 <= i <= hay.len() - needle.len() && #[trigger] hay.subrange(i, i + needle.len()) == needle
}

/// Whether `needle` occurs in `hay`.
pub fn contains_chars(hay: &Vec<char>, needle: &Vec<char>) -> (b: bool)
    ensures
        b == occurs_in(hay@, needle@),
{
    if needle.len() > hay.len() {
        return false;
    }
    let hl = hay.len();
    assert(hl == hay@.len());
    let last = hay.len() - needle.len();
    let mut i: usize = 0;
    while i <= last
        invariant
            last == hay@.len() - needle@.len(),
            needle@.len() <= hay@.len(),
            hay@.len() <= usize::MAX,
            i <= last,
            forall|k: int| 0 <= k < i ==> #[trigger] hay@.subrange(k, k + needle@.len()) != needle@,
        decreases last + 1 - i,
    {
        let mut j: usize = 0;
        while j < needle.len() && hay[i + j] == needle[j]
            invariant
                i <= last,
                last == hay@.len() - needle@.len(),
                needle@.len() <= hay@.len(),
                hay@.len() <= usize::MAX,
                j <= needle@.len(),
                forall|m: int| 0 <= m < j ==> hay@[i + m] == needle@[m],
            decreases needle.len() - j,
        {
            j = j + 1;
        }
        if j == needle.len() {
            assert(hay@.subrange(i as int, i + needle@.len()) =~= needle@);
            return true;
        }
        assert(hay@.subrange(i as int, i + needle@.len())[j as int] != needle@[j as int]);
        if i == last {
            assert forall|k: int| 0 <= k <= hay@.len() - needle@.len() implies #[trigger] hay@.subrange(
                k,
                k + needle@.len(),
            ) != needle@ by {}
            return false;
        }
        i = i + 1;
    }
    false
}

/// The names an export row is known by: its deck preset's name and its decks' names.
#[derive(Debug)]
pub struct RowNames {
    pub preset_name: String,
    pub deck_names: Vec<String>,
}

pub struct RowView {
    pub preset: Seq<char>,
    pub decks: Seq<Seq<char>>,
}

impl View for RowNames {
    type V = RowView;

    open spec fn view(&self) -> RowView {
        RowView { preset: self.preset_name@, decks: self.deck_names@.map_values(|s: String| s@) }
    }
}

pub open spec fn rows_view(rows: Seq<RowNames>) -> Seq<RowView> {
    rows.map_values(|r: RowNames| r@)
}

/// Whether a row matches the lowercased selector in pass `pass`: its preset name equal
/// to it, a deck name equal to it, its preset name holding it, a deck name holding it.
pub open spec fn row_matches(r: RowView, needle: Seq<char>, pass: int) -> bool {
    if pass == 0 {
        unicode_lowercase(r.preset) == needle
    } else if pass == 1 {
        exists|j: int| 0 <= j < r.decks.len() && unicode_lowercase(#[trigger] r.decks[j]) == needle
    } else if pass == 2 {
        occurs_in(unicode_lowercase(r.preset), needle)
    } else {
        exists|j: int| 0 <= j < r.decks.len() && occurs_in(unicode_lowercase(#[trigger] r.decks[j]), needle)
    }
}

/// Positions of the rows that match in pass `pass`, in order.
pub open spec fn matching(rows: Seq<RowView>, needle: Seq<char>, pass: int) -> Seq<int>
    decreases rows.len(),
{
    if rows.len() == 0 {
        seq![]
    } else {
        let r = matching(rows.drop_last(), needle, pass);
        if row_matches(rows.last(), needle, pass) {
            r.push(rows.len() - 1)
        } else {
            r
        }
    }
}

pub open spec fn presets_of(rows: Seq<RowView>, idx: Seq<int>) -> Seq<Seq<char>> {
    idx.map_values(|i: int| rows[i].preset)
}

pub open spec fn ambiguous_msg(selector: Seq<char>, names: Seq<Seq<char>>) -> Seq<char> {
    "Preset/deck selector "@ + debug_quoted(selector) + " is ambiguous. Matches: "@ + joined(
        names,
        ", "@,
    ) + ". Use the exact deck_preset.name."@
}

pub open spec fn not_found_msg(selector: Seq<char>, names: Seq<Seq<char>>) -> Seq<char> {
    "Preset/deck selector "@ + debug_quoted(selector) + " not found. Available presets: "@ + joined(
        names,
        ", "@,
    )
}

/// The row that the passes from `pass` on pick: the first pass with one match gives
/// it; a pass with more than one match is an error; no match in any pass is one too.
pub open spec fn select_from(rows: Seq<RowView>, selector: Seq<char>, pass: int) -> Result<int, Seq<char>>
    decreases 4 - pass,
{
    if pass >= 4 || pass < 0 {
        Err(not_found_msg(selector, rows.map_values(|r: RowView| r.preset)))
    } else {
        let needle = unicode_lowercase(selector);
        let m = matching(rows, needle, pass);
        if m.len() == 1 {
            Ok(m[0])
        } else if m.len() > 1 {
            Err(ambiguous_msg(selector, presets_of(rows, m)))
        } else {
            select_from(rows, selector, pass + 1)
        }
    }
}

fn lower_chars(s: &String) -> (v: Vec<char>)
    ensures
        v@ == unicode_lowercase(s@),
{
    let l = to_lowercase(s.as_str());
    chars_of(l.as_str())
}

/// Whether the row matches the lowercased selector in pass `pass`.
fn row_matches_exec(row: &RowNames, needle: &Vec<char>, pass: usize) -> (b: bool)
    requires
        pass < 4,
    ensures
        b == row_matches(row@, needle@, pass as int),
{
    if pass == 0 || pass == 2 {
        let p = lower_chars(&row.preset_name);
        if pass == 0 {
            vec_eq(&p, needle)
        } else {
            contains_chars(&p, needle)
        }
    } else {
        let ghost decks = row@.decks;
        let mut j: usize = 0;
        while j < row.deck_names.len()
            invariant
                j <= row.deck_names@.len(),
                decks == row@.decks,
                pass == 1 || pass == 3,
                forall|k: int| 0 <= k < j ==> !(if pass == 1 {
                    unicode_lowercase(#[trigger] decks[k]) == needle@
                } else {
                    occurs_in(unicode_lowercase(decks[k]), needle@)
                }),
            decreases row.deck_names.len() - j,
        {
            let d = lower_chars(&row.deck_names[j]);
            let hit = if pass == 1 {
                vec_eq(&d, needle)
            } else {
                contains_chars(&d, needle)
            };
            if hit {
                assert(decks[j as int] == row.deck_names@[j as int]@);
                return true;
            }
            j = j + 1;
        }
        false
    }
}

/// Whether two character vectors are equal.
pub fn vec_eq(a: &Vec<char>, b: &Vec<char>) -> (r: bool)
    ensures
        r == (a@ == b@),
{
    if a.len() != b.len() {
        return false;
    }
    let mut i: usize = 0;
    while i < a.len()
        invariant
            i <= a.len(),
            a.len() == b.len(),
            forall|j: int| 0 <= j < i ==> a@[j] == b@[j],
        decreases a.len() - i,
    {
        if a[i] != b[i] {
            return false;
        }
        i = i + 1;
    }
    assert(a@ =~= b@);
    true
}

/// The given names joined with `, `.
fn join_names(rows: &Vec<RowNames>, idx: &Vec<usize>) -> (r: String)
    requires
        forall|i: int| 0 <= i < idx@.len() ==> idx@[i] < rows@.len(),
    ensures
        r@ == joined(presets_of(rows_view(rows@), idx@.map_values(|i: usize| i as int)), ", "@),
{
    let ghost all = presets_of(rows_view(rows@), idx@.map_values(|i: usize| i as int));
    let mut r = String::new();
    let mut k: usize = 0;
    while k < idx.len()
        invariant
            k <= idx@.len(),
            forall|i: int| 0 <= i < idx@.len() ==> idx@[i] < rows@.len(),
            all == presets_of(rows_view(rows@), idx@.map_values(|i: usize| i as int)),
            r@ == joined(all.take(k as int), ", "@),
        decreases idx.len() - k,
    {
        assert(all.take(k + 1).drop_last() =~= all.take(k as int));
        if k > 0 {
            r.append(", ");
        } else {
            assert(all.take(0) =~= seq![]);
        }
        r.append(rows[idx[k]].preset_name.as_str());
        k = k + 1;
    }
    assert(all.take(idx@.len() as int) =~= all);
    r
}

/// The row that `selector` names, tried in four passes: the preset name, a deck name,
/// then a part of the preset name, a part of a deck name, all without case.
pub fn select_row(rows: &Vec<RowNames>, selector: &str) -> (r: Result<usize, String>)
    ensures
        match r {
            Ok(i) => select_from(rows_view(rows@), selector@, 0) == Ok::<int, Seq<char>>(i as int),
            Err(m) => select_from(rows_view(rows@), selector@, 0) == Err::<int, Seq<char>>(m@),
        },
{
    let ghost rv = rows_view(rows@);
    let needle = chars_of(to_lowercase(selector).as_str());
    let mut pass: usize = 0;
    while pass < 4
        invariant
            pass <= 4,
            rv == rows_view(rows@),
            needle@ == unicode_lowercase(selector@),
            select_from(rv, selector@, 0) == select_from(rv, selector@, pass as int),
        decreases 4 - pass,
    {
        let mut found: Vec<usize> = Vec::new();
        let mut i: usize = 0;
        while i < rows.len()
            invariant
                i <= rows@.len(),
                pass < 4,
                rv == rows_view(rows@),
                found@.map_values(|x: usize| x as int) == matching(rv.take(i as int), needle@, pass as int),
                forall|k: int| 0 <= k < found@.len() ==> found@[k] < i,
            decreases rows.len() - i,
        {
            assert(rv.take(i + 1).drop_last() =~= rv.take(i as int));
            assert(rv.take(i + 1).last() == rows@[i as int]@);
            let ghost before = found@;
            if row_matches_exec(&rows[i], &needle, pass) {
                found.push(i);
                assert(found@.map_values(|x: usize| x as int) =~= before.map_values(|x: usize| x as int).push(i as int));
            }
            i = i + 1;
        }
        assert(rv.take(rows@.len() as int) =~= rv);
        if found.len() == 1 {
            return Ok(found[0]);
        }
        if found.len() > 1 {
            let mut m = concat("Preset/deck selector ", debug_str(selector).as_str());
            m.append(" is ambiguous. Matches: ");
            m.append(join_names(rows, &found).as_str());
            m.append(". Use the exact deck_preset.name.");
            return Err(m);
        }
        pass = pass + 1;
    }
    let mut all: Vec<usize> = Vec::new();
    let mut i: usize = 0;
    while i < rows.len()
        invariant
            i <= rows@.len(),
            all@.len() == i,
            forall|k: int| 0 <= k < i ==> all@[k] == k,
        decreases rows.len() - i,
    {
        all.push(i);
        i = i + 1;
    }
    let names = join_names(rows, &all);
    assert(presets_of(rv, all@.map_values(|i: usize| i as int)) =~= rv.map_values(|r: RowView| r.preset));
    let mut m = concat("Preset/deck selector ", debug_str(selector).as_str());
    m.append(" not found. Available presets: ");
    m.append(names.as_str());
    Err(m)
}

/// The rows that match in a pass are rows of the table, in order, and every row that
/// matches is among them.
proof fn lemma_matching(rows: Seq<RowView>, needle: Seq<char>, pass: int)
    ensures
        forall|j: int| 0 <= j < matching(rows, needle, pass).len() ==> {
            let i = #[trigger] matching(rows, needle, pass)[j];
            0 <= i < rows.len() && row_matches(rows[i], needle, pass)
        },
        forall|i: int| 0 <= i < rows.len() && row_matches(#[trigger] rows[i], needle, pass) ==> matching(
            rows,
            needle,
            pass,
        ).contains(i),
        forall|i: int| 0 <= i < rows.len() && (forall|k: int| 0 <= k < rows.len() && k != i ==> !row_matches(#[trigger] rows[k], needle, pass))
            && row_matches(rows[i], needle, pass) ==> matching(rows, needle, pass) == seq![i],
    decreases rows.len(),
{
    if rows.len() > 0 {
        let d = rows.drop_last();
        lemma_matching(d, needle, pass);
        let m = matching(rows, needle, pass);
        let md = matching(d, needle, pass);
        assert forall|i: int| 0 <= i < rows.len() && row_matches(#[trigger] rows[i], needle, pass) implies m.contains(i) by {
            if i < rows.len() - 1 {
                assert(d[i] == rows[i]);
                assert(md.contains(i));
                let j = choose|j: int| 0 <= j < md.len() && md[j] == i;
                assert(m[j] == i);
            } else {
                assert(m[m.len() - 1] == i);
            }
        }
        assert forall|i: int| 0 <= i < rows.len() && (forall|k: int| 0 <= k < rows.len() && k != i ==> !row_matches(#[trigger] rows[k], needle, pass))
            && row_matches(rows[i], needle, pass) implies m == seq![i] by {
            if i < rows.len() - 1 {
                assert forall|k: int| 0 <= k < d.len() && k != i implies !row_matches(#[trigger] d[k], needle, pass) by {
                    assert(d[k] == rows[k]);
                }
                assert(d[i] == rows[i]);
                assert(!row_matches(rows.last(), needle, pass));
            } else {
                assert(md.len() == 0) by {
                    if md.len() > 0 {
                        let k = md[0];
                        assert(d[k] == rows[k]);
                    }
                }
                assert(m =~= seq![i]);
            }
        }
    }
}

/// A selector that names, without regard to case, the deck preset of exactly one row
/// selects that row.
pub proof fn lemma_exact_preset_selects(rows: Seq<RowView>, selector: Seq<char>, i: int)
    requires
        0 <= i < rows.len(),
        unicode_lowercase(rows[i].preset) == unicode_lowercase(selector),
        forall|k: int| 0 <= k < rows.len() && k != i ==> unicode_lowercase(#[trigger] rows[k].preset) != unicode_lowercase(selector),
    ensures
        select_from(rows, selector, 0) == Ok::<int, Seq<char>>(i),
{
    let needle = unicode_lowercase(selector);
    lemma_matching(rows, needle, 0);
    assert forall|k: int| 0 <= k < rows.len() && k != i implies !row_matches(#[trigger] rows[k], needle, 0) by {}
    assert(matching(rows, needle, 0) == seq![i]);
}

/// A selector that names, without regard to case, no row's deck preset but a deck of
/// exactly one row selects that row: exact deck names are tried before parts of preset
/// names.
pub proof fn lemma_exact_deck_selects(rows: Seq<RowView>, selector: Seq<char>, i: int, d: int)
    requires
        0 <= i < rows.len(),
        0 <= d < rows[i].decks.len(),
        unicode_lowercase(rows[i].decks[d]) == unicode_lowercase(selector),
        forall|k: int| 0 <= k < rows.len() ==> unicode_lowercase(#[trigger] rows[k].preset) != unicode_lowercase(selector),
        forall|k: int, j: int|
            0 <= k < rows.len() && k != i && 0 <= j < rows[k].decks.len() ==> unicode_lowercase(#[trigger] rows[k].decks[j])
                != unicode_lowercase(selector),
    ensures
        select_from(rows, selector, 0) == Ok::<int, Seq<char>>(i),
{
    let needle = unicode_lowercase(selector);
    lemma_matching(rows, needle, 0);
    lemma_matching(rows, needle, 1);
    let m0 = matching(rows, needle, 0);
    if m0.len() > 0 {
        assert(row_matches(rows[m0[0]], needle, 0));
    }
    assert(m0.len() == 0);
    assert(row_matches(rows[i], needle, 1));
    assert forall|k: int| 0 <= k < rows.len() && k != i implies !row_matches(#[trigger] rows[k], needle, 1) by {
        if row_matches(rows[k], needle, 1) {
            let j = choose|j: int| 0 <= j < rows[k].decks.len() && unicode_lowercase(#[trigger] rows[k].decks[j]) == needle;
        }
    }
    assert(matching(rows, needle, 1) == seq![i]);
    assert(select_from(rows, selector, 0) == select_from(rows, selector, 1));
}

/// A selector that names, without regard to case, no row's deck preset and no deck, but
/// is part of the deck preset name of exactly one row, selects that row.
pub proof fn lemma_preset_part_selects(rows: Seq<RowView>, selector: Seq<char>, i: int)
    requires
        0 <= i < rows.len(),
        occurs_in(unicode_lowercase(rows[i].preset), unicode_lowercase(selector)),
        forall|k: int| 0 <= k < rows.len() ==> unicode_lowercase(#[trigger] rows[k].preset) != unicode_lowercase(selector),
        forall|k: int, j: int|
            0 <= k < rows.len() && 0 <= j < rows[k].decks.len() ==> unicode_lowercase(#[trigger] rows[k].decks[j])
                != unicode_lowercase(selector),
        forall|k: int|
            0 <= k < rows.len() && k != i ==> !occurs_in(unicode_lowercase(#[trigger] rows[k].preset), unicode_lowercase(selector)),
    ensures
        select_from(rows, selector, 0) == Ok::<int, Seq<char>>(i),
{
    let needle = unicode_lowercase(selector);
    lemma_matching(rows, needle, 0);
    lemma_matching(rows, needle, 1);
    lemma_matching(rows, needle, 2);
    let m0 = matching(rows, needle, 0);
    let m1 = matching(rows, needle, 1);
    if m0.len() > 0 {
        assert(row_matches(rows[m0[0]], needle, 0));
    }
    if m1.len() > 0 {
        assert(row_matches(rows[m1[0]], needle, 1));
        let j = choose|j: int| 0 <= j < rows[m1[0]].decks.len() && unicode_lowercase(#[trigger] rows[m1[0]].decks[j]) == needle;
    }
    assert(row_matches(rows[i], needle, 2));
    assert forall|k: int| 0 <= k < rows.len() && k != i implies !row_matches(#[trigger] rows[k], needle, 2) by {}
    assert(matching(rows, needle, 2) == seq![i]);
    assert(select_from(rows, selector, 0) == select_from(rows, selector, 1));
    assert(select_from(rows, selector, 1) == select_from(rows, selector, 2));
}

/// A selector that names, without regard to case, no row's deck preset and no deck and
/// is part of no deck preset name, but is part of a deck name of exactly one row,
/// selects that row.
pub proof fn lemma_deck_part_selects(rows: Seq<RowView>, selector: Seq<char>, i: int, d: int)
    requires
        0 <= i < rows.len(),
        0 <= d < rows[i].decks.len(),
        occurs_in(unicode_lowercase(rows[i].decks[d]), unicode_lowercase(selector)),
        forall|k: int| 0 <= k < rows.len() ==> !occurs_in(unicode_lowercase(#[trigger] rows[k].preset), unicode_lowercase(selector)),
        forall|k: int, j: int|
            0 <= k < rows.len() && 0 <= j < rows[k].decks.len() ==> unicode_lowercase(#[trigger] rows[k].decks[j])
                != unicode_lowercase(selector),
        forall|k: int, j: int|
            0 <= k < rows.len() && k != i && 0 <= j < rows[k].decks.len() ==> !occurs_in(
                unicode_lowercase(#[trigger] rows[k].decks[j]),
                unicode_lowercase(selector),
            ),
    ensures
        select_from(rows, selector, 0) == Ok::<int, Seq<char>>(i),
{
    let needle = unicode_lowercase(selector);
    lemma_matching(rows, needle, 0);
    lemma_matching(rows, needle, 1);
    lemma_matching(rows, needle, 2);
    lemma_matching(rows, needle, 3);
    let m0 = matching(rows, needle, 0);
    let m1 = matching(rows, needle, 1);
    let m2 = matching(rows, needle, 2);
    if m0.len() > 0 {
        let r = rows[m0[0]];
        assert(row_matches(r, needle, 0));
        let h = unicode_lowercase(r.preset);
        assert(h.subrange(0int, 0int + needle.len()) =~= needle);
        assert(occurs_in(h, needle));
    }
    if m1.len() > 0 {
        assert(row_matches(rows[m1[0]], needle, 1));
        let j = choose|j: int| 0 <= j < rows[m1[0]].decks.len() && unicode_lowercase(#[trigger] rows[m1[0]].decks[j]) == needle;
    }
    if m2.len() > 0 {
        assert(row_matches(rows[m2[0]], needle, 2));
    }
    assert(row_matches(rows[i], needle, 3));
    assert forall|k: int| 0 <= k < rows.len() && k != i implies !row_matches(#[trigger] rows[k], needle, 3) by {
        if row_matches(rows[k], needle, 3) {
            let j = choose|j: int| 0 <= j < rows[k].decks.len() && occurs_in(unicode_lowercase(#[trigger] rows[k].decks[j]), needle);
        }
    }
    assert(matching(rows, needle, 3) == seq![i]);
    assert(select_from(rows, selector, 0) == select_from(rows, selector, 1));
    assert(select_from(rows, selector, 1) == select_from(rows, selector, 2));
    assert(select_from(rows, selector, 2) == select_from(rows, selector, 3));
}

/// The row that a selection gives is a row of the table that the selector matches in
/// one of the passes.
pub proof fn lemma_selected_row_matches(rows: Seq<RowView>, selector: Seq<char>)
    ensures
        select_from(rows, selector, 0) matches Ok(i) ==> 0 <= i < rows.len() && exists|pass: int|
            0 <= pass < 4 && row_matches(rows[i], unicode_lowercase(selector), pass),
{
    let needle = unicode_lowercase(selector);
    lemma_matching(rows, needle, 0);
    lemma_matching(rows, needle, 1);
    lemma_matching(rows, needle, 2);
    lemma_matching(rows, needle, 3);
    if let Ok(i) = select_from(rows, selector, 0) {
        let m0 = matching(rows, needle, 0);
        let m1 = matching(rows, needle, 1);
        let m2 = matching(rows, needle, 2);
        let m3 = matching(rows, needle, 3);
        if m0.len() == 1 {
            assert(i == m0[0]);
        } else {
            assert(select_from(rows, selector, 0) == select_from(rows, selector, 1));
            if m1.len() == 1 {
                assert(i == m1[0]);
            } else {
                assert(select_from(rows, selector, 1) == select_from(rows, selector, 2));
                if m2.len() == 1 {
                    assert(i == m2[0]);
                } else {
                    assert(select_from(rows, selector, 2) == select_from(rows, selector, 3));
                    if m3.len() != 1 {
                        assert(select_from(rows, selector, 3) is Err) by {
                            if m3.len() == 0 {
                                assert(select_from(rows, selector, 3) == select_from(rows, selector, 4));
                            }
                        }
                    }
                    assert(i == m3[0]);
                }
            }
        }
    }
}

/// The rows of an export file: its lines, each trimmed, the blank ones left out. A
/// carriage return before a line feed is white space, so trimming takes it off.
pub open spec fn export_rows(text: Seq<char>) -> Seq<Seq<char>> {
    nonempty_trimmed(split_at(text, '\n'))
}

/// The non-blank lines of an export file, trimmed, in order.
pub fn export_lines(text: &str) -> (r: Vec<String>)
    ensures
        strings_view(r@) == export_rows(text@),
{
    split_trimmed(text, '\n')
}

/// The rows of an export file, or where it has none, the error that names the file.
pub fn export_rows_of(text: &str, path: &str) -> (r: Result<Vec<String>, String>)
    ensures
        match r {
            Ok(rows) => strings_view(rows@) == export_rows(text@) && rows@.len() > 0,
            Err(m) => export_rows(text@).len() == 0 && m@ == "No rows found in "@ + path@,
        },
{
    let rows = export_lines(text);
    if rows.len() == 0 {
        Err(concat("No rows found in ", path))
    } else {
        Ok(rows)
    }
}

// ---------------------------------------------------------------------------
// Reading the rows
// ---------------------------------------------------------------------------

#[verifier::external_type_specification]
#[verifier::external_body]
pub struct ExJsonValue(serde_json::Value);

/// The names that one JSON row holds, as far as JSON has them: the `name` of its
/// `deck_preset` where that is a string, and, where `decks` is an array, for each deck
/// its `name` where that is a string.
#[derive(Debug)]
pub struct JsonRow {
    pub preset_name: Option<String>,
    pub deck_names: Option<Vec<Option<String>>>,
}

pub struct JsonRowView {
    pub preset_name: Option<Seq<char>>,
    pub deck_names: Option<Seq<Option<Seq<char>>>>,
}

pub open spec fn opt_text(o: Option<String>) -> Option<Seq<char>> {
    match o {
        Some(s) => Some(s@),
        None => None,
    }
}

impl View for JsonRow {
    type V = JsonRowView;

    open spec fn view(&self) -> JsonRowView {
        JsonRowView {
            preset_name: opt_text(self.preset_name),
            deck_names: match self.deck_names {
                Some(d) => Some(d@.map_values(|o: Option<String>| opt_text(o))),
                None => None,
            },
        }
    }
}

/// What reading one line as JSON gives: the names of the row it holds, or the text of
/// the error that `serde_json` reports.
pub uninterp spec fn parsed_row(line: Seq<char>) -> Result<JsonRowView, Seq<char>>;

/// `serde_json::from_str::<Value>` on one line, with the row's names then read from the
/// value by `Value::get`, `Value::as_str` and `Value::as_array`. Claimed: the names, or
/// the text of the error (`serde_json::Error`'s `Display`, which names the fault and its
/// line and column), are `parsed_row` of the line, a function of the line alone. The
/// JSON grammar itself is left unsaid. The value read is handed back as it is.
#[verifier::external_body]
fn parse_row(line: &str) -> (r: Result<(JsonRow, Value), String>)
    ensures
        match r {
            Ok((j, _)) => parsed_row(line@) == Ok::<JsonRowView, Seq<char>>(j@),
            Err(e) => parsed_row(line@) == Err::<JsonRowView, Seq<char>>(e@),
        },
{
    let value: Value = serde_json::from_str(line).map_err(|err| err.to_string())?;
    let name = |v: &Value| v.get("name").and_then(Value::as_str).map(str::to_string);
    let preset_name = value.get("deck_preset").and_then(name);
    let deck_names = value.get("decks").and_then(Value::as_array).map(|d| d.iter().map(name).collect());
    Ok((JsonRow { preset_name, deck_names }, value))
}

/// The names among `d` that are there, in order.
pub open spec fn present_names(d: Seq<Option<Seq<char>>>) -> Seq<Seq<char>>
    decreases d.len(),
{
    if d.len() == 0 {
        seq![]
    } else {
        let r = present_names(d.drop_last());
        match d.last() {
            Some(s) => r.push(s),
            None => r,
        }
    }
}

/// The names a row is known by: a preset without a name is known by the empty name, and
/// decks without a name are left out, as are the decks of a row without a deck array.
pub open spec fn row_names_of(j: JsonRowView) -> RowView {
    RowView {
        preset: match j.preset_name {
            Some(s) => s,
            None => seq![],
        },
        decks: match j.deck_names {
            Some(d) => present_names(d),
            None => seq![],
        },
    }
}

/// The names of the rows that the lines hold, or the error of the first line that is
/// no JSON.
pub open spec fn rows_of_lines(lines: Seq<Seq<char>>) -> Result<Seq<RowView>, Seq<char>>
    decreases lines.len(),
{
    if lines.len() == 0 {
        Ok(seq![])
    } else {
        match rows_of_lines(lines.drop_last()) {
            Err(e) => Err(e),
            Ok(prev) => match parsed_row(lines.last()) {
                Err(e) => Err("invalid JSONL row: "@ + e),
                Ok(j) => Ok(prev.push(row_names_of(j))),
            },
        }
    }
}

/// What loading an export file's text gives: an error where it has no rows, else the
/// names of its rows, or the error of its first line that is no JSON.
pub open spec fn spec_load_rows(text: Seq<char>, path: Seq<char>) -> Result<Seq<RowView>, Seq<char>> {
    if export_rows(text).len() == 0 {
        Err("No rows found in "@ + path)
    } else {
        rows_of_lines(export_rows(text))
    }
}

/// A row of an export file: the names it is known by, and the JSON value it holds.
pub struct ExportLine {
    pub names: RowNames,
    pub value: Value,
}

pub open spec fn lines_names(v: Seq<ExportLine>) -> Seq<RowView> {
    v.map_values(|l: ExportLine| l.names@)
}

proof fn lemma_error_stays(lines: Seq<Seq<char>>, k: int)
    requires
        0 <= k <= lines.len(),
        rows_of_lines(lines.take(k)) is Err,
    ensures
        rows_of_lines(lines) == rows_of_lines(lines.take(k)),
    decreases lines.len() - k,
{
    if k < lines.len() {
        assert(lines.take(k + 1).drop_last() =~= lines.take(k));
        lemma_error_stays(lines, k + 1);
    } else {
        assert(lines.take(k) =~= lines);
    }
}

/// The names a JSON row is known by.
fn names_of(j: JsonRow) -> (r: RowNames)
    ensures
        r@ == row_names_of(j@),
{
    let ghost jv = j@;
    let preset_name = match j.preset_name {
        Some(s) => s,
        None => String::new(),
    };
    assert(preset_name@ == row_names_of(jv).preset);
    let mut deck_names: Vec<String> = Vec::new();
    if let Some(d) = j.deck_names {
        let ghost dv = d@.map_values(|o: Option<String>| opt_text(o));
        let mut i: usize = 0;
        while i < d.len()
            invariant
                i <= d@.len(),
                dv == d@.map_values(|o: Option<String>| opt_text(o)),
                deck_names@.map_values(|s: String| s@) == present_names(dv.take(i as int)),
            decreases d.len() - i,
        {
            assert(dv.take(i + 1).drop_last() =~= dv.take(i as int));
            if let Some(n) = &d[i] {
                deck_names.push(n.clone());
                assert(deck_names@.map_values(|s: String| s@) =~= present_names(dv.take(i as int)).push(n@));
            }
            i = i + 1;
        }
        assert(dv.take(dv.len() as int) =~= dv);
    } else {
        assert(deck_names@.map_values(|s: String| s@) =~= seq![]);
    }
    RowNames { preset_name, deck_names }
}

/// The rows of an export file's text at `path`: each non-blank line, trimmed, read as
/// JSON, with the names it is known by. No rows, or a line that is no JSON, is an error.
pub fn load_rows(text: &str, path: &str) -> (r: Result<Vec<ExportLine>, String>)
    ensures
        match r {
            Ok(v) => spec_load_rows(text@, path@) == Ok::<Seq<RowView>, Seq<char>>(lines_names(v@)),
            Err(m) => spec_load_rows(text@, path@) == Err::<Seq<RowView>, Seq<char>>(m@),
        },
{
    let lines = match export_rows_of(text, path) {
        Ok(lines) => lines,
        Err(m) => return Err(m),
    };
    let ghost lv = strings_view(lines@);
    let mut out: Vec<ExportLine> = Vec::new();
    let mut i: usize = 0;
    assert(lv.take(0) =~= seq![]);
    assert(lines_names(out@) =~= seq![]);
    while i < lines.len()
        invariant
            i <= lines@.len(),
            lv == strings_view(lines@),
            lv == export_rows(text@),
            lv.len() > 0,
            rows_of_lines(lv.take(i as int)) == Ok::<Seq<RowView>, Seq<char>>(lines_names(out@)),
        decreases lines.len() - i,
    {
        assert(lv.take(i + 1).drop_last() =~= lv.take(i as int));
        assert(lv.take(i + 1).last() == lines@[i as int]@);
        match parse_row(lines[i].as_str()) {
            Err(e) => {
                let m = concat("invalid JSONL row: ", e.as_str());
                proof {
                    lemma_error_stays(lv, i + 1);
                }
                return Err(m);
            },
            Ok((j, value)) => {
                let names = names_of(j);
                let ghost prev = out@;
                let ghost nv = names@;
                out.push(ExportLine { names, value });
                assert(lines_names(out@) =~= lines_names(prev).push(nv));
            },
        }
        i = i + 1;
    }
    assert(lv.take(lv.len() as int) =~= lv);
    Ok(out)
}

/// Whether a file name is that of an export: `adr-input-` at the start, `.jsonl` at the end.
pub open spec fn is_export_name(n: Seq<char>) -> bool {
    "adr-input-"@.len() <= n.len() && n.take("adr-input-"@.len() as int) == "adr-input-"@
        && ".jsonl"@.len() <= n.len() && n.skip(n.len() - ".jsonl"@.len()) == ".jsonl"@
}

/// Whether `file_name` names an export file.
pub fn is_export_file_name(file_name: &str) -> (b: bool)
    ensures
        b == is_export_name(file_name@),
{
    let v = chars_of(file_name);
    if !starts_with_lit(&v, "adr-input-") {
        return false;
    }
    let suffix = chars_of(".jsonl");
    if suffix.len() > v.len() {
        return false;
    }
    let start = v.len() - suffix.len();
    let mut i: usize = 0;
    while i < suffix.len()
        invariant
            i <= suffix@.len(),
            v@.len() <= usize::MAX,
            v@ == file_name@,
            suffix@ == ".jsonl"@,
            start == v@.len() - suffix@.len(),
            suffix@.len() <= v@.len(),
            forall|j: int| 0 <= j < i ==> v@[start + j] == suffix@[j],
        decreases suffix.len() - i,
    {
        if v[start + i] != suffix[i] {
            assert(v@.skip(start as int)[i as int] != suffix@[i as int]);
            assert(v@.skip(start as int) != ".jsonl"@);
            assert(!is_export_name(file_name@));
            return false;
        }
        i = i + 1;
    }
    assert(v@.skip(start as int) =~= suffix@);
    true
}

} // verus!
