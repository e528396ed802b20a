use vstd::prelude::*;

verus! {

broadcast use vstd::string::group_string_axioms;

// ---------------------------------------------------------------------------
// Character classes
// ---------------------------------------------------------------------------

/// Unicode `White_Space`: the characters that `str::trim` removes.
pub open spec fn is_white_space(c: char) -> bool {
    let u = c as u32;
    ||| 0x09 <= u <= 0x0D
    ||| u == 0x20
    ||| u == 0x85
    ||| u == 0xA0
    ||| u == 0x1680
    ||| 0x2000 <= u <= 0x200A
    ||| u == 0x2028
    ||| u == 0x2029
    ||| u == 0x202F
    ||| u == 0x205F
    ||| u == 0x3000
}

/// Whether `c` is Unicode white space.
pub fn white_space(c: char) -> (b: bool)
    ensures
        b == is_white_space(c),
{
    let u = c as u32;
    (0x09 <= u && u <= 0x0D) || u == 0x20 || u == 0x85 || u == 0xA0 || u == 0x1680 || (0x2000
        <= u && u <= 0x200A) || u == 0x2028 || u == 0x2029 || u == 0x202F || u == 0x205F || u
        == 0x3000
}

pub open spec fn is_ascii_alnum(c: char) -> bool {
    ||| '0' <= c <= '9'
    ||| 'a' <= c <= 'z'
    ||| 'A' <= c <= 'Z'
}

/// What `char::is_alphanumeric` answers for `c` (Unicode `Alphabetic` or `Numeric`).
pub uninterp spec fn unicode_alphanumeric(c: char) -> bool;

/// `char::is_alphanumeric`. Claimed: the answer is `unicode_alphanumeric(c)`, and on
/// ASCII characters it is true exactly for the digits and the Latin letters.
#[verifier::external_body]
pub(crate) fn char_is_alphanumeric(c: char) -> (b: bool)
    ensures
        b == unicode_alphanumeric(c),
        (c as u32) < 128 ==> (b <==> is_ascii_alnum(c)),
{
    c.is_alphanumeric()
}

/// What `{:?}` writes for a string slice: the text in double quotes, escaped.
pub uninterp spec fn debug_quoted(s: Seq<char>) -> Seq<char>;

/// `<str as Debug>::fmt` through `format!("{:?}")`. Claimed: the result is
/// `debug_quoted` of the characters of `s`; the escaping rules are left unsaid.
#[verifier::external_body]
pub(crate) fn debug_str(s: &str) -> (r: String)
    ensures
        r@ == debug_quoted(s@),
{
    format!("{:?}", s)
}

// ---------------------------------------------------------------------------
// Building strings
// ---------------------------------------------------------------------------

/// `String::push`: the string afterwards is the string before with `c` added at its end.
#[verifier::external_body]
pub(crate) fn push_char(s: &mut String, c: char)
    ensures
        final(s)@ == old(s)@.push(c),
{
    s.push(c);
}

/// The characters of `s`, in order.
pub fn chars_of(s: &str) -> (v: Vec<char>)
    ensures
        v@ == s@,
{
    let mut v: Vec<char> = Vec::new();
    for c in it: s.chars()
        invariant
            v@ == it.seq().take(it.index() as int),
            it.seq() == s@,
    {
        v.push(c);
    }
    v
}

/// A string holding exactly the characters of `v`.
pub fn string_from_chars(v: &Vec<char>) -> (s: String)
    ensures
        s@ == v@,
{
    let mut s = String::new();
    let mut i: usize = 0;
    while i < v.len()
        invariant
            i <= v.len(),
            s@ == v@.take(i as int),
        decreases v.len() - i,
    {
        push_char(&mut s, v[i]);
        i = i + 1;
    }
    s
}

/// Whether the characters of `v` are those of `lit`.
pub fn chars_eq(v: &Vec<char>, lit: &str) -> (b: bool)
    ensures
        b == (v@ == lit@),
{
    let w = chars_of(lit);
    if v.len() != w.len() {
        return false;
    }
    let mut i: usize = 0;
    while i < v.len()
        invariant
            i <= v.len(),
            v.len() == w.len(),
            w@ == lit@,
            forall|j: int| 0 <= j < i ==> v@[j] == w@[j],
        decreases v.len() - i,
    {
        if v[i] != w[i] {
            return false;
        }
        i = i + 1;
    }
    assert(v@ =~= w@);
    true
}

/// Whether the characters of `a` are those of `b`.
pub fn str_eq(a: &str, b: &str) -> (r: bool)
    ensures
        r == (a@ == b@),
{
    let v = chars_of(a);
    chars_eq(&v, b)
}

/// Whether `v` begins with the characters of `lit`.
pub fn starts_with_lit(v: &Vec<char>, lit: &str) -> (b: bool)
    ensures
        b == (lit@.len() <= v@.len() && v@.take(lit@.len() as int) == lit@),
{
    let w = chars_of(lit);
    if w.len() > v.len() {
        return false;
    }
    let mut i: usize = 0;
    while i < w.len()
        invariant
            i <= w.len(),
            w.len() <= v.len(),
            w@ == lit@,
            forall|j: int| 0 <= j < i ==> v@[j] == w@[j],
        decreases w.len() - i,
    {
        if v[i] != w[i] {
            assert(v@.take(w.len() as int)[i as int] != w@[i as int]);
            return false;
        }
        i = i + 1;
    }
    assert(v@.take(w.len() as int) =~= w@);
    true
}

/// `a` followed by `b`.
pub fn concat(a: &str, b: &str) -> (r: String)
    ensures
        r@ == a@ + b@,
{
    let mut r = a.to_string();
    r.append(b);
    r
}

// ---------------------------------------------------------------------------
// Decimal numbers
// ---------------------------------------------------------------------------

pub open spec fn digit_char(d: nat) -> char {
    if d == 0 {
        '0'
    } else if d == 1 {
        '1'
    } else if d == 2 {
        '2'
    } else if d == 3 {
        '3'
    } else if d == 4 {
        '4'
    } else if d == 5 {
        '5'
    } else if d == 6 {
        '6'
    } else if d == 7 {
        '7'
    } else if d == 8 {
        '8'
    } else {
        '9'
    }
}

/// The value of an ASCII digit.
pub open spec fn digit_value(c: char) -> nat {
    ((c as u32) - ('0' as u32)) as nat
}

/// Digits of a natural number in base ten, most significant first, no leading zero.
pub open spec fn decimal(n: nat) -> Seq<char>
    decreases n,
{
    if n < 10 {
        seq![digit_char(n)]
    } else {
        decimal(n / 10).push(digit_char(n % 10))
    }
}

/// The `width` lowest decimal digits of `n`, padded with leading zeros.
pub open spec fn padded(n: nat, width: nat) -> Seq<char>
    decreases width,
{
    if width == 0 {
        seq![]
    } else {
        padded(n / 10, (width - 1) as nat).push(digit_char(n % 10))
    }
}

pub fn digit(d: u64) -> (c: char)
    requires
        d < 10,
    ensures
        c == digit_char(d as nat),
{
    if d == 0 {
        '0'
    } else if d == 1 {
        '1'
    } else if d == 2 {
        '2'
    } else if d == 3 {
        '3'
    } else if d == 4 {
        '4'
    } else if d == 5 {
        '5'
    } else if d == 6 {
        '6'
    } else if d == 7 {
        '7'
    } else if d == 8 {
        '8'
    } else {
        '9'
    }
}

/// Appends the decimal digits of `n` to `out`.
pub fn push_decimal(out: &mut Vec<char>, n: u64)
    ensures
        final(out)@ == old(out)@ + decimal(n as nat),
    decreases n,
{
    if n < 10 {
        out.push(digit(n));
    } else {
        push_decimal(out, n / 10);
        out.push(digit(n % 10));
    }
    assert(final(out)@ =~= old(out)@ + decimal(n as nat));
}

/// Appends the `width` lowest decimal digits of `n`, zero padded, to `out`.
pub fn push_padded(out: &mut Vec<char>, n: u64, width: u64)
    ensures
        final(out)@ == old(out)@ + padded(n as nat, width as nat),
    decreases width,
{
    if width > 0 {
        push_padded(out, n / 10, width - 1);
        out.push(digit(n % 10));
    }
    assert(final(out)@ =~= old(out)@ + padded(n as nat, width as nat));
}

// ---------------------------------------------------------------------------
// Trimming
// ---------------------------------------------------------------------------

/// Whether `trim_by` removes `c`: white space, or else the underscore.
pub open spec fn trimmed(c: char, underscores: bool) -> bool {
    if underscores {
        c == '_'
    } else {
        is_white_space(c)
    }
}

pub open spec fn trim_start_by(s: Seq<char>, underscores: bool) -> Seq<char>
    decreases s.len(),
{
    if s.len() > 0 && trimmed(s[0], underscores) {
        trim_start_by(s.drop_first(), underscores)
    } else {
        s
    }
}

pub open spec fn trim_end_by(s: Seq<char>, underscores: bool) -> Seq<char>
    decreases s.len(),
{
    if s.len() > 0 && trimmed(s.last(), underscores) {
        trim_end_by(s.drop_last(), underscores)
    } else {
        s
    }
}

/// `s` without the leading and trailing characters that `trimmed` names.
pub open spec fn trim_by(s: Seq<char>, underscores: bool) -> Seq<char> {
    trim_end_by(trim_start_by(s, underscores), underscores)
}

/// `str::trim`: without leading and trailing Unicode white space.
pub open spec fn trim(s: Seq<char>) -> Seq<char> {
    trim_by(s, false)
}

/// Whether `c` is one of the characters that `trimmed` names.
pub fn is_trimmed(c: char, underscores: bool) -> (b: bool)
    ensures
        b == trimmed(c, underscores),
{
    if underscores {
        c == '_'
    } else {
        white_space(c)
    }
}

/// The characters of `v` without the leading and trailing ones that `trimmed` names.
pub fn trim_chars(v: &Vec<char>, underscores: bool) -> (r: Vec<char>)
    ensures
        r@ == trim_by(v@, underscores),
{
    let n = v.len();
    let mut lo: usize = 0;
    assert(v@.subrange(0, n as int) =~= v@);
    while lo < n && is_trimmed(v[lo], underscores)
        invariant
            lo <= n,
            n == v.len(),
            trim_start_by(v@, underscores) == trim_start_by(v@.subrange(lo as int, n as int), underscores),
        decreases n - lo,
    {
        assert(v@.subrange(lo as int, n as int).drop_first() =~= v@.subrange(lo + 1, n as int));
        lo = lo + 1;
    }
    assert(trim_start_by(v@, underscores) == v@.subrange(lo as int, n as int));
    let mut hi: usize = n;
    while hi > lo && is_trimmed(v[hi - 1], underscores)
        invariant
            lo <= hi <= n,
            n == v.len(),
            trim_by(v@, underscores) == trim_end_by(v@.subrange(lo as int, hi as int), underscores),
        decreases hi - lo,
    {
        assert(v@.subrange(lo as int, hi as int).drop_last() =~= v@.subrange(lo as int, hi - 1));
        hi = hi - 1;
    }
    let mut r: Vec<char> = Vec::new();
    let mut i: usize = lo;
    while i < hi
        invariant
            lo <= i <= hi <= n,
            n == v.len(),
            r@ == v@.subrange(lo as int, i as int),
        decreases hi - i,
    {
        r.push(v[i]);
        i = i + 1;
    }
    r
}

/// `str::trim` on a string slice.
pub fn trim_str(s: &str) -> (r: Vec<char>)
    ensures
        r@ == trim(s@),
{
    let v = chars_of(s);
    trim_chars(&v, false)
}

// ---------------------------------------------------------------------------
// File-name-safe names
// ---------------------------------------------------------------------------

/// Whether `char::is_alphanumeric` holds of `c`: on ASCII the digits and Latin letters.
pub open spec fn alphanumeric(c: char) -> bool {
    if (c as u32) < 128 {
        is_ascii_alnum(c)
    } else {
        unicode_alphanumeric(c)
    }
}

/// Whether `safe_name` keeps `c` as it is.
pub open spec fn kept_in_name(c: char) -> bool {
    alphanumeric(c) || c == '.' || c == '-' || c == '_'
}

pub open spec fn name_char(c: char) -> char {
    if kept_in_name(c) {
        c
    } else {
        '_'
    }
}

/// Each character kept or replaced by `_`, outer underscores removed, and
/// `preset` where nothing is left.
pub open spec fn spec_safe_name(s: Seq<char>) -> Seq<char> {
    let t = trim_by(s.map_values(|c: char| name_char(c)), true);
    if t.len() == 0 {
        "preset"@
    } else {
        t
    }
}

/// A file-name-safe form of `value`.
pub fn safe_name(value: &str) -> (r: String)
    ensures
        r@ == spec_safe_name(value@),
{
    let v = chars_of(value);
    let mut mapped: Vec<char> = Vec::new();
    let mut i: usize = 0;
    while i < v.len()
        invariant
            i <= v.len(),
            v@ == value@,
            mapped@ == v@.take(i as int).map_values(|c: char| name_char(c)),
        decreases v.len() - i,
    {
        let c = v[i];
        let keep = char_is_alphanumeric(c) || c == '.' || c == '-' || c == '_';
        mapped.push(if keep {
            c
        } else {
            '_'
        });
        assert(v@.take(i + 1) =~= v@.take(i as int).push(c));
        i = i + 1;
    }
    assert(v@.take(v.len() as int) =~= v@);
    let t = trim_chars(&mapped, true);
    if t.len() == 0 {
        "preset".to_string()
    } else {
        string_from_chars(&t)
    }
}


proof fn lemma_trim_start(s: Seq<char>, u: bool) -> (k: int)
    ensures
        0 <= k <= s.len(),
        trim_start_by(s, u) == s.skip(k),
        k < s.len() ==> !trimmed(s[k], u),
    decreases s.len(),
{
    if s.len() > 0 && trimmed(s[0], u) {
        let k = lemma_trim_start(s.drop_first(), u);
        assert(s.drop_first().skip(k) =~= s.skip(k + 1));
        k + 1
    } else {
        assert(s.skip(0) =~= s);
        0
    }
}

proof fn lemma_trim_end(s: Seq<char>, u: bool) -> (k: int)
    ensures
        0 <= k <= s.len(),
        trim_end_by(s, u) == s.take(k),
        k > 0 ==> !trimmed(s[k - 1], u),
    decreases s.len(),
{
    if s.len() > 0 && trimmed(s.last(), u) {
        let k = lemma_trim_end(s.drop_last(), u);
        assert(s.drop_last().take(k) =~= s.take(k));
        k
    } else {
        assert(s.take(s.len() as int) =~= s);
        s.len() as int
    }
}

/// What trimming leaves neither begins nor ends with a trimmed character, and every
/// character of it comes from `s`.
proof fn lemma_trim_shape(s: Seq<char>, u: bool)
    ensures
        trim_by(s, u).len() > 0 ==> !trimmed(trim_by(s, u)[0], u) && !trimmed(trim_by(s, u).last(), u),
        forall|i: int| 0 <= i < trim_by(s, u).len() ==> exists|j: int| 0 <= j < s.len() && s[j] == #[trigger] trim_by(s, u)[i],
{
    let k1 = lemma_trim_start(s, u);
    let t = s.skip(k1);
    let k2 = lemma_trim_end(t, u);
    let r = t.take(k2);
    assert(trim_by(s, u) == r);
    if r.len() > 0 {
        assert(r[0] == s[k1]);
    }
    assert forall|i: int| 0 <= i < r.len() implies exists|j: int| 0 <= j < s.len() && s[j] == #[trigger] r[i] by {
        assert(s[k1 + i] == r[i]);
    }
}

/// A string that neither begins nor ends with a trimmed character is its own trim.
proof fn lemma_trim_fixed(s: Seq<char>, u: bool)
    requires
        s.len() > 0 ==> !trimmed(s[0], u) && !trimmed(s.last(), u),
    ensures
        trim_by(s, u) == s,
{
}

/// A safe name is never empty, holds only the characters that names keep, and making it
/// safe again changes nothing.
pub proof fn lemma_safe_name_stable(s: Seq<char>)
    ensures
        spec_safe_name(s).len() > 0,
        forall|i: int| 0 <= i < spec_safe_name(s).len() ==> kept_in_name(#[trigger] spec_safe_name(s)[i]),
        spec_safe_name(spec_safe_name(s)) == spec_safe_name(s),
{
    let m = s.map_values(|c: char| name_char(c));
    let t = trim_by(m, true);
    lemma_trim_shape(m, true);
    assert forall|i: int| 0 <= i < t.len() implies kept_in_name(#[trigger] t[i]) by {
        let j = choose|j: int| 0 <= j < m.len() && m[j] == t[i];
        assert(m[j] == name_char(s[j]));
    }
    if t.len() == 0 {
        reveal_strlit("preset");
        let p = "preset"@;
        assert(p.map_values(|c: char| name_char(c)) =~= p);
        lemma_trim_fixed(p, true);
    } else {
        assert(t.map_values(|c: char| name_char(c)) =~= t);
        lemma_trim_fixed(t, true);
    }
}

// ---------------------------------------------------------------------------
// JSON inside a script element
// ---------------------------------------------------------------------------

/// `s` with every `</` written as `<\/`, scanning from the left, so that embedded JSON
/// cannot close the script element around it.
pub open spec fn script_escaped(s: Seq<char>) -> Seq<char>
    decreases s.len(),
{
    if s.len() >= 2 && s[0] == '<' && s[1] == '/' {
        seq!['<', '\\', '/'] + script_escaped(s.skip(2))
    } else if s.len() == 0 {
        seq![]
    } else {
        seq![s[0]] + script_escaped(s.drop_first())
    }
}

/// Writes `</` in `text` as `<\/`.
pub fn script_safe(text: &str) -> (r: String)
    ensures
        r@ == script_escaped(text@),
{
    let v = chars_of(text);
    let mut out: Vec<char> = Vec::new();
    let mut i: usize = 0;
    assert(v@.skip(0) =~= v@);
    while i < v.len()
        invariant
            i <= v.len(),
            v@ == text@,
            script_escaped(v@) == out@ + script_escaped(v@.skip(i as int)),
        decreases v.len() - i,
    {
        let ghost rest = v@.skip(i as int);
        if i + 1 < v.len() && v[i] == '<' && v[i + 1] == '/' {
            out.push('<');
            out.push('\\');
            out.push('/');
            assert(rest.skip(2) =~= v@.skip(i + 2));
            assert(script_escaped(rest) == seq!['<', '\\', '/'] + script_escaped(v@.skip(i + 2)));
            i = i + 2;
        } else {
            out.push(v[i]);
            assert(rest.drop_first() =~= v@.skip(i + 1));
            assert(script_escaped(rest) == seq![v@[i as int]] + script_escaped(v@.skip(i + 1)));
            i = i + 1;
        }
        assert(script_escaped(v@) =~= out@ + script_escaped(v@.skip(i as int)));
    }
    assert(v@.skip(v.len() as int) =~= Seq::<char>::empty());
    assert(out@ + script_escaped(Seq::<char>::empty()) =~= out@);
    string_from_chars(&out)
}


/// Whether `s` has `<` at `i` directly followed by `/`.
pub open spec fn close_at(s: Seq<char>, i: int) -> bool {
    0 <= i < s.len() - 1 && s[i] == '<' && s[i + 1] == '/'
}

/// Whether `s` holds `<` directly followed by `/`.
pub open spec fn has_close_tag(s: Seq<char>) -> bool {
    exists|i: int| #[trigger] close_at(s, i)
}

proof fn lemma_script_escaped_first(s: Seq<char>)
    ensures
        script_escaped(s).len() == 0 <==> s.len() == 0,
        s.len() > 0 ==> script_escaped(s)[0] == s[0],
    decreases s.len(),
{
}

/// Escaped script text holds no `</`, so it cannot end the script element early.
pub proof fn lemma_script_escaped_no_close(s: Seq<char>)
    ensures
        !has_close_tag(script_escaped(s)),
    decreases s.len(),
{
    if s.len() >= 2 && s[0] == '<' && s[1] == '/' {
        let rest = s.skip(2);
        lemma_script_escaped_no_close(rest);
        let e = script_escaped(rest);
        let r = seq!['<', '\\', '/'] + e;
        assert(script_escaped(s) == r);
        assert forall|i: int| !#[trigger] close_at(r, i) by {
            if i >= 3 && close_at(r, i) {
                assert(r[i] == e[i - 3]);
                assert(r[i + 1] == e[i - 2]);
                assert(close_at(e, i - 3));
            }
        }
    } else if s.len() > 0 {
        let rest = s.drop_first();
        lemma_script_escaped_no_close(rest);
        lemma_script_escaped_first(rest);
        let e = script_escaped(rest);
        let r = seq![s[0]] + e;
        assert(script_escaped(s) == r);
        assert forall|i: int| !#[trigger] close_at(r, i) by {
            if i >= 1 && close_at(r, i) {
                assert(r[i] == e[i - 1]);
                assert(r[i + 1] == e[i]);
                assert(close_at(e, i - 1));
            } else if i == 0 && close_at(r, i) {
                assert(r[1] == e[0]);
                assert(e[0] == rest[0]);
                assert(rest[0] == s[1]);
            }
        }
    }
}

} // verus!
