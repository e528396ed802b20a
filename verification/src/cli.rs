use vstd::prelude::*;
use crate::text::{
    chars_eq, chars_of, concat, debug_quoted, debug_str, starts_with_lit, str_eq, trim, trim_str,
};
use crate::types::ResultLabel;

verus! {

broadcast use vstd::string::group_string_axioms;

/// Why the command line stopped without running a search.
#[derive(Debug)]
pub enum CliExit {
    Help,
    Version,
    Error(String),
}

// ---------------------------------------------------------------------------
// Option tokens
// ---------------------------------------------------------------------------

/// `token` cut at its first `=`: the option name, and the inline value if there is one.
pub open spec fn spec_split_option(s: Seq<char>) -> (Seq<char>, Option<Seq<char>>)
    decreases s.len(),
{
    if s.len() == 0 {
        (s, None)
    } else if s[0] == '=' {
        (seq![], Some(s.drop_first()))
    } else {
        let r = spec_split_option(s.drop_first());
        (seq![s[0]] + r.0, r.1)
    }
}

proof fn lemma_split_at_first_eq(s: Seq<char>, i: int)
    requires
        0 <= i <= s.len(),
        forall|j: int| 0 <= j < i ==> s[j] != '=',
        i < s.len() ==> s[i] == '=',
    ensures
        spec_split_option(s) == (if i < s.len() {
            (s.take(i), Some(s.skip(i + 1)))
        } else {
            (s, None::<Seq<char>>)
        }),
    decreases i,
{
    if i > 0 {
        lemma_split_at_first_eq(s.drop_first(), i - 1);
        assert(seq![s[0]] + s.drop_first().take(i - 1) =~= s.take(i));
        if i < s.len() {
            assert(s.drop_first().skip(i) =~= s.skip(i + 1));
        }
        assert(seq![s[0]] + s.drop_first() =~= s);
    } else if s.len() > 0 {
        assert(s.take(0) =~= seq![]);
        assert(s.skip(1) =~= s.drop_first());
    }
}

pub open spec fn opt_view(o: Option<&str>) -> Option<Seq<char>> {
    match o {
        Some(v) => Some(v@),
        None => None,
    }
}

/// Splits `--name=value` into the name and the inline value.
pub fn split_option(token: &str) -> (r: (&str, Option<&str>))
    ensures
        (r.0@, opt_view(r.1)) == spec_split_option(token@),
{
    let v = chars_of(token);
    let mut i: usize = 0;
    while i < v.len() && v[i] != '='
        invariant
            i <= v.len(),
            v@ == token@,
            forall|j: int| 0 <= j < i ==> v@[j] != '=',
        decreases v.len() - i,
    {
        i = i + 1;
    }
    proof {
        lemma_split_at_first_eq(token@, i as int);
    }
    if i < v.len() {
        let name = token.substring_char(0, i);
        let value = token.substring_char(i + 1, v.len());
        (name, Some(value))
    } else {
        (token, None)
    }
}

pub open spec fn expects_value_msg(name: Seq<char>) -> Seq<char> {
    name + " expects a value"@
}

pub open spec fn expects_three_msg(name: Seq<char>) -> Seq<char> {
    name + " expects three values"@
}

/// The value of option `name` at `index`: the inline one, or else the next argument,
/// which `index` then points at; past the last argument, an error.
pub fn value_for<'a>(args: &'a [String], index: &mut usize, inline: Option<&'a str>, name: &str) -> (r:
    Result<&'a str, String>)
    requires
        inline is None ==> *old(index) < usize::MAX,
    ensures
        match inline {
            Some(v) => r == Ok::<&str, String>(v) && *final(index) == *old(index),
            None => {
                &&& *final(index) == *old(index) + 1
                &&& match r {
                    Ok(v) => *final(index) < args@.len() && v@ == args@[*final(index) as int]@,
                    Err(m) => *final(index) >= args@.len() && m@ == expects_value_msg(name@),
                }
            },
        },
{
    if let Some(value) = inline {
        return Ok(value);
    }
    let len = args.len();
    *index = *index + 1;
    if *index < len {
        Ok(args[*index].as_str())
    } else {
        Err(concat(name, " expects a value"))
    }
}

/// The argument after `index`, which `index` then points at; past the last argument, an
/// error.
pub fn next_positional<'a>(args: &'a [String], index: &mut usize, name: &str) -> (r: Result<
    &'a str,
    String,
>)
    requires
        *old(index) < usize::MAX,
    ensures
        *final(index) == *old(index) + 1,
        match r {
            Ok(v) => *final(index) < args@.len() && v@ == args@[*final(index) as int]@,
            Err(m) => *final(index) >= args@.len() && m@ == expects_three_msg(name@),
        },
{
    let len = args.len();
    *index = *index + 1;
    if *index < len {
        Ok(args[*index].as_str())
    } else {
        Err(concat(name, " expects three values"))
    }
}

// ---------------------------------------------------------------------------
// Integers
// ---------------------------------------------------------------------------

pub open spec fn is_digit(c: char) -> bool {
    '0' <= c <= '9'
}

pub open spec fn all_digits(s: Seq<char>) -> bool {
    forall|i: int| 0 <= i < s.len() ==> is_digit(#[trigger] s[i])
}

/// The number that a string of decimal digits writes.
pub open spec fn digits_value(s: Seq<char>) -> nat
    decreases s.len(),
{
    if s.len() == 0 {
        0
    } else {
        digits_value(s.drop_last()) * 10 + crate::text::digit_value(s.last())
    }
}

/// The number that `s` writes without a sign or with `+`, as Rust reads an unsigned integer.
pub open spec fn unsigned_text(s: Seq<char>) -> Option<nat> {
    let body = if s.len() > 0 && s[0] == '+' {
        s.drop_first()
    } else {
        s
    };
    if body.len() > 0 && all_digits(body) {
        Some(digits_value(body))
    } else {
        None
    }
}

/// The number that `s` writes with an optional `+` or `-`, as Rust reads a signed integer.
pub open spec fn signed_text(s: Seq<char>) -> Option<int> {
    if s.len() > 0 && s[0] == '-' {
        let body = s.drop_first();
        if body.len() > 0 && all_digits(body) {
            Some(-(digits_value(body) as int))
        } else {
            None
        }
    } else {
        match unsigned_text(s) {
            Some(n) => Some(n as int),
            None => None,
        }
    }
}

proof fn lemma_digits_prefix_le(s: Seq<char>, k: int)
    requires
        0 <= k <= s.len(),
        all_digits(s),
    ensures
        digits_value(s.take(k)) <= digits_value(s),
    decreases s.len() - k,
{
    if k < s.len() {
        lemma_digits_prefix_le(s, k + 1);
        assert(s.take(k + 1).drop_last() =~= s.take(k));
    } else {
        assert(s.take(k) =~= s);
    }
}

/// The value of the digits of `v` from `start` on, when they are all digits, at least
/// one, and the value is at most `limit`.
fn digits_at_most(v: &Vec<char>, start: usize, limit: u128) -> (r: Option<u128>)
    requires
        start <= v.len(),
        limit <= u64::MAX,
    ensures
        match r {
            Some(n) => {
                &&& start < v.len()
                &&& all_digits(v@.skip(start as int))
                &&& n == digits_value(v@.skip(start as int))
                &&& n <= limit
            },
            None => !(start < v.len() && all_digits(v@.skip(start as int)) && digits_value(
                v@.skip(start as int),
            ) <= limit),
        },
{
    let ghost body = v@.skip(start as int);
    if start == v.len() {
        return None;
    }
    let mut acc: u128 = 0;
    let mut i: usize = start;
    while i < v.len()
        invariant
            start <= i <= v.len(),
            body == v@.skip(start as int),
            limit <= u64::MAX,
            all_digits(body.take(i - start)),
            acc == digits_value(body.take(i - start)),
            acc <= limit,
        decreases v.len() - i,
    {
        let c = v[i];
        if !('0' <= c && c <= '9') {
            assert(!is_digit(body[i - start]));
            return None;
        }
        let d = (c as u32 - '0' as u32) as u128;
        assert(body.take(i - start + 1).drop_last() =~= body.take(i - start));
        acc = acc * 10 + d;
        assert(all_digits(body.take(i - start + 1)));
        if acc > limit {
            proof {
                if all_digits(body) {
                    lemma_digits_prefix_le(body, i - start + 1);
                }
            }
            return None;
        }
        i = i + 1;
    }
    assert(body.take(i - start) =~= body);
    Some(acc)
}

pub open spec fn integer_msg(name: Seq<char>, value: Seq<char>) -> Seq<char> {
    name + " expected an integer, got "@ + debug_quoted(value)
}

pub open spec fn non_negative_msg(name: Seq<char>, value: Seq<char>) -> Seq<char> {
    name + " expected a non-negative integer, got "@ + debug_quoted(value)
}

fn error_with_value(name: &str, text: &str, value: &str) -> (m: String)
    ensures
        m@ == name@ + text@ + debug_quoted(value@),
{
    let mut m = concat(name, text);
    let q = debug_str(value);
    m.append(q.as_str());
    m
}

/// The unsigned value of `value` if it reads as one and is at most `limit`.
fn parse_unsigned(value: &str, limit: u128) -> (r: Option<u128>)
    requires
        limit <= u64::MAX,
    ensures
        match r {
            Some(n) => unsigned_text(value@) == Some(n as nat) && n <= limit,
            None => !(unsigned_text(value@) matches Some(n) && n <= limit),
        },
{
    let v = chars_of(value);
    let start: usize = if v.len() > 0 && v[0] == '+' {
        1
    } else {
        0
    };
    assert(v@.skip(1) =~= v@.drop_first());
    assert(v@.skip(0) =~= v@);
    digits_at_most(&v, start, limit)
}

/// `value` read as an `i64`, if it reads as one.
pub fn text_to_i64(value: &str) -> (r: Option<i64>)
    ensures
        match r {
            Some(n) => signed_text(value@) == Some(n as int),
            None => !(signed_text(value@) matches Some(n) && i64::MIN <= n <= i64::MAX),
        },
{
    let v = chars_of(value);
    if v.len() > 0 && v[0] == '-' {
        assert(v@.skip(1) =~= v@.drop_first());
        match digits_at_most(&v, 1, 9223372036854775808) {
            Some(n) => {
                if n == 9223372036854775808 {
                    return Some(i64::MIN);
                }
                return Some(0 - (n as i64));
            },
            None => {
                return None;
            },
        }
    }
    match parse_unsigned(value, 9223372036854775807) {
        Some(n) => Some(n as i64),
        None => None,
    }
}

/// `value` read as a `u64`, if it reads as one.
pub fn text_to_u64(value: &str) -> (r: Option<u64>)
    ensures
        match r {
            Some(n) => unsigned_text(value@) == Some(n as nat),
            None => !(unsigned_text(value@) matches Some(n) && n <= u64::MAX),
        },
{
    match parse_unsigned(value, u64::MAX as u128) {
        Some(n) => Some(n as u64),
        None => None,
    }
}

/// `value` read as an `i32`.
pub fn parse_i32(value: &str, name: &str) -> (r: Result<i32, String>)
    ensures
        r is Ok <==> (signed_text(value@) matches Some(n) && i32::MIN <= n <= i32::MAX),
        r matches Ok(n) ==> signed_text(value@) == Some(n as int),
        r matches Err(m) ==> m@ == integer_msg(name@, value@),
{
    let v = chars_of(value);
    if v.len() > 0 && v[0] == '-' {
        assert(v@.skip(1) =~= v@.drop_first());
        match digits_at_most(&v, 1, 2147483648) {
            Some(n) => {
                return Ok((0 - (n as i64)) as i32);
            },
            None => {
                return Err(error_with_value(name, " expected an integer, got ", value));
            },
        }
    }
    match parse_unsigned(value, 2147483647) {
        Some(n) => Ok(n as i32),
        None => Err(error_with_value(name, " expected an integer, got ", value)),
    }
}

/// `value` read as a `u64`.
pub fn parse_u64(value: &str, name: &str) -> (r: Result<u64, String>)
    ensures
        r is Ok <==> (unsigned_text(value@) matches Some(n) && n <= u64::MAX),
        r matches Ok(n) ==> unsigned_text(value@) == Some(n as nat),
        r matches Err(m) ==> m@ == integer_msg(name@, value@),
{
    match parse_unsigned(value, u64::MAX as u128) {
        Some(n) => Ok(n as u64),
        None => Err(error_with_value(name, " expected an integer, got ", value)),
    }
}

/// `value` read as a `usize`.
pub fn parse_usize(value: &str, name: &str) -> (r: Result<usize, String>)
    ensures
        r is Ok <==> (unsigned_text(value@) matches Some(n) && n <= usize::MAX),
        r matches Ok(n) ==> unsigned_text(value@) == Some(n as nat),
        r matches Err(m) ==> m@ == non_negative_msg(name@, value@),
{
    match parse_unsigned(value, usize::MAX as u128) {
        Some(n) => Ok(n as usize),
        None => Err(error_with_value(name, " expected a non-negative integer, got ", value)),
    }
}


// ---------------------------------------------------------------------------
// Result labels and point-only selection
// ---------------------------------------------------------------------------

pub open spec fn ascii_lower(c: char) -> char {
    if 'A' <= c <= 'Z' {
        ((c as u32) + 32) as char
    } else {
        c
    }
}

/// A selection name with case folded and `_` written as `-`.
pub open spec fn normalize_selection(s: Seq<char>) -> Seq<char> {
    trim(s).map_values(|c: char| if c == '_' { '-' } else { ascii_lower(c) })
}

pub open spec fn spec_parse_result_label(s: Seq<char>) -> Option<ResultLabel> {
    let n = normalize_selection(s);
    if n == "recommended"@ {
        Some(ResultLabel::Recommended)
    } else if n == "aggressive"@ {
        Some(ResultLabel::Aggressive)
    } else if n == "calm"@ {
        Some(ResultLabel::Calm)
    } else {
        None
    }
}

pub open spec fn unknown_selection_msg(s: Seq<char>) -> Seq<char> {
    "unknown selection "@ + debug_quoted(s) + "; expected recommended, aggressive, or calm"@
}

/// Reads `recommended`, `aggressive` or `calm`, in any case, `_` for `-`, padded or not.
pub fn parse_result_label(value: &str) -> (r: Result<ResultLabel, String>)
    ensures
        match spec_parse_result_label(value@) {
            Some(l) => r == Ok::<ResultLabel, String>(l),
            None => r matches Err(m) && m@ == unknown_selection_msg(value@),
        },
{
    let t = trim_str(value);
    let mut n: Vec<char> = Vec::new();
    let mut i: usize = 0;
    while i < t.len()
        invariant
            i <= t.len(),
            t@ == trim(value@),
            n@ == t@.take(i as int).map_values(|c: char| if c == '_' { '-' } else { ascii_lower(c) }),
        decreases t.len() - i,
    {
        let c = t[i];
        let d = if c == '_' {
            '-'
        } else if 'A' <= c && c <= 'Z' {
            ((c as u8) + 32) as char
        } else {
            c
        };
        n.push(d);
        assert(t@.take(i + 1) =~= t@.take(i as int).push(c));
        i = i + 1;
    }
    assert(t@.take(t.len() as int) =~= t@);
    if chars_eq(&n, "recommended") {
        Ok(ResultLabel::Recommended)
    } else if chars_eq(&n, "aggressive") {
        Ok(ResultLabel::Aggressive)
    } else if chars_eq(&n, "calm") {
        Ok(ResultLabel::Calm)
    } else {
        let mut m = concat("unknown selection ", debug_str(value).as_str());
        m.append("; expected recommended, aggressive, or calm");
        Err(m)
    }
}

/// The three point-only switches: each asks the search to write only one labelled point.
#[derive(Debug, Clone, Copy, PartialEq, Eq, Structural)]
pub struct PointOnlyFlags {
    pub recommended_only: bool,
    pub aggressive_only: bool,
    pub calm_only: bool,
}

impl PointOnlyFlags {
    pub open spec fn spec_label(self) -> Option<ResultLabel> {
        if self.recommended_only {
            Some(ResultLabel::Recommended)
        } else if self.aggressive_only {
            Some(ResultLabel::Aggressive)
        } else if self.calm_only {
            Some(ResultLabel::Calm)
        } else {
            None
        }
    }

    pub open spec fn enabled_count(self) -> int {
        (if self.recommended_only { 1int } else { 0 }) + (if self.aggressive_only { 1int } else { 0 })
            + (if self.calm_only { 1int } else { 0 })
    }

    /// The label that the switches select, Recommended first, then Aggressive, then Calm.
    pub fn point_only_label(&self) -> (r: Option<ResultLabel>)
        ensures
            r == self.spec_label(),
    {
        if self.recommended_only {
            Some(ResultLabel::Recommended)
        } else if self.aggressive_only {
            Some(ResultLabel::Aggressive)
        } else if self.calm_only {
            Some(ResultLabel::Calm)
        } else {
            None
        }
    }

    /// Turns every switch off, then the one that `label` names on.
    pub fn set_point_only_selection(&mut self, label: Option<ResultLabel>)
        ensures
            final(self).recommended_only == (label == Some(ResultLabel::Recommended)),
            final(self).aggressive_only == (label == Some(ResultLabel::Aggressive)),
            final(self).calm_only == (label == Some(ResultLabel::Calm)),
    {
        self.recommended_only = false;
        self.aggressive_only = false;
        self.calm_only = false;
        match label {
            Some(ResultLabel::Recommended) => self.recommended_only = true,
            Some(ResultLabel::Aggressive) => self.aggressive_only = true,
            Some(ResultLabel::Calm) => self.calm_only = true,
            None => {},
        }
    }

    /// Refuses more than one switch turned on.
    pub fn validate_point_only(&self, context: &str) -> (r: Result<(), String>)
        ensures
            r is Ok <==> self.enabled_count() <= 1,
            r matches Err(m) ==> m@ == context@
                + " has mutually exclusive point-only selections enabled"@,
    {
        let count: u8 = (if self.recommended_only { 1u8 } else { 0 }) + (if self.aggressive_only {
            1u8
        } else {
            0
        }) + (if self.calm_only { 1u8 } else { 0 });
        if count > 1 {
            Err(concat(context, " has mutually exclusive point-only selections enabled"))
        } else {
            Ok(())
        }
    }
}

/// The selection that a point-only label restores is that label, and it is valid.
pub proof fn lemma_point_only_round_trip(flags: PointOnlyFlags, label: Option<ResultLabel>)
    requires
        flags.recommended_only == (label == Some(ResultLabel::Recommended)),
        flags.aggressive_only == (label == Some(ResultLabel::Aggressive)),
        flags.calm_only == (label == Some(ResultLabel::Calm)),
    ensures
        flags.spec_label() == label,
        flags.enabled_count() <= 1,
{
    match label {
        Some(ResultLabel::Recommended) => {},
        Some(ResultLabel::Aggressive) => {},
        Some(ResultLabel::Calm) => {},
        None => {},
    }
}

// ---------------------------------------------------------------------------
// Help, version and batch configuration
// ---------------------------------------------------------------------------

pub open spec fn arg_views(args: Seq<String>) -> Seq<Seq<char>> {
    args.map_values(|s: String| s@)
}

pub open spec fn is_help_token(s: Seq<char>) -> bool {
    s == "--help"@ || s == "-h"@ || s == "help"@
}

pub open spec fn is_version_token(s: Seq<char>) -> bool {
    s == "--version"@ || s == "version"@
}

/// Help when any argument asks for it, else the version when any argument asks for it.
pub fn requested_exit(args: &[String]) -> (r: Option<CliExit>)
    ensures
        (exists|i: int| 0 <= i < args@.len() && is_help_token(#[trigger] args@[i]@)) ==> r matches Some(
            CliExit::Help,
        ),
        !(exists|i: int| 0 <= i < args@.len() && is_help_token(#[trigger] args@[i]@)) ==> {
            if exists|i: int| 0 <= i < args@.len() && is_version_token(#[trigger] args@[i]@) {
                r matches Some(CliExit::Version)
            } else {
                r is None
            }
        },
{
    let mut i: usize = 0;
    while i < args.len()
        invariant
            i <= args@.len(),
            forall|j: int| 0 <= j < i ==> !is_help_token(#[trigger] args@[j]@),
        decreases args.len() - i,
    {
        let a = args[i].as_str();
        if str_eq(a, "--help") || str_eq(a, "-h") || str_eq(a, "help") {
            return Some(CliExit::Help);
        }
        i = i + 1;
    }
    let mut i: usize = 0;
    while i < args.len()
        invariant
            i <= args@.len(),
            forall|j: int| 0 <= j < i ==> !is_version_token(#[trigger] args@[j]@),
            forall|j: int| 0 <= j < args@.len() ==> !is_help_token(#[trigger] args@[j]@),
        decreases args.len() - i,
    {
        let a = args[i].as_str();
        if str_eq(a, "--version") || str_eq(a, "version") {
            return Some(CliExit::Version);
        }
        i = i + 1;
    }
    None
}

pub open spec fn is_batch_token(s: Seq<char>) -> bool {
    s == "--batch-config"@ || ("--batch-config="@.len() <= s.len() && s.take(
        "--batch-config="@.len() as int,
    ) == "--batch-config="@)
}

/// The path that `--batch-config` options from `i` on give, `path` being the one seen so far.
pub open spec fn batch_scan(a: Seq<Seq<char>>, i: int, path: Option<Seq<char>>) -> Result<
    Option<Seq<char>>,
    Seq<char>,
>
    decreases a.len() - i,
{
    if i < 0 || i >= a.len() {
        match path {
            Some(p) => Ok(Some(p)),
            None => Err("--batch-config expects a path"@),
        }
    } else {
        let (name, inline) = spec_split_option(a[i]);
        if name != "--batch-config"@ {
            Err("--batch-config cannot be combined with ordinary CLI options"@)
        } else if path is Some {
            Err("--batch-config may only be provided once"@)
        } else {
            match inline {
                Some(v) => batch_scan(a, i + 1, Some(v)),
                None => if i + 1 < a.len() {
                    batch_scan(a, i + 2, Some(a[i + 1]))
                } else {
                    Err(expects_value_msg("--batch-config"@))
                },
            }
        }
    }
}

pub open spec fn spec_batch_config_path(a: Seq<Seq<char>>) -> Result<Option<Seq<char>>, Seq<char>> {
    if exists|i: int| 0 <= i < a.len() && is_batch_token(#[trigger] a[i]) {
        batch_scan(a, 0, None)
    } else {
        Ok(None)
    }
}

pub open spec fn result_view(r: Result<Option<String>, String>) -> Result<Option<Seq<char>>, Seq<char>> {
    match r {
        Ok(Some(p)) => Ok(Some(p@)),
        Ok(None) => Ok(None),
        Err(m) => Err(m@),
    }
}

/// The batch configuration file named on the command line, if the command line names
/// one; then it may hold nothing else.
pub fn batch_config_path(args: &[String]) -> (r: Result<Option<String>, String>)
    ensures
        result_view(r) == spec_batch_config_path(arg_views(args@)),
{
    let ghost a = arg_views(args@);
    let mut found = false;
    let mut k: usize = 0;
    while k < args.len()
        invariant
            k <= args@.len(),
            a == arg_views(args@),
            found <==> exists|j: int| 0 <= j < k && is_batch_token(#[trigger] a[j]),
        decreases args.len() - k,
    {
        let v = chars_of(args[k].as_str());
        if chars_eq(&v, "--batch-config") || starts_with_lit(&v, "--batch-config=") {
            assert(is_batch_token(a[k as int]));
            found = true;
        }
        k = k + 1;
    }
    if !found {
        return Ok(None);
    }
    let mut path: Option<String> = None;
    let mut i: usize = 0;
    while i < args.len()
        invariant
            i <= args@.len(),
            a == arg_views(args@),
            spec_batch_config_path(a) == batch_scan(
                a,
                i as int,
                match path {
                    Some(p) => Some(p@),
                    None => None,
                },
            ),
        decreases args.len() - i,
    {
        let (name, inline) = split_option(args[i].as_str());
        if !str_eq(name, "--batch-config") {
            return Err("--batch-config cannot be combined with ordinary CLI options".to_string());
        }
        if path.is_some() {
            return Err("--batch-config may only be provided once".to_string());
        }
        let value = value_for(args, &mut i, inline, name);
        match value {
            Ok(v) => {
                path = Some(v.to_string());
            },
            Err(m) => {
                return Err(m);
            },
        }
        i = i + 1;
    }
    match path {
        Some(p) => Ok(Some(p)),
        None => Err("--batch-config expects a path".to_string()),
    }
}


// ---------------------------------------------------------------------------
// Laws
// ---------------------------------------------------------------------------

/// Cutting an option token at its first `=` loses nothing: the name, `=` and the inline
/// value give the token back, and the name holds no `=`.
pub proof fn lemma_split_option_round_trip(s: Seq<char>)
    ensures
        !spec_split_option(s).0.contains('='),
        match spec_split_option(s).1 {
            Some(v) => spec_split_option(s).0 + seq!['='] + v == s,
            None => spec_split_option(s).0 == s,
        },
    decreases s.len(),
{
    if s.len() > 0 && s[0] != '=' {
        let r = spec_split_option(s.drop_first());
        lemma_split_option_round_trip(s.drop_first());
        let n = seq![s[0]] + r.0;
        assert forall|i: int| 0 <= i < n.len() implies n[i] != '=' by {
            if i > 0 {
                assert(n[i] == r.0[i - 1]);
            }
        }
        match r.1 {
            Some(v) => {
                assert(n + seq!['='] + v =~= seq![s[0]] + (r.0 + seq!['='] + v));
                assert(seq![s[0]] + s.drop_first() =~= s);
            },
            None => {
                assert(seq![s[0]] + s.drop_first() =~= s);
            },
        }
    } else if s.len() > 0 {
        assert(seq![] + seq!['='] + s.drop_first() =~= s);
    }
}

proof fn lemma_digit_round_trip(d: nat)
    requires
        d < 10,
    ensures
        is_digit(crate::text::digit_char(d)),
        crate::text::digit_value(crate::text::digit_char(d)) == d,
{
}

/// A number written in decimal reads back as itself.
pub proof fn lemma_decimal_reads_back(n: nat)
    ensures
        all_digits(crate::text::decimal(n)),
        digits_value(crate::text::decimal(n)) == n,
        unsigned_text(crate::text::decimal(n)) == Some(n),
        signed_text(crate::text::decimal(n)) == Some(n as int),
    decreases n,
{
    let s = crate::text::decimal(n);
    if n < 10 {
        lemma_digit_round_trip(n);
        assert(s.drop_last() =~= Seq::<char>::empty());
        assert(s.last() == crate::text::digit_char(n));
        assert(digits_value(s) == digits_value(s.drop_last()) * 10 + crate::text::digit_value(s.last()));
    } else {
        lemma_decimal_reads_back(n / 10);
        lemma_digit_round_trip(n % 10);
        let p = crate::text::decimal(n / 10);
        assert(s.drop_last() =~= p);
        assert(s.last() == crate::text::digit_char(n % 10));
        assert(digits_value(s) == digits_value(p) * 10 + crate::text::digit_value(s.last()));
        assert(n == (n / 10) * 10 + n % 10);
        assert forall|i: int| 0 <= i < s.len() implies is_digit(#[trigger] s[i]) by {
            if i < p.len() {
                assert(s[i] == p[i]);
            }
        }
    }
    assert(s.len() > 0);
    assert(is_digit(s[0]));
}

/// Every result label reads back from its display name and from its file-name form.
pub proof fn lemma_result_label_round_trip(l: ResultLabel)
    ensures
        spec_parse_result_label(l.spec_as_str()) == Some(l),
        spec_parse_result_label(l.spec_file_fragment()) == Some(l),
{
    reveal_strlit("Recommended");
    reveal_strlit("Aggressive");
    reveal_strlit("Calm");
    reveal_strlit("recommended");
    reveal_strlit("aggressive");
    reveal_strlit("calm");
    let f = |c: char| if c == '_' { '-' } else { ascii_lower(c) };
    assert("Recommended"@.map_values(f) =~= "recommended"@);
    assert("recommended"@.map_values(f) =~= "recommended"@);
    assert("Aggressive"@.map_values(f) =~= "aggressive"@);
    assert("aggressive"@.map_values(f) =~= "aggressive"@);
    assert("Calm"@.map_values(f) =~= "calm"@);
    assert("calm"@.map_values(f) =~= "calm"@);
    assert(trim("Recommended"@) == "Recommended"@);
    assert(trim("recommended"@) == "recommended"@);
    assert(trim("Aggressive"@) == "Aggressive"@);
    assert(trim("aggressive"@) == "aggressive"@);
    assert(trim("Calm"@) == "Calm"@);
    assert(trim("calm"@) == "calm"@);
    assert("recommended"@ != "aggressive"@);
    assert("recommended"@ != "calm"@);
    assert("aggressive"@ != "calm"@);
}

} // verus!
