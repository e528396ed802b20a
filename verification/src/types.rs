use vstd::prelude::*;
use crate::text::{decimal, padded, push_decimal, push_padded, string_from_chars};

verus! {

/// A micro-unit count written as a decimal number with six fractional digits.
pub open spec fn fixed6(k: int) -> Seq<char> {
    let m: nat = if k < 0 { (-k) as nat } else { k as nat };
    let sign: Seq<char> = if k < 0 { seq!['-'] } else { seq![] };
    sign + decimal(m / 1_000_000) + seq!['.'] + padded(m % 1_000_000, 6)
}

/// Identity of a candidate: its three coordinates counted in millionths.
#[derive(Debug, Clone, Copy, PartialEq, Eq, Hash, PartialOrd, Ord, Structural)]
pub struct PointKey(pub i64, pub i64, pub i64);

impl PointKey {
    pub open spec fn spec_json_key(self) -> Seq<char> {
        fixed6(self.0 as int) + seq![','] + fixed6(self.1 as int) + seq![','] + fixed6(self.2 as int)
    }

    /// Whether every coordinate is small enough to be written exactly.
    pub open spec fn writes_exactly(self) -> bool {
        exact_coordinate(self.0 as int) && exact_coordinate(self.1 as int) && exact_coordinate(self.2 as int)
    }

    /// The key as `flat,s,d`, each coordinate in units with six decimals, where every
    /// coordinate is below `EXACT_KEY_LIMIT` millionths; none for larger coordinates,
    /// whose written form goes through their binary floating-point value.
    pub fn json_key(self) -> (r: Option<String>)
        ensures
            r is Some <==> self.writes_exactly(),
            r matches Some(s) ==> s@ == self.spec_json_key(),
    {
        if !(in_exact_range(self.0) && in_exact_range(self.1) && in_exact_range(self.2)) {
            return None;
        }
        let mut out: Vec<char> = Vec::new();
        push_fixed6(&mut out, self.0);
        out.push(',');
        push_fixed6(&mut out, self.1);
        out.push(',');
        push_fixed6(&mut out, self.2);
        assert(out@ =~= self.spec_json_key());
        Some(string_from_chars(&out))
    }
}

/// Millionths below which a coordinate is written exactly: `2^32` units. Below it the
/// nearest double to a coordinate lies within a quarter of a millionth of it, so its
/// six decimals are those of the coordinate.
pub const EXACT_KEY_LIMIT: i64 = 4294967296000000;

pub open spec fn exact_coordinate(k: int) -> bool {
    -EXACT_KEY_LIMIT < k < EXACT_KEY_LIMIT
}

fn in_exact_range(k: i64) -> (b: bool)
    ensures
        b == exact_coordinate(k as int),
{
    -EXACT_KEY_LIMIT < k && k < EXACT_KEY_LIMIT
}

/// Appends `fixed6(k)` to `out`.
fn push_fixed6(out: &mut Vec<char>, k: i64)
    ensures
        final(out)@ == old(out)@ + fixed6(k as int),
{
    let m: u64 = if k < 0 {
        ((-(k + 1)) as u64) + 1
    } else {
        k as u64
    };
    assert(m as int == if k < 0 { -k } else { k as int });
    if k < 0 {
        out.push('-');
    }
    push_decimal(out, m / 1_000_000);
    out.push('.');
    push_padded(out, m % 1_000_000, 6);
    assert(final(out)@ =~= old(out)@ + fixed6(k as int));
}

/// The three points that the search can return on their own.
#[derive(Debug, Clone, Copy, PartialEq, Eq, Hash, Structural)]
pub enum ResultLabel {
    Recommended,
    Aggressive,
    Calm,
}

impl ResultLabel {
    pub open spec fn spec_as_str(self) -> Seq<char> {
        match self {
            ResultLabel::Recommended => "Recommended"@,
            ResultLabel::Aggressive => "Aggressive"@,
            ResultLabel::Calm => "Calm"@,
        }
    }

    pub open spec fn spec_file_fragment(self) -> Seq<char> {
        match self {
            ResultLabel::Recommended => "recommended"@,
            ResultLabel::Aggressive => "aggressive"@,
            ResultLabel::Calm => "calm"@,
        }
    }

    /// The label's display name.
    pub fn as_str(self) -> (r: &'static str)
        ensures
            r@ == self.spec_as_str(),
    {
        match self {
            ResultLabel::Recommended => "Recommended",
            ResultLabel::Aggressive => "Aggressive",
            ResultLabel::Calm => "Calm",
        }
    }

    /// The label as it appears in file names.
    pub fn file_fragment(self) -> (r: &'static str)
        ensures
            r@ == self.spec_file_fragment(),
    {
        match self {
            ResultLabel::Recommended => "recommended",
            ResultLabel::Aggressive => "aggressive",
            ResultLabel::Calm => "calm",
        }
    }
}

/// What a safety check of a candidate reports.
#[derive(Debug, Clone, Copy, PartialEq, Eq, Structural)]
pub struct SafetySummary {
    pub checks: i32,
    pub interval_flips: i32,
    pub hard_shortens: i32,
}

pub open spec fn spec_row_is_safe(row: SafetySummary) -> bool {
    row.interval_flips == 0 && row.hard_shortens == 0
}

/// A candidate is safe when no interval flipped and no hard answer shortened one.
pub fn safety_row_is_safe(row: &SafetySummary) -> (b: bool)
    ensures
        b == spec_row_is_safe(*row),
{
    row.interval_flips == 0 && row.hard_shortens == 0
}

} // verus!
