use vstd::prelude::*;
use crate::cli::{
    arg_views, expects_three_msg, expects_value_msg, integer_msg, non_negative_msg, opt_view,
    parse_i32, parse_u64, parse_usize, spec_split_option, split_option, signed_text, unsigned_text,
    value_for, next_positional,
};
use crate::types::ResultLabel;
use crate::text::{
    chars_eq, chars_of, concat, is_white_space, str_eq, string_from_chars, trim, trim_chars, white_space,
};

verus! {

broadcast use vstd::string::group_string_axioms;

/// Settings that the command line gives as 32-bit integers.
#[derive(Debug, Clone, Copy, PartialEq, Eq, Structural)]
pub enum IntField {
    Days,
    DeckSize,
    LearnLimit,
    Phase1FlatHalfSteps,
    Phase1ExpandRounds,
    Phase1ExpandBatch,
    Phase4MaxSteps,
    SafetyChecks,
}

/// Settings that the command line gives as non-negative sizes.
#[derive(Debug, Clone, Copy, PartialEq, Eq, Structural)]
pub enum UsizeField {
    Threads,
    Phase4SeedsPerObjective,
    PromoteRecommended,
    PromoteEfficiencyPotential,
    PromoteMemoryPotential,
    PromoteParetoExtra,
    BridgeMidpointLimit,
    FinalCandidateLimit,
    MaxSpreadFinalCandidates,
    FinalShortlistRecommended,
    FinalShortlistEfficiency,
    FinalShortlistMemory,
    FinalShortlistFrontier,
    FixedCurveAdaptTopPerBucket,
    FixedCurveAdaptMaxPoints,
}

/// Settings that the command line gives as real numbers.
#[derive(Debug, Clone, Copy, PartialEq, Eq, Structural)]
pub enum FloatField {
    TargetDr,
    Phase1EvalWeight,
    Phase2EvalWeight,
    Phase3EvalWeight,
    Phase4EvalWeight,
    FinalEvalWeight,
    DrPruneWeight,
    Phase1FlatStep,
    Phase1SStep,
    Phase1SMax,
    Phase1DStep,
    Phase1DMin,
    Phase1ExpandOverflowFactor,
    Phase2FlatStep,
    Phase2SStep,
    Phase2DStep,
    Phase3FlatStep,
    Phase3SStep,
    Phase3DStep,
    Phase4FlatStep,
    Phase4SStep,
    Phase4DStep,
    ScoutPotentialBandPct,
    FinalPotentialBandPct,
    AggressiveCalmRegretPct,
    SafetySMax,
    FixedDrStartPct,
    FixedDrEndPct,
    FixedCurveCoarseWeight,
    FixedCurveRefineWeight,
    FixedCurveCoarseStepPct,
    FixedCurveRefineStepPct,
    FixedCurveInitialRadiusPct,
    FixedCurveAdaptMarginPct,
    FixedDrLabelStepPct,
}

/// Switches that the command line turns on or off without a value.
#[derive(Debug, Clone, Copy, PartialEq, Eq, Structural)]
pub enum FlagField {
    Matplotlib,
    RecommendedOnly,
    AggressiveOnly,
    CalmOnly,
    Phase1Expand,
    ExperimentalBridgeMidpointNeighborhoods,
    IgnoreSafety,
    LegacyUnsafePlotDisplay,
    IncludeOriginal,
}

/// The two options that take a candidate as three numbers.
#[derive(Debug, Clone, Copy, PartialEq, Eq, Structural)]
pub enum PointOption {
    Original,
    InspectPoint,
}

/// What an option name stands for.
#[derive(Debug, Clone, Copy, PartialEq, Eq, Structural)]
pub enum OptionKind {
    QualityPreset,
    Export,
    OutputDir,
    Presets,
    Seed,
    Int(IntField),
    Usize(UsizeField),
    Float(FloatField),
    Flag(FlagField, bool),
    Point(PointOption),
}

pub open spec fn option_kind(n: Seq<char>) -> Option<OptionKind> {
    if n == "--quality-preset"@ {
        Some(OptionKind::QualityPreset)
    } else if n == "--export"@ {
        Some(OptionKind::Export)
    } else if n == "--preset"@ || n == "--presets"@ {
        Some(OptionKind::Presets)
    } else if n == "--target-dr"@ {
        Some(OptionKind::Float(FloatField::TargetDr))
    } else if n == "--days"@ {
        Some(OptionKind::Int(IntField::Days))
    } else if n == "--deck-size"@ {
        Some(OptionKind::Int(IntField::DeckSize))
    } else if n == "--learn-limit"@ {
        Some(OptionKind::Int(IntField::LearnLimit))
    } else if n == "--seed"@ {
        Some(OptionKind::Seed)
    } else if n == "--threads"@ {
        Some(OptionKind::Usize(UsizeField::Threads))
    } else if n == "--matplotlib"@ {
        Some(OptionKind::Flag(FlagField::Matplotlib, true))
    } else if n == "--recommended-only"@ {
        Some(OptionKind::Flag(FlagField::RecommendedOnly, true))
    } else if n == "--aggressive-only"@ {
        Some(OptionKind::Flag(FlagField::AggressiveOnly, true))
    } else if n == "--calm-only"@ {
        Some(OptionKind::Flag(FlagField::CalmOnly, true))
    } else if n == "--phase1-eval-weight"@ {
        Some(OptionKind::Float(FloatField::Phase1EvalWeight))
    } else if n == "--phase2-eval-weight"@ {
        Some(OptionKind::Float(FloatField::Phase2EvalWeight))
    } else if n == "--phase3-eval-weight"@ {
        Some(OptionKind::Float(FloatField::Phase3EvalWeight))
    } else if n == "--phase4-eval-weight"@ {
        Some(OptionKind::Float(FloatField::Phase4EvalWeight))
    } else if n == "--final-eval-weight"@ {
        Some(OptionKind::Float(FloatField::FinalEvalWeight))
    } else if n == "--dr-prune-weight"@ {
        Some(OptionKind::Float(FloatField::DrPruneWeight))
    } else if n == "--phase1-flat-step"@ {
        Some(OptionKind::Float(FloatField::Phase1FlatStep))
    } else if n == "--phase1-flat-half-steps"@ {
        Some(OptionKind::Int(IntField::Phase1FlatHalfSteps))
    } else if n == "--phase1-s-step"@ {
        Some(OptionKind::Float(FloatField::Phase1SStep))
    } else if n == "--phase1-s-max"@ {
        Some(OptionKind::Float(FloatField::Phase1SMax))
    } else if n == "--phase1-d-step"@ {
        Some(OptionKind::Float(FloatField::Phase1DStep))
    } else if n == "--phase1-d-min"@ {
        Some(OptionKind::Float(FloatField::Phase1DMin))
    } else if n == "--phase1-expand"@ {
        Some(OptionKind::Flag(FlagField::Phase1Expand, true))
    } else if n == "--no-phase1-expand"@ {
        Some(OptionKind::Flag(FlagField::Phase1Expand, false))
    } else if n == "--phase1-expand-rounds"@ {
        Some(OptionKind::Int(IntField::Phase1ExpandRounds))
    } else if n == "--phase1-expand-batch"@ {
        Some(OptionKind::Int(IntField::Phase1ExpandBatch))
    } else if n == "--phase1-expand-overflow-factor"@ {
        Some(OptionKind::Float(FloatField::Phase1ExpandOverflowFactor))
    } else if n == "--phase2-flat-step"@ {
        Some(OptionKind::Float(FloatField::Phase2FlatStep))
    } else if n == "--phase2-s-step"@ {
        Some(OptionKind::Float(FloatField::Phase2SStep))
    } else if n == "--phase2-d-step"@ {
        Some(OptionKind::Float(FloatField::Phase2DStep))
    } else if n == "--phase3-flat-step"@ {
        Some(OptionKind::Float(FloatField::Phase3FlatStep))
    } else if n == "--phase3-s-step"@ {
        Some(OptionKind::Float(FloatField::Phase3SStep))
    } else if n == "--phase3-d-step"@ {
        Some(OptionKind::Float(FloatField::Phase3DStep))
    } else if n == "--phase4-flat-step"@ {
        Some(OptionKind::Float(FloatField::Phase4FlatStep))
    } else if n == "--phase4-s-step"@ {
        Some(OptionKind::Float(FloatField::Phase4SStep))
    } else if n == "--phase4-d-step"@ {
        Some(OptionKind::Float(FloatField::Phase4DStep))
    } else if n == "--phase4-seeds-per-objective"@ {
        Some(OptionKind::Usize(UsizeField::Phase4SeedsPerObjective))
    } else if n == "--phase4-max-steps"@ {
        Some(OptionKind::Int(IntField::Phase4MaxSteps))
    } else if n == "--promote-recommended"@ {
        Some(OptionKind::Usize(UsizeField::PromoteRecommended))
    } else if n == "--promote-efficiency-potential"@ {
        Some(OptionKind::Usize(UsizeField::PromoteEfficiencyPotential))
    } else if n == "--promote-memory-potential"@ {
        Some(OptionKind::Usize(UsizeField::PromoteMemoryPotential))
    } else if n == "--promote-pareto-extra"@ {
        Some(OptionKind::Usize(UsizeField::PromoteParetoExtra))
    } else if n == "--bridge-midpoint-limit"@ {
        Some(OptionKind::Usize(UsizeField::BridgeMidpointLimit))
    } else if n == "--experimental-bridge-midpoint-neighborhoods"@ {
        Some(OptionKind::Flag(FlagField::ExperimentalBridgeMidpointNeighborhoods, true))
    } else if n == "--final-candidate-limit"@ {
        Some(OptionKind::Usize(UsizeField::FinalCandidateLimit))
    } else if n == "--max-spread-final-candidates"@ {
        Some(OptionKind::Usize(UsizeField::MaxSpreadFinalCandidates))
    } else if n == "--final-shortlist-recommended"@ {
        Some(OptionKind::Usize(UsizeField::FinalShortlistRecommended))
    } else if n == "--final-shortlist-efficiency"@ {
        Some(OptionKind::Usize(UsizeField::FinalShortlistEfficiency))
    } else if n == "--final-shortlist-memory"@ {
        Some(OptionKind::Usize(UsizeField::FinalShortlistMemory))
    } else if n == "--final-shortlist-frontier"@ {
        Some(OptionKind::Usize(UsizeField::FinalShortlistFrontier))
    } else if n == "--scout-potential-band-pct"@ {
        Some(OptionKind::Float(FloatField::ScoutPotentialBandPct))
    } else if n == "--final-potential-band-pct"@ {
        Some(OptionKind::Float(FloatField::FinalPotentialBandPct))
    } else if n == "--aggressive-calm-regret-pct"@ {
        Some(OptionKind::Float(FloatField::AggressiveCalmRegretPct))
    } else if n == "--safety-s-max"@ {
        Some(OptionKind::Float(FloatField::SafetySMax))
    } else if n == "--safety-checks"@ {
        Some(OptionKind::Int(IntField::SafetyChecks))
    } else if n == "--ignore-safety"@ {
        Some(OptionKind::Flag(FlagField::IgnoreSafety, true))
    } else if n == "--legacy-unsafe-plot-display"@ {
        Some(OptionKind::Flag(FlagField::LegacyUnsafePlotDisplay, true))
    } else if n == "--include-original"@ {
        Some(OptionKind::Flag(FlagField::IncludeOriginal, true))
    } else if n == "--original"@ {
        Some(OptionKind::Point(PointOption::Original))
    } else if n == "--inspect-point"@ {
        Some(OptionKind::Point(PointOption::InspectPoint))
    } else if n == "--fixed-dr-start-pct"@ {
        Some(OptionKind::Float(FloatField::FixedDrStartPct))
    } else if n == "--fixed-dr-end-pct"@ {
        Some(OptionKind::Float(FloatField::FixedDrEndPct))
    } else if n == "--fixed-curve-coarse-weight"@ {
        Some(OptionKind::Float(FloatField::FixedCurveCoarseWeight))
    } else if n == "--fixed-curve-refine-weight"@ {
        Some(OptionKind::Float(FloatField::FixedCurveRefineWeight))
    } else if n == "--fixed-curve-coarse-step-pct"@ {
        Some(OptionKind::Float(FloatField::FixedCurveCoarseStepPct))
    } else if n == "--fixed-curve-refine-step-pct"@ {
        Some(OptionKind::Float(FloatField::FixedCurveRefineStepPct))
    } else if n == "--fixed-curve-initial-radius-pct"@ {
        Some(OptionKind::Float(FloatField::FixedCurveInitialRadiusPct))
    } else if n == "--fixed-curve-adapt-margin-pct"@ {
        Some(OptionKind::Float(FloatField::FixedCurveAdaptMarginPct))
    } else if n == "--fixed-curve-adapt-top-per-bucket"@ {
        Some(OptionKind::Usize(UsizeField::FixedCurveAdaptTopPerBucket))
    } else if n == "--fixed-curve-adapt-max-points"@ {
        Some(OptionKind::Usize(UsizeField::FixedCurveAdaptMaxPoints))
    } else if n == "--fixed-dr-label-step-pct"@ {
        Some(OptionKind::Float(FloatField::FixedDrLabelStepPct))
    } else if n == "--output-dir"@ {
        Some(OptionKind::OutputDir)
    } else {
        None
    }
}

/// The kind of option that `n` names, if any.
pub fn classify_option(n: &Vec<char>) -> (r: Option<OptionKind>)
    ensures
        r == option_kind(n@),
{
    if chars_eq(n, "--quality-preset") {
        Some(OptionKind::QualityPreset)
    } else if chars_eq(n, "--export") {
        Some(OptionKind::Export)
    } else if chars_eq(n, "--preset") || chars_eq(n, "--presets") {
        Some(OptionKind::Presets)
    } else if chars_eq(n, "--target-dr") {
        Some(OptionKind::Float(FloatField::TargetDr))
    } else if chars_eq(n, "--days") {
        Some(OptionKind::Int(IntField::Days))
    } else if chars_eq(n, "--deck-size") {
        Some(OptionKind::Int(IntField::DeckSize))
    } else if chars_eq(n, "--learn-limit") {
        Some(OptionKind::Int(IntField::LearnLimit))
    } else if chars_eq(n, "--seed") {
        Some(OptionKind::Seed)
    } else if chars_eq(n, "--threads") {
        Some(OptionKind::Usize(UsizeField::Threads))
    } else if chars_eq(n, "--matplotlib") {
        Some(OptionKind::Flag(FlagField::Matplotlib, true))
    } else if chars_eq(n, "--recommended-only") {
        Some(OptionKind::Flag(FlagField::RecommendedOnly, true))
    } else if chars_eq(n, "--aggressive-only") {
        Some(OptionKind::Flag(FlagField::AggressiveOnly, true))
    } else if chars_eq(n, "--calm-only") {
        Some(OptionKind::Flag(FlagField::CalmOnly, true))
    } else if chars_eq(n, "--phase1-eval-weight") {
        Some(OptionKind::Float(FloatField::Phase1EvalWeight))
    } else if chars_eq(n, "--phase2-eval-weight") {
        Some(OptionKind::Float(FloatField::Phase2EvalWeight))
    } else if chars_eq(n, "--phase3-eval-weight") {
        Some(OptionKind::Float(FloatField::Phase3EvalWeight))
    } else if chars_eq(n, "--phase4-eval-weight") {
        Some(OptionKind::Float(FloatField::Phase4EvalWeight))
    } else if chars_eq(n, "--final-eval-weight") {
        Some(OptionKind::Float(FloatField::FinalEvalWeight))
    } else if chars_eq(n, "--dr-prune-weight") {
        Some(OptionKind::Float(FloatField::DrPruneWeight))
    } else if chars_eq(n, "--phase1-flat-step") {
        Some(OptionKind::Float(FloatField::Phase1FlatStep))
    } else if chars_eq(n, "--phase1-flat-half-steps") {
        Some(OptionKind::Int(IntField::Phase1FlatHalfSteps))
    } else if chars_eq(n, "--phase1-s-step") {
        Some(OptionKind::Float(FloatField::Phase1SStep))
    } else if chars_eq(n, "--phase1-s-max") {
        Some(OptionKind::Float(FloatField::Phase1SMax))
    } else if chars_eq(n, "--phase1-d-step") {
        Some(OptionKind::Float(FloatField::Phase1DStep))
    } else if chars_eq(n, "--phase1-d-min") {
        Some(OptionKind::Float(FloatField::Phase1DMin))
    } else if chars_eq(n, "--phase1-expand") {
        Some(OptionKind::Flag(FlagField::Phase1Expand, true))
    } else if chars_eq(n, "--no-phase1-expand") {
        Some(OptionKind::Flag(FlagField::Phase1Expand, false))
    } else if chars_eq(n, "--phase1-expand-rounds") {
        Some(OptionKind::Int(IntField::Phase1ExpandRounds))
    } else if chars_eq(n, "--phase1-expand-batch") {
        Some(OptionKind::Int(IntField::Phase1ExpandBatch))
    } else if chars_eq(n, "--phase1-expand-overflow-factor") {
        Some(OptionKind::Float(FloatField::Phase1ExpandOverflowFactor))
    } else if chars_eq(n, "--phase2-flat-step") {
        Some(OptionKind::Float(FloatField::Phase2FlatStep))
    } else if chars_eq(n, "--phase2-s-step") {
        Some(OptionKind::Float(FloatField::Phase2SStep))
    } else if chars_eq(n, "--phase2-d-step") {
        Some(OptionKind::Float(FloatField::Phase2DStep))
    } else if chars_eq(n, "--phase3-flat-step") {
        Some(OptionKind::Float(FloatField::Phase3FlatStep))
    } else if chars_eq(n, "--phase3-s-step") {
        Some(OptionKind::Float(FloatField::Phase3SStep))
    } else if chars_eq(n, "--phase3-d-step") {
        Some(OptionKind::Float(FloatField::Phase3DStep))
    } else if chars_eq(n, "--phase4-flat-step") {
        Some(OptionKind::Float(FloatField::Phase4FlatStep))
    } else if chars_eq(n, "--phase4-s-step") {
        Some(OptionKind::Float(FloatField::Phase4SStep))
    } else if chars_eq(n, "--phase4-d-step") {
        Some(OptionKind::Float(FloatField::Phase4DStep))
    } else if chars_eq(n, "--phase4-seeds-per-objective") {
        Some(OptionKind::Usize(UsizeField::Phase4SeedsPerObjective))
    } else if chars_eq(n, "--phase4-max-steps") {
        Some(OptionKind::Int(IntField::Phase4MaxSteps))
    } else if chars_eq(n, "--promote-recommended") {
        Some(OptionKind::Usize(UsizeField::PromoteRecommended))
    } else if chars_eq(n, "--promote-efficiency-potential") {
        Some(OptionKind::Usize(UsizeField::PromoteEfficiencyPotential))
    } else if chars_eq(n, "--promote-memory-potential") {
        Some(OptionKind::Usize(UsizeField::PromoteMemoryPotential))
    } else if chars_eq(n, "--promote-pareto-extra") {
        Some(OptionKind::Usize(UsizeField::PromoteParetoExtra))
    } else if chars_eq(n, "--bridge-midpoint-limit") {
        Some(OptionKind::Usize(UsizeField::BridgeMidpointLimit))
    } else if chars_eq(n, "--experimental-bridge-midpoint-neighborhoods") {
        Some(OptionKind::Flag(FlagField::ExperimentalBridgeMidpointNeighborhoods, true))
    } else if chars_eq(n, "--final-candidate-limit") {
        Some(OptionKind::Usize(UsizeField::FinalCandidateLimit))
    } else if chars_eq(n, "--max-spread-final-candidates") {
        Some(OptionKind::Usize(UsizeField::MaxSpreadFinalCandidates))
    } else if chars_eq(n, "--final-shortlist-recommended") {
        Some(OptionKind::Usize(UsizeField::FinalShortlistRecommended))
    } else if chars_eq(n, "--final-shortlist-efficiency") {
        Some(OptionKind::Usize(UsizeField::FinalShortlistEfficiency))
    } else if chars_eq(n, "--final-shortlist-memory") {
        Some(OptionKind::Usize(UsizeField::FinalShortlistMemory))
    } else if chars_eq(n, "--final-shortlist-frontier") {
        Some(OptionKind::Usize(UsizeField::FinalShortlistFrontier))
    } else if chars_eq(n, "--scout-potential-band-pct") {
        Some(OptionKind::Float(FloatField::ScoutPotentialBandPct))
    } else if chars_eq(n, "--final-potential-band-pct") {
        Some(OptionKind::Float(FloatField::FinalPotentialBandPct))
    } else if chars_eq(n, "--aggressive-calm-regret-pct") {
        Some(OptionKind::Float(FloatField::AggressiveCalmRegretPct))
    } else if chars_eq(n, "--safety-s-max") {
        Some(OptionKind::Float(FloatField::SafetySMax))
    } else if chars_eq(n, "--safety-checks") {
        Some(OptionKind::Int(IntField::SafetyChecks))
    } else if chars_eq(n, "--ignore-safety") {
        Some(OptionKind::Flag(FlagField::IgnoreSafety, true))
    } else if chars_eq(n, "--legacy-unsafe-plot-display") {
        Some(OptionKind::Flag(FlagField::LegacyUnsafePlotDisplay, true))
    } else if chars_eq(n, "--include-original") {
        Some(OptionKind::Flag(FlagField::IncludeOriginal, true))
    } else if chars_eq(n, "--original") {
        Some(OptionKind::Point(PointOption::Original))
    } else if chars_eq(n, "--inspect-point") {
        Some(OptionKind::Point(PointOption::InspectPoint))
    } else if chars_eq(n, "--fixed-dr-start-pct") {
        Some(OptionKind::Float(FloatField::FixedDrStartPct))
    } else if chars_eq(n, "--fixed-dr-end-pct") {
        Some(OptionKind::Float(FloatField::FixedDrEndPct))
    } else if chars_eq(n, "--fixed-curve-coarse-weight") {
        Some(OptionKind::Float(FloatField::FixedCurveCoarseWeight))
    } else if chars_eq(n, "--fixed-curve-refine-weight") {
        Some(OptionKind::Float(FloatField::FixedCurveRefineWeight))
    } else if chars_eq(n, "--fixed-curve-coarse-step-pct") {
        Some(OptionKind::Float(FloatField::FixedCurveCoarseStepPct))
    } else if chars_eq(n, "--fixed-curve-refine-step-pct") {
        Some(OptionKind::Float(FloatField::FixedCurveRefineStepPct))
    } else if chars_eq(n, "--fixed-curve-initial-radius-pct") {
        Some(OptionKind::Float(FloatField::FixedCurveInitialRadiusPct))
    } else if chars_eq(n, "--fixed-curve-adapt-margin-pct") {
        Some(OptionKind::Float(FloatField::FixedCurveAdaptMarginPct))
    } else if chars_eq(n, "--fixed-curve-adapt-top-per-bucket") {
        Some(OptionKind::Usize(UsizeField::FixedCurveAdaptTopPerBucket))
    } else if chars_eq(n, "--fixed-curve-adapt-max-points") {
        Some(OptionKind::Usize(UsizeField::FixedCurveAdaptMaxPoints))
    } else if chars_eq(n, "--fixed-dr-label-step-pct") {
        Some(OptionKind::Float(FloatField::FixedDrLabelStepPct))
    } else if chars_eq(n, "--output-dir") {
        Some(OptionKind::OutputDir)
    } else {
        None
    }
}


// ---------------------------------------------------------------------------
// Text cut at a separator: preset names and export lines
// ---------------------------------------------------------------------------

/// `s` cut at every `sep`, as `str::split(sep)` cuts it.
pub open spec fn split_at(s: Seq<char>, sep: char) -> Seq<Seq<char>>
    decreases s.len(),
{
    if s.len() == 0 {
        seq![seq![]]
    } else {
        let r = split_at(s.drop_last(), sep);
        if s.last() == sep {
            r.push(seq![])
        } else {
            r.update(r.len() - 1, r.last().push(s.last()))
        }
    }
}

proof fn lemma_split_at_nonempty(s: Seq<char>, sep: char)
    ensures
        split_at(s, sep).len() >= 1,
    decreases s.len(),
{
    if s.len() > 0 {
        lemma_split_at_nonempty(s.drop_last(), sep);
    }
}

/// The pieces trimmed, the empty ones left out.
pub open spec fn nonempty_trimmed(ps: Seq<Seq<char>>) -> Seq<Seq<char>>
    decreases ps.len(),
{
    if ps.len() == 0 {
        seq![]
    } else {
        let r = nonempty_trimmed(ps.drop_last());
        let t = trim(ps.last());
        if t.len() == 0 {
            r
        } else {
            r.push(t)
        }
    }
}

/// The names that a `--preset` value lists.
pub open spec fn preset_list(s: Seq<char>) -> Seq<Seq<char>> {
    nonempty_trimmed(split_at(s, ','))
}

pub open spec fn strings_view(v: Seq<String>) -> Seq<Seq<char>> {
    v.map_values(|s: String| s@)
}

/// The pieces of `value` between the `sep`s, each trimmed, the empty ones left out.
pub fn split_trimmed(value: &str, sep: char) -> (r: Vec<String>)
    ensures
        strings_view(r@) == nonempty_trimmed(split_at(value@, sep)),
{
    let v = chars_of(value);
    let mut out: Vec<String> = Vec::new();
    let mut current: Vec<char> = Vec::new();
    let ghost mut done: Seq<Seq<char>> = seq![];
    let mut i: usize = 0;
    assert(v@.take(0) =~= seq![]);
    while i < v.len()
        invariant
            i <= v.len(),
            v@ == value@,
            split_at(v@.take(i as int), sep) == done.push(current@),
            strings_view(out@) == nonempty_trimmed(done),
        decreases v.len() - i,
    {
        let c = v[i];
        let ghost prev = v@.take(i as int);
        assert(v@.take(i + 1).drop_last() =~= prev);
        proof {
            lemma_split_at_nonempty(prev, sep);
        }
        if c == sep {
            let t = trim_chars(&current, false);
            proof {
                assert(done.push(current@).drop_last() =~= done);
            }
            if t.len() > 0 {
                out.push(string_from_chars(&t));
                assert(strings_view(out@) =~= nonempty_trimmed(done.push(current@)));
            } else {
                assert(strings_view(out@) =~= nonempty_trimmed(done.push(current@)));
            }
            proof {
                done = done.push(current@);
            }
            current = Vec::new();
            assert(split_at(v@.take(i + 1), sep) =~= done.push(current@));
        } else {
            current.push(c);
            assert(split_at(v@.take(i + 1), sep) =~= done.push(current@));
        }
        i = i + 1;
    }
    assert(v@.take(v.len() as int) =~= v@);
    let t = trim_chars(&current, false);
    proof {
        assert(done.push(current@).drop_last() =~= done);
    }
    if t.len() > 0 {
        out.push(string_from_chars(&t));
    }
    assert(strings_view(out@) =~= nonempty_trimmed(done.push(current@)));
    out
}

/// The comma-separated names in `value`, each trimmed, the empty ones left out.
pub fn split_presets(value: &str) -> (r: Vec<String>)
    ensures
        strings_view(r@) == preset_list(value@),
{
    split_trimmed(value, ',')
}

/// Whether `c` separates the numbers of a candidate written as text.
pub open spec fn candidate_separator(c: char) -> bool {
    c == ',' || is_white_space(c)
}

/// `s` cut at every comma and every white-space character.
pub open spec fn split_candidate(s: Seq<char>) -> Seq<Seq<char>>
    decreases s.len(),
{
    if s.len() == 0 {
        seq![seq![]]
    } else {
        let r = split_candidate(s.drop_last());
        if candidate_separator(s.last()) {
            r.push(seq![])
        } else {
            r.update(r.len() - 1, r.last().push(s.last()))
        }
    }
}

proof fn lemma_split_candidate_nonempty(s: Seq<char>)
    ensures
        split_candidate(s).len() >= 1,
    decreases s.len(),
{
    if s.len() > 0 {
        lemma_split_candidate_nonempty(s.drop_last());
    }
}

/// The pieces that are not empty.
pub open spec fn nonempty(ps: Seq<Seq<char>>) -> Seq<Seq<char>>
    decreases ps.len(),
{
    if ps.len() == 0 {
        seq![]
    } else {
        let r = nonempty(ps.drop_last());
        if ps.last().len() == 0 {
            r
        } else {
            r.push(ps.last())
        }
    }
}

/// The number texts of a candidate written as text: the pieces between commas and
/// white space, the empty ones left out.
pub fn candidate_parts(value: &str) -> (r: Vec<String>)
    ensures
        strings_view(r@) == nonempty(split_candidate(value@)),
{
    let v = chars_of(value);
    let mut out: Vec<String> = Vec::new();
    let mut current: Vec<char> = Vec::new();
    let ghost mut done: Seq<Seq<char>> = seq![];
    let mut i: usize = 0;
    assert(v@.take(0) =~= seq![]);
    while i < v.len()
        invariant
            i <= v.len(),
            v@ == value@,
            split_candidate(v@.take(i as int)) == done.push(current@),
            strings_view(out@) == nonempty(done),
        decreases v.len() - i,
    {
        let c = v[i];
        let ghost prev = v@.take(i as int);
        assert(v@.take(i + 1).drop_last() =~= prev);
        proof {
            lemma_split_candidate_nonempty(prev);
        }
        if c == ',' || white_space(c) {
            proof {
                assert(done.push(current@).drop_last() =~= done);
            }
            if current.len() > 0 {
                out.push(string_from_chars(&current));
            }
            assert(strings_view(out@) =~= nonempty(done.push(current@)));
            proof {
                done = done.push(current@);
            }
            current = Vec::new();
            assert(split_candidate(v@.take(i + 1)) =~= done.push(current@));
        } else {
            current.push(c);
            assert(split_candidate(v@.take(i + 1)) =~= done.push(current@));
        }
        i = i + 1;
    }
    assert(v@.take(v.len() as int) =~= v@);
    proof {
        assert(done.push(current@).drop_last() =~= done);
    }
    if current.len() > 0 {
        out.push(string_from_chars(&current));
    }
    assert(strings_view(out@) =~= nonempty(done.push(current@)));
    out
}

// ---------------------------------------------------------------------------
// Settings read from the command line
// ---------------------------------------------------------------------------

/// One setting that an option gives. Real numbers keep their text (with the option's
/// name for the message if they do not read as numbers); `FloatCheck` is a number
/// read before the option failed for want of a value.
#[derive(Debug)]
pub enum CliSetting {
    Export(String),
    OutputDir(String),
    Presets(bool, Vec<String>),
    Seed(u64),
    Int(IntField, i32),
    Usize(UsizeField, usize),
    Flag(FlagField, bool),
    Float(FloatField, String, String),
    FloatCheck(String, String),
    Point(PointOption, String, String, String, String),
}

/// A setting with its strings taken as character sequences.
pub enum SettingView {
    Export(Seq<char>),
    OutputDir(Seq<char>),
    Presets(bool, Seq<Seq<char>>),
    Seed(u64),
    Int(IntField, i32),
    Usize(UsizeField, usize),
    Flag(FlagField, bool),
    Float(FloatField, Seq<char>, Seq<char>),
    FloatCheck(Seq<char>, Seq<char>),
    Point(PointOption, Seq<char>, Seq<char>, Seq<char>, Seq<char>),
}

impl View for CliSetting {
    type V = SettingView;

    open spec fn view(&self) -> SettingView {
        match self {
            CliSetting::Export(p) => SettingView::Export(p@),
            CliSetting::OutputDir(p) => SettingView::OutputDir(p@),
            CliSetting::Presets(reset, names) => SettingView::Presets(*reset, strings_view(names@)),
            CliSetting::Seed(n) => SettingView::Seed(*n),
            CliSetting::Int(f, n) => SettingView::Int(*f, *n),
            CliSetting::Usize(f, n) => SettingView::Usize(*f, *n),
            CliSetting::Flag(f, b) => SettingView::Flag(*f, *b),
            CliSetting::Float(f, name, v) => SettingView::Float(*f, name@, v@),
            CliSetting::FloatCheck(name, v) => SettingView::FloatCheck(name@, v@),
            CliSetting::Point(p, name, a, b, c) => SettingView::Point(*p, name@, a@, b@, c@),
        }
    }
}

pub open spec fn settings_view(v: Seq<CliSetting>) -> Seq<SettingView> {
    v.map_values(|s: CliSetting| s@)
}

pub open spec fn is_point_only(f: FlagField) -> bool {
    f == FlagField::RecommendedOnly || f == FlagField::AggressiveOnly || f == FlagField::CalmOnly
}

/// What reading the option at one position gives.
pub struct StepView {
    pub settings: Seq<SettingView>,
    pub next: int,
    pub error: Option<Seq<char>>,
    pub presets_seen: bool,
    pub point_only: bool,
}

pub open spec fn step_ok(settings: Seq<SettingView>, next: int, seen: bool, point_only: bool) -> StepView {
    StepView { settings, next, error: None, presets_seen: seen, point_only }
}

pub open spec fn step_fail(settings: Seq<SettingView>, msg: Seq<char>, seen: bool) -> StepView {
    StepView { settings, next: 0, error: Some(msg), presets_seen: seen, point_only: false }
}

/// The value of the option at `i`: the inline one, or the next argument; with the
/// position of the last argument used.
pub open spec fn value_of(a: Seq<Seq<char>>, i: int, inline: Option<Seq<char>>) -> Option<(Seq<char>, int)> {
    match inline {
        Some(v) => Some((v, i)),
        None => if i + 1 < a.len() {
            Some((a[i + 1], i + 1))
        } else {
            None
        },
    }
}

/// Reading the option at position `i`; `seen` tells whether a preset option came before.
pub open spec fn spec_step(a: Seq<Seq<char>>, i: int, seen: bool) -> StepView {
    let t = a[i];
    let (name, inline) = spec_split_option(t);
    match option_kind(name) {
        None => step_fail(
            seq![],
            if t.len() > 0 && t[0] == '-' {
                "unknown option: "@ + name
            } else {
                "unexpected positional argument: "@ + t
            },
            seen,
        ),
        Some(OptionKind::Flag(f, b)) => step_ok(seq![SettingView::Flag(f, b)], i + 1, seen, is_point_only(f)),
        Some(k) => match value_of(a, i, inline) {
            None => step_fail(seq![], expects_value_msg(name), seen),
            Some((v, j)) => match k {
                OptionKind::QualityPreset => step_ok(seq![], j + 1, seen, false),
                OptionKind::Export => step_ok(seq![SettingView::Export(v)], j + 1, seen, false),
                OptionKind::OutputDir => step_ok(seq![SettingView::OutputDir(v)], j + 1, seen, false),
                OptionKind::Presets => step_ok(
                    seq![SettingView::Presets(!seen, preset_list(v))],
                    j + 1,
                    true,
                    false,
                ),
                OptionKind::Seed => match unsigned_text(v) {
                    Some(n) => if n <= u64::MAX {
                        step_ok(seq![SettingView::Seed(n as u64)], j + 1, seen, false)
                    } else {
                        step_fail(seq![], integer_msg(name, v), seen)
                    },
                    None => step_fail(seq![], integer_msg(name, v), seen),
                },
                OptionKind::Int(f) => match signed_text(v) {
                    Some(n) => if i32::MIN <= n <= i32::MAX {
                        step_ok(seq![SettingView::Int(f, n as i32)], j + 1, seen, false)
                    } else {
                        step_fail(seq![], integer_msg(name, v), seen)
                    },
                    None => step_fail(seq![], integer_msg(name, v), seen),
                },
                OptionKind::Usize(f) => match unsigned_text(v) {
                    Some(n) => if n <= usize::MAX {
                        step_ok(seq![SettingView::Usize(f, n as usize)], j + 1, seen, false)
                    } else {
                        step_fail(seq![], non_negative_msg(name, v), seen)
                    },
                    None => step_fail(seq![], non_negative_msg(name, v), seen),
                },
                OptionKind::Float(f) => step_ok(seq![SettingView::Float(f, name, v)], j + 1, seen, false),
                OptionKind::Point(p) => if j + 2 < a.len() {
                    step_ok(seq![SettingView::Point(p, name, v, a[j + 1], a[j + 2])], j + 3, seen, false)
                } else if j + 1 < a.len() {
                    step_fail(
                        seq![SettingView::FloatCheck(name, v), SettingView::FloatCheck(name, a[j + 1])],
                        expects_three_msg(name),
                        seen,
                    )
                } else {
                    step_fail(seq![SettingView::FloatCheck(name, v)], expects_three_msg(name), seen)
                },
                OptionKind::Flag(f, b) => step_ok(seq![SettingView::Flag(f, b)], i + 1, seen, is_point_only(f)),
            },
        },
    }
}

/// What reading one option gives.
pub struct TokenStep {
    pub settings: Vec<CliSetting>,
    pub next: usize,
    pub error: Option<String>,
    pub presets_seen: bool,
    pub point_only: bool,
}

impl View for TokenStep {
    type V = StepView;

    open spec fn view(&self) -> StepView {
        StepView {
            settings: settings_view(self.settings@),
            next: if self.error is Some { 0 } else { self.next as int },
            error: match self.error {
                Some(m) => Some(m@),
                None => None,
            },
            presets_seen: self.presets_seen,
            point_only: if self.error is Some { false } else { self.point_only },
        }
    }
}

fn token_fail(settings: Vec<CliSetting>, msg: String, seen: bool) -> (r: TokenStep)
    ensures
        r@ == step_fail(settings_view(settings@), msg@, seen),
{
    TokenStep { settings, next: 0, error: Some(msg), presets_seen: seen, point_only: false }
}

fn token_ok(settings: Vec<CliSetting>, next: usize, seen: bool, point_only: bool) -> (r: TokenStep)
    ensures
        r@ == step_ok(settings_view(settings@), next as int, seen, point_only),
        r.next == next,
        r.error is None,
{
    TokenStep { settings, next, error: None, presets_seen: seen, point_only }
}

fn none() -> (v: Vec<CliSetting>)
    ensures
        settings_view(v@) == Seq::<SettingView>::empty(),
{
    let v = Vec::new();
    assert(settings_view(v@) =~= Seq::<SettingView>::empty());
    v
}

fn one(s: CliSetting) -> (v: Vec<CliSetting>)
    ensures
        settings_view(v@) == seq![s@],
{
    let mut v = Vec::new();
    v.push(s);
    assert(settings_view(v@) =~= seq![s@]);
    v
}

fn two(s: CliSetting, t: CliSetting) -> (v: Vec<CliSetting>)
    ensures
        settings_view(v@) == seq![s@, t@],
{
    let ghost sv = s@;
    let ghost tv = t@;
    let mut v = Vec::new();
    v.push(s);
    v.push(t);
    assert(settings_view(v@) =~= seq![sv, tv]);
    v
}

/// Reads the option at position `i`.
pub fn parse_token(args: &[String], i: usize, seen: bool) -> (r: TokenStep)
    requires
        i < args@.len(),
    ensures
        r@ == spec_step(arg_views(args@), i as int, seen),
        r.error is None ==> i < r.next <= args@.len(),
{
    let ghost a = arg_views(args@);
    let token = args[i].as_str();
    assert(a[i as int] == token@);
    let (name, inline) = split_option(token);
    let nv = chars_of(name);
    let kind = classify_option(&nv);
    match kind {
        None => {
            let tv = chars_of(token);
            if tv.len() > 0 && tv[0] == '-' {
                token_fail(none(), concat("unknown option: ", name), seen)
            } else {
                token_fail(none(), concat("unexpected positional argument: ", token), seen)
            }
        },
        Some(OptionKind::Flag(f, b)) => {
            let po = match f {
                FlagField::RecommendedOnly => true,
                FlagField::AggressiveOnly => true,
                FlagField::CalmOnly => true,
                _ => false,
            };
            token_ok(one(CliSetting::Flag(f, b)), i + 1, seen, po)
        },
        Some(k) => {
            let mut j = i;
            let v = match value_for(args, &mut j, inline, name) {
                Ok(v) => v,
                Err(m) => {
                    return token_fail(none(), m, seen);
                },
            };
            assert(value_of(a, i as int, opt_view(inline)) == Some((v@, j as int)));
            match k {
                OptionKind::QualityPreset => token_ok(none(), j + 1, seen, false),
                OptionKind::Export => token_ok(one(CliSetting::Export(v.to_string())), j + 1, seen, false),
                OptionKind::OutputDir => token_ok(
                    one(CliSetting::OutputDir(v.to_string())),
                    j + 1,
                    seen,
                    false,
                ),
                OptionKind::Presets => token_ok(
                    one(CliSetting::Presets(!seen, split_presets(v))),
                    j + 1,
                    true,
                    false,
                ),
                OptionKind::Seed => match parse_u64(v, name) {
                    Ok(n) => token_ok(one(CliSetting::Seed(n)), j + 1, seen, false),
                    Err(m) => token_fail(none(), m, seen),
                },
                OptionKind::Int(f) => match parse_i32(v, name) {
                    Ok(n) => token_ok(one(CliSetting::Int(f, n)), j + 1, seen, false),
                    Err(m) => token_fail(none(), m, seen),
                },
                OptionKind::Usize(f) => match parse_usize(v, name) {
                    Ok(n) => token_ok(one(CliSetting::Usize(f, n)), j + 1, seen, false),
                    Err(m) => token_fail(none(), m, seen),
                },
                OptionKind::Float(f) => token_ok(
                    one(CliSetting::Float(f, name.to_string(), v.to_string())),
                    j + 1,
                    seen,
                    false,
                ),
                OptionKind::Point(p) => {
                    let b = match next_positional(args, &mut j, name) {
                        Ok(b) => b,
                        Err(m) => {
                            return token_fail(
                                one(CliSetting::FloatCheck(name.to_string(), v.to_string())),
                                m,
                                seen,
                            );
                        },
                    };
                    let c = match next_positional(args, &mut j, name) {
                        Ok(c) => c,
                        Err(m) => {
                            let checks = two(
                                CliSetting::FloatCheck(name.to_string(), v.to_string()),
                                CliSetting::FloatCheck(name.to_string(), b.to_string()),
                            );
                            return token_fail(checks, m, seen);
                        },
                    };
                    token_ok(
                        one(
                            CliSetting::Point(
                                p,
                                name.to_string(),
                                v.to_string(),
                                b.to_string(),
                                c.to_string(),
                            ),
                        ),
                        j + 1,
                        seen,
                        false,
                    )
                },
                OptionKind::Flag(f, b) => {
                    let po = match f {
                        FlagField::RecommendedOnly => true,
                        FlagField::AggressiveOnly => true,
                        FlagField::CalmOnly => true,
                        _ => false,
                    };
                    token_ok(one(CliSetting::Flag(f, b)), i + 1, seen, po)
                },
            }
        },
    }
}


pub open spec fn exclusive_msg() -> Seq<char> {
    "--recommended-only, --aggressive-only, and --calm-only are mutually exclusive"@
}

/// The settings that the options from position `i` on give, and the error that stops
/// them if one does; `count` point-only switches came before.
pub open spec fn parse_from(a: Seq<Seq<char>>, i: int, seen: bool, count: int) -> (Seq<SettingView>, Option<Seq<char>>)
    decreases a.len() - i,
{
    if i < 0 || i >= a.len() {
        (seq![], if count > 1 { Some(exclusive_msg()) } else { None })
    } else {
        let st = spec_step(a, i, seen);
        if st.error is Some {
            (st.settings, st.error)
        } else if i < st.next <= a.len() {
            let r = parse_from(a, st.next, st.presets_seen, count + if st.point_only { 1int } else { 0 });
            (st.settings + r.0, r.1)
        } else {
            (st.settings, None)
        }
    }
}

pub open spec fn spec_parse_settings(a: Seq<Seq<char>>) -> (Seq<SettingView>, Option<Seq<char>>) {
    parse_from(a, 0, false, 0)
}

/// Whether a setting turns on one of the point-only switches.
pub open spec fn turns_on_point_only(s: SettingView) -> bool {
    s matches SettingView::Flag(f, _) && is_point_only(f)
}

/// How many settings turn on a point-only switch.
pub open spec fn point_only_count(s: Seq<SettingView>) -> int
    decreases s.len(),
{
    if s.len() == 0 {
        0
    } else {
        point_only_count(s.drop_last()) + if turns_on_point_only(s.last()) { 1int } else { 0 }
    }
}

proof fn lemma_point_only_count_append(a: Seq<SettingView>, b: Seq<SettingView>)
    ensures
        point_only_count(a + b) == point_only_count(a) + point_only_count(b),
    decreases b.len(),
{
    if b.len() > 0 {
        lemma_point_only_count_append(a, b.drop_last());
        assert((a + b).drop_last() =~= a + b.drop_last());
    } else {
        assert(a + b =~= a);
    }
}

/// A step that reads an option without an error moves forward within the command line,
/// and turns a point-only switch on exactly when it says so.
proof fn lemma_step_point_only(a: Seq<Seq<char>>, i: int, seen: bool)
    requires
        0 <= i < a.len(),
        spec_step(a, i, seen).error is None,
    ensures
        i < spec_step(a, i, seen).next <= a.len(),
        point_only_count(spec_step(a, i, seen).settings) == if spec_step(a, i, seen).point_only { 1int } else { 0 },
{
    reveal_with_fuel(point_only_count, 2);
    let st = spec_step(a, i, seen);
    let (name, inline) = spec_split_option(a[i]);
    match option_kind(name) {
        Some(OptionKind::Flag(f, b)) => {},
        Some(k) => {
            match value_of(a, i, inline) {
                Some((v, j)) => {
                    assert(i <= j < a.len());
                },
                None => {},
            }
        },
        None => {},
    }
}

proof fn lemma_parse_from_point_only(a: Seq<Seq<char>>, i: int, seen: bool, count: int)
    requires
        count >= 0,
    ensures
        parse_from(a, i, seen, count).1 is None ==> count + point_only_count(parse_from(a, i, seen, count).0) <= 1,
    decreases a.len() - i,
{
    if 0 <= i < a.len() {
        let st = spec_step(a, i, seen);
        if st.error is None {
            lemma_step_point_only(a, i, seen);
            let c2 = count + if st.point_only { 1int } else { 0 };
            lemma_parse_from_point_only(a, st.next, st.presets_seen, c2);
            let r = parse_from(a, st.next, st.presets_seen, c2);
            lemma_point_only_count_append(st.settings, r.0);
        }
    } else {
        assert(parse_from(a, i, seen, count).0 =~= Seq::<SettingView>::empty());
    }
}

/// The point-only switches exclude each other: a command line whose settings read
/// without an error turns on at most one of them.
pub proof fn lemma_point_only_exclusive(a: Seq<Seq<char>>)
    ensures
        spec_parse_settings(a).1 is None ==> point_only_count(spec_parse_settings(a).0) <= 1,
{
    lemma_parse_from_point_only(a, 0, false, 0);
}

/// The settings of a command line in order, and the error that ended it early, if any.
pub struct ParsedSettings {
    pub settings: Vec<CliSetting>,
    pub error: Option<String>,
}

impl View for ParsedSettings {
    type V = (Seq<SettingView>, Option<Seq<char>>);

    open spec fn view(&self) -> (Seq<SettingView>, Option<Seq<char>>) {
        (settings_view(self.settings@), match self.error {
            Some(m) => Some(m@),
            None => None,
        })
    }
}

/// Reads every option of the command line. Real numbers come back as text, to be read
/// in order with the other settings; where an option fails, the settings before it come
/// back with the error.
pub fn parse_settings(args: &[String]) -> (r: ParsedSettings)
    ensures
        r@ == spec_parse_settings(arg_views(args@)),
{
    let ghost a = arg_views(args@);
    let mut out: Vec<CliSetting> = Vec::new();
    let mut i: usize = 0;
    let mut seen = false;
    let mut count: usize = 0;
    assert(settings_view(out@) =~= seq![]);
    while i < args.len()
        invariant
            i <= args@.len(),
            count <= i,
            a == arg_views(args@),
            spec_parse_settings(a) == (settings_view(out@) + parse_from(a, i as int, seen, count as int).0,
                parse_from(a, i as int, seen, count as int).1),
        decreases args.len() - i,
    {
        let st = parse_token(args, i, seen);
        let ghost before = settings_view(out@);
        let ghost stv = st@;
        let TokenStep { settings, next, error, presets_seen, point_only } = st;
        let mut settings = settings;
        out.append(&mut settings);
        assert(settings_view(out@) =~= before + stv.settings);
        match error {
            Some(m) => {
                return ParsedSettings { settings: out, error: Some(m) };
            },
            None => {},
        }
        seen = presets_seen;
        if point_only {
            count = count + 1;
        }
        i = next;
    }
    let error = if count > 1 {
        Some("--recommended-only, --aggressive-only, and --calm-only are mutually exclusive".to_string())
    } else {
        None
    };
    assert(settings_view(out@) + seq![] =~= settings_view(out@));
    ParsedSettings { settings: out, error }
}

/// The quality preset that the options from `i` on name, `q` being the one named so far.
pub open spec fn quality_scan(a: Seq<Seq<char>>, i: int, q: Seq<char>) -> Result<Seq<char>, Seq<char>>
    decreases a.len() - i,
{
    if i < 0 || i >= a.len() {
        Ok(q)
    } else {
        let (name, inline) = spec_split_option(a[i]);
        if name == "--quality-preset"@ {
            match value_of(a, i, inline) {
                None => Err(expects_value_msg(name)),
                Some((v, j)) => if i <= j {
                    quality_scan(a, j + 1, v)
                } else {
                    Ok(q)
                },
            }
        } else {
            quality_scan(a, i + 1, q)
        }
    }
}

/// The quality preset that the command line names last, `medium-high` where it names none.
pub fn scan_quality_preset(args: &[String]) -> (r: Result<String, String>)
    ensures
        match r {
            Ok(q) => quality_scan(arg_views(args@), 0, "medium-high"@) == Ok::<Seq<char>, Seq<char>>(q@),
            Err(m) => quality_scan(arg_views(args@), 0, "medium-high"@) == Err::<Seq<char>, Seq<char>>(m@),
        },
{
    let ghost a = arg_views(args@);
    let mut quality = "medium-high".to_string();
    let mut i: usize = 0;
    while i < args.len()
        invariant
            i <= args@.len(),
            a == arg_views(args@),
            quality_scan(a, 0, "medium-high"@) == quality_scan(a, i as int, quality@),
        decreases args.len() - i,
    {
        let (name, inline) = split_option(args[i].as_str());
        if str_eq(name, "--quality-preset") {
            match value_for(args, &mut i, inline, name) {
                Ok(v) => {
                    quality = v.to_string();
                },
                Err(m) => {
                    return Err(m);
                },
            }
        }
        i = i + 1;
    }
    Ok(quality)
}

/// The switch that asks for only the point with label `l`.
pub open spec fn label_flag(l: ResultLabel) -> FlagField {
    match l {
        ResultLabel::Recommended => FlagField::RecommendedOnly,
        ResultLabel::Aggressive => FlagField::AggressiveOnly,
        ResultLabel::Calm => FlagField::CalmOnly,
    }
}

/// The command-line option for that switch: `--`, the label as file names write it, `-only`.
pub open spec fn point_only_option(l: ResultLabel) -> Seq<char> {
    "--"@ + l.spec_file_fragment() + "-only"@
}

/// Each point-only option turns on the switch of the label that its name names, and no
/// other option names a point-only switch: an option that turns on the switch of a
/// label is that label's option.
pub proof fn lemma_point_only_options(l: ResultLabel, n: Seq<char>, on: bool)
    ensures
        option_kind(point_only_option(l)) == Some(OptionKind::Flag(label_flag(l), true)),
        option_kind(n) == Some(OptionKind::Flag(label_flag(l), on)) ==> on && n == point_only_option(l),
{
    reveal_strlit("--");
    reveal_strlit("-only");
    reveal_strlit("recommended");
    reveal_strlit("aggressive");
    reveal_strlit("calm");
    reveal_strlit("--recommended-only");
    reveal_strlit("--aggressive-only");
    reveal_strlit("--calm-only");
    reveal_strlit("--quality-preset");
    reveal_strlit("--export");
    reveal_strlit("--preset");
    reveal_strlit("--presets");
    reveal_strlit("--target-dr");
    reveal_strlit("--days");
    reveal_strlit("--deck-size");
    reveal_strlit("--learn-limit");
    reveal_strlit("--seed");
    reveal_strlit("--threads");
    reveal_strlit("--matplotlib");
    let name = point_only_option(l);
    match l {
        ResultLabel::Recommended => {
            assert(name =~= "--recommended-only"@);
        },
        ResultLabel::Aggressive => {
            assert(name =~= "--aggressive-only"@);
        },
        ResultLabel::Calm => {
            assert(name =~= "--calm-only"@);
            assert(name[2] != "--target-dr"@[2]);
            assert(name[2] != "--deck-size"@[2]);
        },
    }
}

} // verus!
