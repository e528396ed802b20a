//! The keys and scalar values of JSON configuration overrides.
use vstd::prelude::*;
use crate::cli::{ascii_lower, signed_text, text_to_i64, text_to_u64, unsigned_text};
use crate::options::{FlagField, FloatField, IntField, UsizeField};
use crate::options::strings_view;
use crate::text::{chars_eq, chars_of, concat, debug_quoted, debug_str, str_eq};

verus! {

broadcast use vstd::string::group_string_axioms;

/// What a key of a configuration override object sets.
#[derive(Debug, Clone, Copy, PartialEq, Eq, Structural)]
pub enum ConfigKey {
    QualityPreset,
    Export,
    Preset,
    Presets,
    TargetDr,
    Seed,
    Selection,
    Original,
    InspectPoint,
    OutputDir,
    Int(IntField),
    Usize(UsizeField),
    Float(FloatField),
    Bool(FlagField),
}

/// What the override key `k` sets, if it is a known key.
pub open spec fn config_key(k: Seq<char>) -> Option<ConfigKey> {
    if k == "quality_preset"@ {
        Some(ConfigKey::QualityPreset)
    } else if k == "export"@ {
        Some(ConfigKey::Export)
    } else if k == "preset"@ {
        Some(ConfigKey::Preset)
    } else if k == "presets"@ {
        Some(ConfigKey::Presets)
    } else if k == "target_dr"@ {
        Some(ConfigKey::TargetDr)
    } else if k == "days"@ {
        Some(ConfigKey::Int(IntField::Days))
    } else if k == "deck_size"@ {
        Some(ConfigKey::Int(IntField::DeckSize))
    } else if k == "learn_limit"@ {
        Some(ConfigKey::Int(IntField::LearnLimit))
    } else if k == "seed"@ {
        Some(ConfigKey::Seed)
    } else if k == "threads"@ {
        Some(ConfigKey::Usize(UsizeField::Threads))
    } else if k == "matplotlib"@ {
        Some(ConfigKey::Bool(FlagField::Matplotlib))
    } else if k == "recommended_only"@ {
        Some(ConfigKey::Bool(FlagField::RecommendedOnly))
    } else if k == "aggressive_only"@ {
        Some(ConfigKey::Bool(FlagField::AggressiveOnly))
    } else if k == "calm_only"@ {
        Some(ConfigKey::Bool(FlagField::CalmOnly))
    } else if k == "selection"@ || k == "optimizer_strategy"@ || k == "point_only"@ {
        Some(ConfigKey::Selection)
    } else if k == "phase1_eval_weight"@ {
        Some(ConfigKey::Float(FloatField::Phase1EvalWeight))
    } else if k == "phase2_eval_weight"@ {
        Some(ConfigKey::Float(FloatField::Phase2EvalWeight))
    } else if k == "phase3_eval_weight"@ {
        Some(ConfigKey::Float(FloatField::Phase3EvalWeight))
    } else if k == "phase4_eval_weight"@ {
        Some(ConfigKey::Float(FloatField::Phase4EvalWeight))
    } else if k == "final_eval_weight"@ {
        Some(ConfigKey::Float(FloatField::FinalEvalWeight))
    } else if k == "dr_prune_weight"@ {
        Some(ConfigKey::Float(FloatField::DrPruneWeight))
    } else if k == "phase1_flat_step"@ {
        Some(ConfigKey::Float(FloatField::Phase1FlatStep))
    } else if k == "phase1_flat_half_steps"@ {
        Some(ConfigKey::Int(IntField::Phase1FlatHalfSteps))
    } else if k == "phase1_s_step"@ {
        Some(ConfigKey::Float(FloatField::Phase1SStep))
    } else if k == "phase1_s_max"@ {
        Some(ConfigKey::Float(FloatField::Phase1SMax))
    } else if k == "phase1_d_step"@ {
        Some(ConfigKey::Float(FloatField::Phase1DStep))
    } else if k == "phase1_d_min"@ {
        Some(ConfigKey::Float(FloatField::Phase1DMin))
    } else if k == "phase1_expand"@ {
        Some(ConfigKey::Bool(FlagField::Phase1Expand))
    } else if k == "phase1_expand_rounds"@ {
        Some(ConfigKey::Int(IntField::Phase1ExpandRounds))
    } else if k == "phase1_expand_batch"@ {
        Some(ConfigKey::Int(IntField::Phase1ExpandBatch))
    } else if k == "phase1_expand_overflow_factor"@ {
        Some(ConfigKey::Float(FloatField::Phase1ExpandOverflowFactor))
    } else if k == "phase2_flat_step"@ {
        Some(ConfigKey::Float(FloatField::Phase2FlatStep))
    } else if k == "phase2_s_step"@ {
        Some(ConfigKey::Float(FloatField::Phase2SStep))
    } else if k == "phase2_d_step"@ {
        Some(ConfigKey::Float(FloatField::Phase2DStep))
    } else if k == "phase3_flat_step"@ {
        Some(ConfigKey::Float(FloatField::Phase3FlatStep))
    } else if k == "phase3_s_step"@ {
        Some(ConfigKey::Float(FloatField::Phase3SStep))
    } else if k == "phase3_d_step"@ {
        Some(ConfigKey::Float(FloatField::Phase3DStep))
    } else if k == "phase4_flat_step"@ {
        Some(ConfigKey::Float(FloatField::Phase4FlatStep))
    } else if k == "phase4_s_step"@ {
        Some(ConfigKey::Float(FloatField::Phase4SStep))
    } else if k == "phase4_d_step"@ {
        Some(ConfigKey::Float(FloatField::Phase4DStep))
    } else if k == "phase4_seeds_per_objective"@ {
        Some(ConfigKey::Usize(UsizeField::Phase4SeedsPerObjective))
    } else if k == "phase4_max_steps"@ {
        Some(ConfigKey::Int(IntField::Phase4MaxSteps))
    } else if k == "promote_recommended"@ {
        Some(ConfigKey::Usize(UsizeField::PromoteRecommended))
    } else if k == "promote_efficiency_potential"@ {
        Some(ConfigKey::Usize(UsizeField::PromoteEfficiencyPotential))
    } else if k == "promote_memory_potential"@ {
        Some(ConfigKey::Usize(UsizeField::PromoteMemoryPotential))
    } else if k == "promote_pareto_extra"@ {
        Some(ConfigKey::Usize(UsizeField::PromoteParetoExtra))
    } else if k == "bridge_midpoint_limit"@ {
        Some(ConfigKey::Usize(UsizeField::BridgeMidpointLimit))
    } else if k == "experimental_bridge_midpoint_neighborhoods"@ {
        Some(ConfigKey::Bool(FlagField::ExperimentalBridgeMidpointNeighborhoods))
    } else if k == "final_candidate_limit"@ {
        Some(ConfigKey::Usize(UsizeField::FinalCandidateLimit))
    } else if k == "max_spread_final_candidates"@ {
        Some(ConfigKey::Usize(UsizeField::MaxSpreadFinalCandidates))
    } else if k == "final_shortlist_recommended"@ {
        Some(ConfigKey::Usize(UsizeField::FinalShortlistRecommended))
    } else if k == "final_shortlist_efficiency"@ {
        Some(ConfigKey::Usize(UsizeField::FinalShortlistEfficiency))
    } else if k == "final_shortlist_memory"@ {
        Some(ConfigKey::Usize(UsizeField::FinalShortlistMemory))
    } else if k == "final_shortlist_frontier"@ {
        Some(ConfigKey::Usize(UsizeField::FinalShortlistFrontier))
    } else if k == "scout_potential_band_pct"@ {
        Some(ConfigKey::Float(FloatField::ScoutPotentialBandPct))
    } else if k == "final_potential_band_pct"@ {
        Some(ConfigKey::Float(FloatField::FinalPotentialBandPct))
    } else if k == "aggressive_calm_regret_pct"@ {
        Some(ConfigKey::Float(FloatField::AggressiveCalmRegretPct))
    } else if k == "safety_s_max"@ {
        Some(ConfigKey::Float(FloatField::SafetySMax))
    } else if k == "safety_checks"@ {
        Some(ConfigKey::Int(IntField::SafetyChecks))
    } else if k == "ignore_safety"@ {
        Some(ConfigKey::Bool(FlagField::IgnoreSafety))
    } else if k == "legacy_unsafe_plot_display"@ {
        Some(ConfigKey::Bool(FlagField::LegacyUnsafePlotDisplay))
    } else if k == "include_original"@ {
        Some(ConfigKey::Bool(FlagField::IncludeOriginal))
    } else if k == "original"@ {
        Some(ConfigKey::Original)
    } else if k == "inspect_point"@ {
        Some(ConfigKey::InspectPoint)
    } else if k == "fixed_dr_start_pct"@ {
        Some(ConfigKey::Float(FloatField::FixedDrStartPct))
    } else if k == "fixed_dr_end_pct"@ {
        Some(ConfigKey::Float(FloatField::FixedDrEndPct))
    } else if k == "fixed_curve_coarse_weight"@ {
        Some(ConfigKey::Float(FloatField::FixedCurveCoarseWeight))
    } else if k == "fixed_curve_refine_weight"@ {
        Some(ConfigKey::Float(FloatField::FixedCurveRefineWeight))
    } else if k == "fixed_curve_coarse_step_pct"@ {
        Some(ConfigKey::Float(FloatField::FixedCurveCoarseStepPct))
    } else if k == "fixed_curve_refine_step_pct"@ {
        Some(ConfigKey::Float(FloatField::FixedCurveRefineStepPct))
    } else if k == "fixed_curve_initial_radius_pct"@ {
        Some(ConfigKey::Float(FloatField::FixedCurveInitialRadiusPct))
    } else if k == "fixed_curve_adapt_margin_pct"@ {
        Some(ConfigKey::Float(FloatField::FixedCurveAdaptMarginPct))
    } else if k == "fixed_curve_adapt_top_per_bucket"@ {
        Some(ConfigKey::Usize(UsizeField::FixedCurveAdaptTopPerBucket))
    } else if k == "fixed_curve_adapt_max_points"@ {
        Some(ConfigKey::Usize(UsizeField::FixedCurveAdaptMaxPoints))
    } else if k == "fixed_dr_label_step_pct"@ {
        Some(ConfigKey::Float(FloatField::FixedDrLabelStepPct))
    } else if k == "output_dir"@ {
        Some(ConfigKey::OutputDir)
    } else {
        None
    }
}

/// What the override key `k` sets, if it is a known key.
pub fn config_key_kind(k: &Vec<char>) -> (r: Option<ConfigKey>)
    ensures
        r == config_key(k@),
{
    if chars_eq(k, "quality_preset") {
        Some(ConfigKey::QualityPreset)
    } else if chars_eq(k, "export") {
        Some(ConfigKey::Export)
    } else if chars_eq(k, "preset") {
        Some(ConfigKey::Preset)
    } else if chars_eq(k, "presets") {
        Some(ConfigKey::Presets)
    } else if chars_eq(k, "target_dr") {
        Some(ConfigKey::TargetDr)
    } else if chars_eq(k, "days") {
        Some(ConfigKey::Int(IntField::Days))
    } else if chars_eq(k, "deck_size") {
        Some(ConfigKey::Int(IntField::DeckSize))
    } else if chars_eq(k, "learn_limit") {
        Some(ConfigKey::Int(IntField::LearnLimit))
    } else if chars_eq(k, "seed") {
        Some(ConfigKey::Seed)
    } else if chars_eq(k, "threads") {
        Some(ConfigKey::Usize(UsizeField::Threads))
    } else if chars_eq(k, "matplotlib") {
        Some(ConfigKey::Bool(FlagField::Matplotlib))
    } else if chars_eq(k, "recommended_only") {
        Some(ConfigKey::Bool(FlagField::RecommendedOnly))
    } else if chars_eq(k, "aggressive_only") {
        Some(ConfigKey::Bool(FlagField::AggressiveOnly))
    } else if chars_eq(k, "calm_only") {
        Some(ConfigKey::Bool(FlagField::CalmOnly))
    } else if chars_eq(k, "selection") || chars_eq(k, "optimizer_strategy") || chars_eq(k, "point_only") {
        Some(ConfigKey::Selection)
    } else if chars_eq(k, "phase1_eval_weight") {
        Some(ConfigKey::Float(FloatField::Phase1EvalWeight))
    } else if chars_eq(k, "phase2_eval_weight") {
        Some(ConfigKey::Float(FloatField::Phase2EvalWeight))
    } else if chars_eq(k, "phase3_eval_weight") {
        Some(ConfigKey::Float(FloatField::Phase3EvalWeight))
    } else if chars_eq(k, "phase4_eval_weight") {
        Some(ConfigKey::Float(FloatField::Phase4EvalWeight))
    } else if chars_eq(k, "final_eval_weight") {
        Some(ConfigKey::Float(FloatField::FinalEvalWeight))
    } else if chars_eq(k, "dr_prune_weight") {
        Some(ConfigKey::Float(FloatField::DrPruneWeight))
    } else if chars_eq(k, "phase1_flat_step") {
        Some(ConfigKey::Float(FloatField::Phase1FlatStep))
    } else if chars_eq(k, "phase1_flat_half_steps") {
        Some(ConfigKey::Int(IntField::Phase1FlatHalfSteps))
    } else if chars_eq(k, "phase1_s_step") {
        Some(ConfigKey::Float(FloatField::Phase1SStep))
    } else if chars_eq(k, "phase1_s_max") {
        Some(ConfigKey::Float(FloatField::Phase1SMax))
    } else if chars_eq(k, "phase1_d_step") {
        Some(ConfigKey::Float(FloatField::Phase1DStep))
    } else if chars_eq(k, "phase1_d_min") {
        Some(ConfigKey::Float(FloatField::Phase1DMin))
    } else if chars_eq(k, "phase1_expand") {
        Some(ConfigKey::Bool(FlagField::Phase1Expand))
    } else if chars_eq(k, "phase1_expand_rounds") {
        Some(ConfigKey::Int(IntField::Phase1ExpandRounds))
    } else if chars_eq(k, "phase1_expand_batch") {
        Some(ConfigKey::Int(IntField::Phase1ExpandBatch))
    } else if chars_eq(k, "phase1_expand_overflow_factor") {
        Some(ConfigKey::Float(FloatField::Phase1ExpandOverflowFactor))
    } else if chars_eq(k, "phase2_flat_step") {
        Some(ConfigKey::Float(FloatField::Phase2FlatStep))
    } else if chars_eq(k, "phase2_s_step") {
        Some(ConfigKey::Float(FloatField::Phase2SStep))
    } else if chars_eq(k, "phase2_d_step") {
        Some(ConfigKey::Float(FloatField::Phase2DStep))
    } else if chars_eq(k, "phase3_flat_step") {
        Some(ConfigKey::Float(FloatField::Phase3FlatStep))
    } else if chars_eq(k, "phase3_s_step") {
        Some(ConfigKey::Float(FloatField::Phase3SStep))
    } else if chars_eq(k, "phase3_d_step") {
        Some(ConfigKey::Float(FloatField::Phase3DStep))
    } else if chars_eq(k, "phase4_flat_step") {
        Some(ConfigKey::Float(FloatField::Phase4FlatStep))
    } else if chars_eq(k, "phase4_s_step") {
        Some(ConfigKey::Float(FloatField::Phase4SStep))
    } else if chars_eq(k, "phase4_d_step") {
        Some(ConfigKey::Float(FloatField::Phase4DStep))
    } else if chars_eq(k, "phase4_seeds_per_objective") {
        Some(ConfigKey::Usize(UsizeField::Phase4SeedsPerObjective))
    } else if chars_eq(k, "phase4_max_steps") {
        Some(ConfigKey::Int(IntField::Phase4MaxSteps))
    } else if chars_eq(k, "promote_recommended") {
        Some(ConfigKey::Usize(UsizeField::PromoteRecommended))
    } else if chars_eq(k, "promote_efficiency_potential") {
        Some(ConfigKey::Usize(UsizeField::PromoteEfficiencyPotential))
    } else if chars_eq(k, "promote_memory_potential") {
        Some(ConfigKey::Usize(UsizeField::PromoteMemoryPotential))
    } else if chars_eq(k, "promote_pareto_extra") {
        Some(ConfigKey::Usize(UsizeField::PromoteParetoExtra))
    } else if chars_eq(k, "bridge_midpoint_limit") {
        Some(ConfigKey::Usize(UsizeField::BridgeMidpointLimit))
    } else if chars_eq(k, "experimental_bridge_midpoint_neighborhoods") {
        Some(ConfigKey::Bool(FlagField::ExperimentalBridgeMidpointNeighborhoods))
    } else if chars_eq(k, "final_candidate_limit") {
        Some(ConfigKey::Usize(UsizeField::FinalCandidateLimit))
    } else if chars_eq(k, "max_spread_final_candidates") {
        Some(ConfigKey::Usize(UsizeField::MaxSpreadFinalCandidates))
    } else if chars_eq(k, "final_shortlist_recommended") {
        Some(ConfigKey::Usize(UsizeField::FinalShortlistRecommended))
    } else if chars_eq(k, "final_shortlist_efficiency") {
        Some(ConfigKey::Usize(UsizeField::FinalShortlistEfficiency))
    } else if chars_eq(k, "final_shortlist_memory") {
        Some(ConfigKey::Usize(UsizeField::FinalShortlistMemory))
    } else if chars_eq(k, "final_shortlist_frontier") {
        Some(ConfigKey::Usize(UsizeField::FinalShortlistFrontier))
    } else if chars_eq(k, "scout_potential_band_pct") {
        Some(ConfigKey::Float(FloatField::ScoutPotentialBandPct))
    } else if chars_eq(k, "final_potential_band_pct") {
        Some(ConfigKey::Float(FloatField::FinalPotentialBandPct))
    } else if chars_eq(k, "aggressive_calm_regret_pct") {
        Some(ConfigKey::Float(FloatField::AggressiveCalmRegretPct))
    } else if chars_eq(k, "safety_s_max") {
        Some(ConfigKey::Float(FloatField::SafetySMax))
    } else if chars_eq(k, "safety_checks") {
        Some(ConfigKey::Int(IntField::SafetyChecks))
    } else if chars_eq(k, "ignore_safety") {
        Some(ConfigKey::Bool(FlagField::IgnoreSafety))
    } else if chars_eq(k, "legacy_unsafe_plot_display") {
        Some(ConfigKey::Bool(FlagField::LegacyUnsafePlotDisplay))
    } else if chars_eq(k, "include_original") {
        Some(ConfigKey::Bool(FlagField::IncludeOriginal))
    } else if chars_eq(k, "original") {
        Some(ConfigKey::Original)
    } else if chars_eq(k, "inspect_point") {
        Some(ConfigKey::InspectPoint)
    } else if chars_eq(k, "fixed_dr_start_pct") {
        Some(ConfigKey::Float(FloatField::FixedDrStartPct))
    } else if chars_eq(k, "fixed_dr_end_pct") {
        Some(ConfigKey::Float(FloatField::FixedDrEndPct))
    } else if chars_eq(k, "fixed_curve_coarse_weight") {
        Some(ConfigKey::Float(FloatField::FixedCurveCoarseWeight))
    } else if chars_eq(k, "fixed_curve_refine_weight") {
        Some(ConfigKey::Float(FloatField::FixedCurveRefineWeight))
    } else if chars_eq(k, "fixed_curve_coarse_step_pct") {
        Some(ConfigKey::Float(FloatField::FixedCurveCoarseStepPct))
    } else if chars_eq(k, "fixed_curve_refine_step_pct") {
        Some(ConfigKey::Float(FloatField::FixedCurveRefineStepPct))
    } else if chars_eq(k, "fixed_curve_initial_radius_pct") {
        Some(ConfigKey::Float(FloatField::FixedCurveInitialRadiusPct))
    } else if chars_eq(k, "fixed_curve_adapt_margin_pct") {
        Some(ConfigKey::Float(FloatField::FixedCurveAdaptMarginPct))
    } else if chars_eq(k, "fixed_curve_adapt_top_per_bucket") {
        Some(ConfigKey::Usize(UsizeField::FixedCurveAdaptTopPerBucket))
    } else if chars_eq(k, "fixed_curve_adapt_max_points") {
        Some(ConfigKey::Usize(UsizeField::FixedCurveAdaptMaxPoints))
    } else if chars_eq(k, "fixed_dr_label_step_pct") {
        Some(ConfigKey::Float(FloatField::FixedDrLabelStepPct))
    } else if chars_eq(k, "output_dir") {
        Some(ConfigKey::OutputDir)
    } else {
        None
    }
}

pub open spec fn key_msg(context: Seq<char>, key: Seq<char>, tail: Seq<char>) -> Seq<char> {
    context + "."@ + key + tail
}

fn key_error(context: &str, key: &str, tail: &str) -> (m: String)
    ensures
        m@ == key_msg(context@, key@, tail@),
{
    let mut m = concat(context, ".");
    m.append(key);
    m.append(tail);
    m
}

pub open spec fn opt_str_view(o: Option<&str>) -> Option<Seq<char>> {
    match o {
        Some(t) => Some(t@),
        None => None,
    }
}

/// The integer that a JSON value gives: the number itself, or else the number its text
/// writes.
pub open spec fn spec_json_int(as_i64: Option<i64>, text: Option<Seq<char>>) -> Option<int> {
    match as_i64 {
        Some(n) => Some(n as int),
        None => match text {
            Some(t) => match signed_text(t) {
                Some(n) => if i64::MIN <= n <= i64::MAX {
                    Some(n)
                } else {
                    None
                },
                None => None,
            },
            None => None,
        },
    }
}

/// One step of applying an override object whose keys come in a given order.
#[derive(Debug)]
pub enum OverrideStep {
    /// Set what the key at this position names from its value.
    Apply(usize, ConfigKey),
    /// Stop with this message: the key at this position is not known.
    Unknown(usize, String),
}

pub enum OverrideStepView {
    Apply(int, ConfigKey),
    Unknown(int, Seq<char>),
}

impl View for OverrideStep {
    type V = OverrideStepView;

    open spec fn view(&self) -> OverrideStepView {
        match self {
            OverrideStep::Apply(i, k) => OverrideStepView::Apply(*i as int, *k),
            OverrideStep::Unknown(i, m) => OverrideStepView::Unknown(*i as int, m@),
        }
    }
}

pub open spec fn steps_view(v: Seq<OverrideStep>) -> Seq<OverrideStepView> {
    v.map_values(|s: OverrideStep| s@)
}

pub open spec fn unknown_key_msg(context: Seq<char>, key: Seq<char>) -> Seq<char> {
    context + " contains unknown config key "@ + debug_quoted(key)
}

/// The position of the first `quality_preset` key from `i` on, if there is one.
pub open spec fn quality_key_from(keys: Seq<Seq<char>>, i: int) -> Option<int>
    decreases keys.len() - i,
{
    if i < 0 || i >= keys.len() {
        None
    } else if keys[i] == "quality_preset"@ {
        Some(i)
    } else {
        quality_key_from(keys, i + 1)
    }
}

/// The keys from position `i` on, in order, each applied, until an unknown key stops
/// them; the quality preset is left out, having been applied first.
pub open spec fn key_steps_from(keys: Seq<Seq<char>>, context: Seq<char>, i: int) -> Seq<OverrideStepView>
    decreases keys.len() - i,
{
    if i < 0 || i >= keys.len() {
        seq![]
    } else {
        match config_key(keys[i]) {
            Some(ConfigKey::QualityPreset) => key_steps_from(keys, context, i + 1),
            Some(k) => seq![OverrideStepView::Apply(i, k)] + key_steps_from(keys, context, i + 1),
            None => seq![OverrideStepView::Unknown(i, unknown_key_msg(context, keys[i]))],
        }
    }
}

/// How an override object is applied: its quality preset first, where it has one, since
/// the preset resets the settings that the other keys may set; then every other key in
/// order, an unknown key ending the object with an error.
pub open spec fn spec_override_steps(keys: Seq<Seq<char>>, context: Seq<char>) -> Seq<OverrideStepView> {
    let first = match quality_key_from(keys, 0) {
        Some(i) => seq![OverrideStepView::Apply(i, ConfigKey::QualityPreset)],
        None => seq![],
    };
    first + key_steps_from(keys, context, 0)
}

/// The steps that apply an override object with the keys `keys`, in this order.
pub fn override_steps(keys: &Vec<String>, context: &str) -> (r: Vec<OverrideStep>)
    ensures
        steps_view(r@) == spec_override_steps(strings_view(keys@), context@),
{
    let ghost kv = strings_view(keys@);
    let mut out: Vec<OverrideStep> = Vec::new();
    let mut q: usize = 0;
    let mut found = false;
    while q < keys.len() && !found
        invariant
            q <= keys@.len(),
            kv == strings_view(keys@),
            found ==> q < keys@.len() && kv[q as int] == "quality_preset"@,
            found ==> quality_key_from(kv, 0) == Some(q as int),
            !found ==> quality_key_from(kv, 0) == quality_key_from(kv, q as int),
        decreases keys.len() - q + if found { 0int } else { 1 },
    {
        if str_eq(keys[q].as_str(), "quality_preset") {
            found = true;
        } else {
            q = q + 1;
        }
    }
    if found {
        assert(kv[q as int] == "quality_preset"@);
        out.push(OverrideStep::Apply(q, ConfigKey::QualityPreset));
    }
    let ghost first = steps_view(out@);
    assert(first == match quality_key_from(kv, 0) {
        Some(i) => seq![OverrideStepView::Apply(i, ConfigKey::QualityPreset)],
        None => Seq::<OverrideStepView>::empty(),
    }) by {
        assert(steps_view(out@) =~= if found {
            seq![OverrideStepView::Apply(q as int, ConfigKey::QualityPreset)]
        } else {
            Seq::<OverrideStepView>::empty()
        });
    }
    let mut i: usize = 0;
    while i < keys.len()
        invariant
            i <= keys@.len(),
            kv == strings_view(keys@),
            steps_view(out@) + key_steps_from(kv, context@, i as int) == spec_override_steps(kv, context@),
        decreases keys.len() - i,
    {
        let ghost before = steps_view(out@);
        let k = chars_of(keys[i].as_str());
        assert(k@ == kv[i as int]);
        match config_key_kind(&k) {
            Some(ConfigKey::QualityPreset) => {},
            Some(kind) => {
                out.push(OverrideStep::Apply(i, kind));
                assert(steps_view(out@) =~= before + seq![OverrideStepView::Apply(i as int, kind)]);
                assert(before + key_steps_from(kv, context@, i as int) =~= steps_view(out@) + key_steps_from(
                    kv,
                    context@,
                    i + 1,
                ));
            },
            None => {
                let mut m = concat(context, " contains unknown config key ");
                m.append(debug_str(keys[i].as_str()).as_str());
                out.push(OverrideStep::Unknown(i, m));
                assert(steps_view(out@) =~= before + seq![
                    OverrideStepView::Unknown(i as int, unknown_key_msg(context@, kv[i as int])),
                ]);
                assert(steps_view(out@) =~= spec_override_steps(kv, context@));
                return out;
            },
        }
        i = i + 1;
    }
    assert(steps_view(out@) =~= spec_override_steps(kv, context@));
    out
}

/// A 32-bit integer override, from what the JSON value reads as: an `i64`, or a string.
pub fn json_i32(as_i64: Option<i64>, text: Option<&str>, key: &str, context: &str) -> (r: Result<i32, String>)
    ensures
        match spec_json_int(as_i64, opt_str_view(text)) {
            Some(n) => if i32::MIN <= n <= i32::MAX {
                r == Ok::<i32, String>(n as i32)
            } else {
                r matches Err(m) && m@ == key_msg(context@, key@, " expected a 32-bit integer"@)
            },
            None => r matches Err(m) && m@ == key_msg(context@, key@, " expected a 32-bit integer"@),
        },
{
    let n = match as_i64 {
        Some(n) => Some(n),
        None => match text {
            Some(t) => text_to_i64(t),
            None => None,
        },
    };
    match n {
        Some(n) => {
            if i32::MIN as i64 <= n && n <= i32::MAX as i64 {
                Ok(n as i32)
            } else {
                Err(key_error(context, key, " expected a 32-bit integer"))
            }
        },
        None => Err(key_error(context, key, " expected a 32-bit integer")),
    }
}

/// The non-negative integer that a JSON value gives.
pub open spec fn spec_json_uint(as_u64: Option<u64>, text: Option<Seq<char>>) -> Option<nat> {
    match as_u64 {
        Some(n) => Some(n as nat),
        None => match text {
            Some(t) => match unsigned_text(t) {
                Some(n) => if n <= u64::MAX {
                    Some(n)
                } else {
                    None
                },
                None => None,
            },
            None => None,
        },
    }
}

/// An unsigned 64-bit override, from what the JSON value reads as: a `u64`, or a string.
pub fn json_u64(as_u64: Option<u64>, text: Option<&str>, key: &str, context: &str) -> (r: Result<u64, String>)
    ensures
        match spec_json_uint(as_u64, opt_str_view(text)) {
            Some(n) => r == Ok::<u64, String>(n as u64),
            None => r matches Err(m) && m@ == key_msg(context@, key@, " expected a non-negative integer"@),
        },
{
    let n = match as_u64 {
        Some(n) => Some(n),
        None => match text {
            Some(t) => text_to_u64(t),
            None => None,
        },
    };
    match n {
        Some(n) => Ok(n),
        None => Err(key_error(context, key, " expected a non-negative integer")),
    }
}

/// A size override: an unsigned integer that also fits in `usize`.
pub fn json_usize(as_u64: Option<u64>, text: Option<&str>, key: &str, context: &str) -> (r: Result<usize, String>)
    ensures
        match spec_json_uint(as_u64, opt_str_view(text)) {
            Some(n) => if n <= usize::MAX {
                r == Ok::<usize, String>(n as usize)
            } else {
                r matches Err(m) && m@ == key_msg(context@, key@, " is too large"@)
            },
            None => r matches Err(m) && m@ == key_msg(context@, key@, " expected a non-negative integer"@),
        },
{
    let raw = json_u64(as_u64, text, key, context)?;
    if raw as u128 <= usize::MAX as u128 {
        Ok(raw as usize)
    } else {
        Err(key_error(context, key, " is too large"))
    }
}

/// What a boolean override's text says: `true`, `1`, `yes` or `false`, `0`, `no`,
/// in any ASCII case.
pub open spec fn text_bool(t: Seq<char>) -> Option<bool> {
    let l = t.map_values(|c: char| ascii_lower(c));
    if l == "true"@ || l == "1"@ || l == "yes"@ {
        Some(true)
    } else if l == "false"@ || l == "0"@ || l == "no"@ {
        Some(false)
    } else {
        None
    }
}

pub open spec fn spec_json_bool(as_bool: Option<bool>, text: Option<Seq<char>>) -> Option<bool> {
    match as_bool {
        Some(b) => Some(b),
        None => match text {
            Some(t) => text_bool(t),
            None => None,
        },
    }
}

/// A boolean override, from what the JSON value reads as: a boolean, or a string.
pub fn json_bool(as_bool: Option<bool>, text: Option<&str>, key: &str, context: &str) -> (r: Result<bool, String>)
    ensures
        match spec_json_bool(as_bool, opt_str_view(text)) {
            Some(b) => r == Ok::<bool, String>(b),
            None => r matches Err(m) && m@ == key_msg(context@, key@, " expected a boolean"@),
        },
{
    if let Some(b) = as_bool {
        return Ok(b);
    }
    if let Some(t) = text {
        let v = chars_of(t);
        let mut l: Vec<char> = Vec::new();
        let mut i: usize = 0;
        while i < v.len()
            invariant
                i <= v.len(),
                v@ == t@,
                l@ == v@.take(i as int).map_values(|c: char| ascii_lower(c)),
            decreases v.len() - i,
        {
            let c = v[i];
            let d = if 'A' <= c && c <= 'Z' {
                ((c as u8) + 32) as char
            } else {
                c
            };
            l.push(d);
            assert(v@.take(i + 1) =~= v@.take(i as int).push(c));
            i = i + 1;
        }
        assert(v@.take(v.len() as int) =~= v@);
        if chars_eq(&l, "true") || chars_eq(&l, "1") || chars_eq(&l, "yes") {
            return Ok(true);
        }
        if chars_eq(&l, "false") || chars_eq(&l, "0") || chars_eq(&l, "no") {
            return Ok(false);
        }
    }
    Err(key_error(context, key, " expected a boolean"))
}

} // verus!
