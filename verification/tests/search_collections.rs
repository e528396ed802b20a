use adr_optimizer::domain::{phase1_boundary_directions, push_unique, Phase1Bounds};
use adr_optimizer::keyed::{
    add_top, dedupe_by_key, dedupe_candidates, seed_profiles,
    select_promotions_from_ranked, upsert_keyed, PromotionLimits, SeedObjective,
};
use adr_optimizer::labels::{group_labels, reference_labels};
use adr_optimizer::safety::{lookup_safety, partition_by_safety, safety_pool};
use adr_optimizer::types::{PointKey, SafetySummary};

fn k(a: i64) -> PointKey {
    PointKey(a, 0, 0)
}

#[test]
fn dedupe_keeps_first_position_last_value() {
    let out = dedupe_by_key(vec![(k(1), "a"), (k(2), "b"), (k(1), "c"), (k(3), "d"), (k(2), "e")]);
    assert_eq!(out, vec![(k(1), "c"), (k(2), "e"), (k(3), "d")]);
    assert_eq!(dedupe_by_key(out.clone()), out);
}

#[test]
fn dedupe_candidates_drops_outside_quadrant() {
    // The third entry has key 0 on every factor but is marked outside the quadrant, as a
    // candidate with a NaN factor is.
    let items = vec![
        (PointKey(1, 10, -10), true, 1),
        (PointKey(1, -1, -10), false, 2),
        (PointKey(1, 0, 0), false, 3),
        (PointKey(1, 0, 0), true, 4),
        (PointKey(1, 10, -10), true, 5),
    ];
    assert_eq!(dedupe_candidates(items.clone(), true), vec![(PointKey(1, 10, -10), 5), (PointKey(1, 0, 0), 4)]);
    assert_eq!(
        dedupe_candidates(items, false),
        vec![(PointKey(1, 10, -10), 5), (PointKey(1, -1, -10), 2), (PointKey(1, 0, 0), 4)]
    );
}

#[test]
fn upsert_replaces_in_place() {
    let mut v = vec![(k(1), 10), (k(2), 20)];
    upsert_keyed(&mut v, (k(1), 11));
    upsert_keyed(&mut v, (k(3), 30));
    assert_eq!(v, vec![(k(1), 11), (k(2), 20), (k(3), 30)]);
}

#[test]
fn add_top_counts_new_keys() {
    let mut sel = vec![(k(1), 'a')];
    add_top(&mut sel, vec![(k(1), 'b'), (k(2), 'c'), (k(3), 'd'), (k(4), 'e')], 2);
    assert_eq!(sel, vec![(k(1), 'b'), (k(2), 'c'), (k(3), 'd')]);
    let mut sel: Vec<(PointKey, char)> = Vec::new();
    add_top(&mut sel, vec![(k(5), 'x'), (k(6), 'y')], 0);
    assert_eq!(sel, vec![(k(5), 'x')]);
}

#[test]
fn promotions_with_pareto_extras() {
    let limits = PromotionLimits { recommended: 1, efficiency: 1, memory: 1, pareto_extra: 2 };
    let (sel, extra) = select_promotions_from_ranked(
        vec![(k(1), 1), (k(2), 2)],
        vec![(k(1), 11), (k(3), 3)],
        vec![(k(4), 4)],
        vec![(k(3), 3), (k(5), 5), (k(6), 6), (k(7), 7)],
        limits,
        true,
        true,
    );
    assert_eq!(sel, vec![(k(1), 11), (k(3), 3), (k(4), 4)]);
    assert_eq!(extra, vec![(k(5), 5), (k(6), 6)]);
    let (sel, extra) = select_promotions_from_ranked(
        vec![(k(1), 1)], vec![], vec![], vec![(k(9), 9)], limits, true, false,
    );
    assert_eq!(sel, vec![(k(1), 1), (k(9), 9)]);
    assert!(extra.is_empty());
    let (sel, extra) = select_promotions_from_ranked(
        vec![(k(1), 1)], vec![], vec![], vec![(k(9), 9)], limits, false, true,
    );
    assert_eq!(sel, vec![(k(1), 1)]);
    assert!(extra.is_empty());
}

#[test]
fn seeds_per_objective_without_repeats() {
    let seeds = seed_profiles(
        vec![(k(1), 'a'), (k(1), 'b'), (k(2), 'c')],
        vec![(k(1), 'd')],
        vec![],
        vec![(k(3), 'e'), (k(4), 'f')],
        2,
    );
    assert_eq!(
        seeds,
        vec![
            (SeedObjective::Recommended, k(1), 'a'),
            (SeedObjective::Efficiency, k(1), 'd'),
            (SeedObjective::Frontier, k(3), 'e'),
            (SeedObjective::Frontier, k(4), 'f'),
        ]
    );
    assert_eq!(SeedObjective::Memory.name(), "memory");
}

#[test]
fn safety_pool_falls_back_to_everything() {
    assert_eq!(safety_pool(vec![(false, 1), (true, 2), (false, 3), (true, 4)], false), vec![2, 4]);
    assert_eq!(safety_pool(vec![(false, 1), (false, 3)], false), vec![1, 3]);
    assert_eq!(safety_pool(vec![(false, 1), (true, 2)], true), vec![1, 2]);
    assert!(safety_pool(Vec::<(bool, i32)>::new(), false).is_empty());
}

#[test]
fn safety_partition_screens_unsafe_and_unchecked() {
    let safe = SafetySummary { checks: 10, interval_flips: 0, hard_shortens: 0 };
    let flips = SafetySummary { checks: 10, interval_flips: 2, hard_shortens: 0 };
    let rows = vec![(k(1), safe), (k(2), flips), (k(3), flips), (k(3), safe)];
    let (ok, skipped) = partition_by_safety(vec![(k(1), 'a'), (k(2), 'b'), (k(3), 'c'), (k(4), 'd')], &rows);
    assert_eq!(ok, vec![(k(1), 'a'), (k(3), 'c')]);
    assert_eq!(skipped, vec![k(2), k(4)]);
    assert_eq!(lookup_safety(&rows, k(3)), Some(safe));
    assert_eq!(lookup_safety(&rows, k(9)), None);
}

fn bounds() -> Phase1Bounds {
    Phase1Bounds {
        flat_low: -8,
        flat_high: 8,
        s_high: 13,
        d_high: 10,
        init_flat_low: -8,
        init_flat_high: 8,
        init_s_high: 13,
        init_d_high: 10,
        flat_extra_limit: 3,
        s_extra_limit: 28,
        d_extra_limit: 22,
    }
}

#[test]
fn expand_grows_up_to_limits() {
    let mut b = bounds();
    let dirs = vec!["flat_low".to_string(), "s_high".to_string()];
    let changed = b.expand(&dirs, 2);
    assert_eq!(changed, vec![("flat_low".to_string(), 2), ("s_high".to_string(), 2)]);
    assert_eq!((b.flat_low, b.flat_high, b.s_high, b.d_high), (-10, 8, 15, 10));
    let changed = b.expand(&dirs, 2);
    assert_eq!(changed, vec![("flat_low".to_string(), 1), ("s_high".to_string(), 2)]);
    assert_eq!(b.flat_low, -11);
    let changed = b.expand(&["flat_low".to_string()], 2);
    assert!(changed.is_empty());
    assert_eq!(b.flat_low, -11);
}

#[test]
fn after_round_grows_while_rounds_remain() {
    let dirs = vec!["d_high".to_string()];
    let mut b = bounds();
    let (changed, more) = b.after_round(true, &dirs, 0, 2, 0);
    assert_eq!(changed, vec![("d_high".to_string(), 1)]);
    assert!(more);
    assert_eq!(b.d_high, 11);
    let (changed, more) = b.after_round(true, &dirs, 2, 2, 3);
    assert!(changed.is_empty());
    assert!(!more);
    assert_eq!(b.d_high, 11);
    let (changed, more) = b.after_round(false, &dirs, 0, 2, 3);
    assert!(changed.is_empty());
    assert!(!more);
    assert_eq!(b, {
        let mut expected = bounds();
        expected.d_high = 11;
        expected
    });
    let (changed, more) = b.after_round(true, &[], 0, 2, 3);
    assert!(changed.is_empty());
    assert!(!more);
}

#[test]
fn boundary_directions_sorted() {
    let b = bounds();
    let dirs = phase1_boundary_directions(&vec![(8, 0, 0), (0, 13, 10), (9, 0, 0)], &b);
    assert_eq!(dirs, vec!["d_high", "flat_high", "s_high"]);
    let dirs = phase1_boundary_directions(&vec![(-8, 1, 1)], &b);
    assert_eq!(dirs, vec!["flat_low"]);
    assert!(phase1_boundary_directions(&vec![(0, 1, 1)], &b).is_empty());
}

#[test]
fn push_unique_only_once() {
    let mut v = Vec::new();
    push_unique(&mut v, true, "flat_low");
    push_unique(&mut v, true, "flat_low");
    push_unique(&mut v, false, "s_high");
    assert_eq!(v, vec!["flat_low".to_string()]);
}

#[test]
fn labels_grouped_in_first_order() {
    let groups = group_labels(vec![
        (k(2), "Recommended".to_string()),
        (k(1), "Calm".to_string()),
        (k(2), "Aggressive".to_string()),
    ]);
    assert_eq!(
        groups,
        vec![
            (k(2), vec!["Recommended".to_string(), "Aggressive".to_string()]),
            (k(1), vec!["Calm".to_string()]),
        ]
    );
    assert!(group_labels(Vec::new()).is_empty());
}

#[test]
fn reference_points_are_labelled() {
    let labels = reference_labels(true, k(1), &vec![k(2), k(1), k(2)]);
    assert_eq!(
        labels,
        vec![
            (k(1), vec!["Original".to_string(), "Inspect 2".to_string()]),
            (k(2), vec!["Inspect 1".to_string(), "Inspect 3".to_string()]),
        ]
    );
    let labels = reference_labels(false, k(1), &vec![k(5)]);
    assert_eq!(labels, vec![(k(5), vec!["Inspect 1".to_string()])]);
}
