use adr_optimizer::ranking::{
    choose_labelled_points, climb_step, key_less, pareto_frontier_indices, pick_best, pick_recommended,
    ranked_frontier, ranked_list, sort_by_key, strict_order_key, total_order_key, ChosenPoints, FrontierKeys, LabelFacts, RankFacts,
    RankList,
};

fn fk(x: i64, y: i64) -> FrontierKeys {
    FrontierKeys { x, y, y_strict: y, y_comparable: true }
}

#[test]
fn keys_compare_lexicographically() {
    assert!(key_less(&vec![1, 2], &vec![1, 3]));
    assert!(!key_less(&vec![1, 3], &vec![1, 3]));
    assert!(key_less(&vec![1], &vec![1, 0]));
    assert!(!key_less(&vec![2], &vec![1, 9]));
}

#[test]
fn sort_is_stable_both_ways() {
    let items = vec![(vec![2], 'a'), (vec![1], 'b'), (vec![2], 'c'), (vec![3], 'd')];
    let desc: Vec<char> = sort_by_key(items.clone(), true).into_iter().map(|e| e.1).collect();
    assert_eq!(desc, vec!['d', 'a', 'c', 'b']);
    let asc: Vec<char> = sort_by_key(items, false).into_iter().map(|e| e.1).collect();
    assert_eq!(asc, vec!['b', 'a', 'c', 'd']);
}

#[test]
fn frontier_keeps_undominated_points() {
    // (x, y): 0:(1,5) 1:(2,4) 2:(3,1) 3:(2,2) 4:(0,6) 5:(1,1)
    let pts = vec![fk(1, 5), fk(2, 4), fk(3, 1), fk(2, 2), fk(0, 6), fk(1, 1)];
    assert_eq!(pareto_frontier_indices(&pts, i64::MIN), vec![4, 0, 1, 2]);
    assert!(pareto_frontier_indices(&Vec::new(), i64::MIN).is_empty());
}

#[test]
fn frontier_trades_cards_for_speed() {
    // Ties on memorized cards: only the better of 1:(4,2) and 2:(4,7) can be kept.
    let pts = vec![fk(1, 9), fk(4, 2), fk(4, 7), fk(2, 8), fk(3, 3), fk(5, 1), fk(0, 9)];
    let front = pareto_frontier_indices(&pts, i64::MIN);
    assert_eq!(front, vec![0, 3, 2, 5]);
    for w in front.windows(2) {
        assert!(pts[w[0]].x < pts[w[1]].x);
        assert!(pts[w[0]].y_strict > pts[w[1]].y_strict);
    }
    for p in &pts {
        assert!(front.iter().any(|&f| p.x <= pts[f].x && p.y_strict <= pts[f].y_strict));
    }
    for &f in &front {
        let q = pts[f];
        assert!(!pts.iter().any(|p| {
            p.x >= q.x && p.y_strict >= q.y_strict && (p.x > q.x || p.y_strict > q.y_strict)
        }));
    }
}

#[test]
fn frontier_skips_incomparable_values() {
    let mut pts = vec![fk(1, 5), fk(2, 4)];
    pts[1].y_comparable = false;
    assert_eq!(pareto_frontier_indices(&pts, i64::MIN), vec![0]);
    assert!(pareto_frontier_indices(&vec![fk(1, 5)], 5).is_empty());
}

fn facts(northeast: bool, in_x: bool, eq: i64, eff: i64, x: i64, y: i64) -> RankFacts {
    RankFacts {
        northeast,
        in_x_band: in_x,
        in_y_band: false,
        equivalence_key: vec![eq],
        efficiency_key: vec![eff],
        memory_key: vec![-eq],
        frontier: fk(x, y),
    }
}

#[test]
fn ranked_lists_filter_then_sort() {
    let pool = vec![
        facts(true, false, 1, 5, 1, 1),
        facts(false, true, 9, 7, 2, 3),
        facts(true, true, 3, 6, 3, 2),
    ];
    assert_eq!(ranked_list(&pool, RankList::Recommended), vec![2, 0]);
    assert_eq!(ranked_list(&pool, RankList::Efficiency), vec![1, 2]);
    // nobody in the y band: the whole pool, by memory key
    assert_eq!(ranked_list(&pool, RankList::Memory), vec![0, 2, 1]);
    assert_eq!(ranked_frontier(&pool, i64::MIN), vec![1, 2]);
}

#[test]
fn pick_best_breaks_ties_like_iterators() {
    let entries = vec![(vec![1], 10), (vec![3], 11), (vec![3], 12), (vec![0], 13), (vec![0], 14)];
    assert_eq!(pick_best(&entries, true), Some(12));
    assert_eq!(pick_best(&entries, false), Some(13));
    assert_eq!(pick_best(&Vec::new(), true), None);
    let xs = [(1, 'a'), (3, 'b'), (3, 'c'), (0, 'd'), (0, 'e')];
    assert_eq!(xs.iter().max_by(|a, b| a.0.cmp(&b.0)).unwrap().1, 'c');
    assert_eq!(xs.iter().min_by(|a, b| a.0.cmp(&b.0)).unwrap().1, 'd');
}

#[test]
fn climb_moves_only_to_a_better_neighbour() {
    let entries = vec![(vec![2, 1], 0), (vec![2, 5], 1), (vec![2, 5], 2), (vec![1, 9], 3)];
    assert_eq!(climb_step(&entries, &vec![2, 4]), Some(2));
    assert_eq!(climb_step(&entries, &vec![2, 5]), None);
    assert_eq!(climb_step(&entries, &vec![3]), None);
    assert_eq!(climb_step(&Vec::new(), &vec![0]), None);
}

fn labelled(rank: RankFacts, within_regret: bool, spread: i64, ms: i64) -> LabelFacts {
    LabelFacts {
        rank,
        within_regret,
        aggressive_key: vec![spread],
        calm_key: vec![spread],
        max_spread_key: vec![ms],
    }
}

#[test]
fn labelled_points_follow_their_pools() {
    // 0 and 2 lie northeast; 2 has the larger equivalence key; only 0 is within regret.
    let pool = vec![
        labelled(facts(true, false, 1, 5, 1, 1), true, 4, 0),
        labelled(facts(false, true, 9, 7, 2, 3), false, 8, 9),
        labelled(facts(true, true, 3, 6, 3, 2), false, 2, 1),
    ];
    assert_eq!(pick_recommended(&pool), Some(2));
    assert_eq!(
        choose_labelled_points(&pool),
        ChosenPoints {
            recommended: Some(2),
            aggressive: Some(0),
            calm: Some(0),
            efficiency: Some(1),
            memory: Some(0),
            max_spread: Some(1),
        }
    );
    // Nobody within regret: Aggressive and Calm fall back to the recommended point.
    let pool = vec![
        labelled(facts(true, false, 1, 5, 1, 1), false, 4, 0),
        labelled(facts(true, false, 1, 5, 2, 2), false, 9, 0),
    ];
    let chosen = choose_labelled_points(&pool);
    assert_eq!(chosen.recommended, Some(1));
    assert_eq!((chosen.aggressive, chosen.calm), (Some(1), Some(1)));
    assert_eq!(chosen.max_spread, Some(1));
    // Nothing northeast: no Recommended, Aggressive or Calm.
    let pool = vec![labelled(facts(false, false, 1, 5, 1, 1), true, 4, 0)];
    let chosen = choose_labelled_points(&pool);
    assert_eq!((chosen.recommended, chosen.aggressive, chosen.calm), (None, None, None));
    assert_eq!((chosen.efficiency, chosen.memory, chosen.max_spread), (Some(0), Some(0), Some(0)));
    assert_eq!(choose_labelled_points(&Vec::new()).max_spread, None);
}

#[test]
fn bit_keys_order_as_the_numbers_do() {
    let xs = [
        f64::NEG_INFINITY, -1.5e300, -2.0, -1.0, -5e-324, -0.0, 0.0, 5e-324, 0.25, 1.0, 3.0, 1e300,
        f64::INFINITY, f64::NAN, -f64::NAN,
    ];
    for a in xs {
        for b in xs {
            let (ka, kb) = (total_order_key(a.to_bits()), total_order_key(b.to_bits()));
            assert_eq!(ka.cmp(&kb), a.total_cmp(&b));
            if !a.is_nan() && !b.is_nan() {
                let (sa, sb) = (strict_order_key(a.to_bits()), strict_order_key(b.to_bits()));
                assert_eq!(Some(sa.cmp(&sb)), a.partial_cmp(&b));
            }
        }
    }
    assert_eq!(total_order_key(0.0f64.to_bits()), 0);
    assert_eq!(total_order_key((-0.0f64).to_bits()), -1);
    assert_eq!(strict_order_key((-0.0f64).to_bits()), 0);
    assert_eq!(total_order_key(1.0f64.to_bits()), 0x3FF0_0000_0000_0000);
}
