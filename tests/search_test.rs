use std::cmp::Ordering;

use eco_diet_maker::search::{pareto_frontier, rank_order, select_balanced, EvaluationResult, HillClimb};

/// Write a metric in millionths.
fn m(x: f64) -> i64 {
    (x * 1_000_000.0).round() as i64
}

fn result(sp: f64, eff: f64, variety: f64, balance: f64) -> EvaluationResult {
    EvaluationResult::new(m(sp), m(eff), m(variety), m(balance))
}

#[test]
fn test_cmp_score() {
    let better = result(100.0, 5.0, 3.0, 0.8);
    let worse = result(90.0, 6.0, 4.0, 0.9);
    assert_eq!(better.cmp_score(&worse), Ordering::Greater);
}

#[test]
fn test_cmp_score_balance_tiebreaker() {
    let higher_balance = result(100.0, 5.0, 8.0, 0.85);
    let lower_balance = result(100.0, 5.0, 8.0, 0.70);
    assert_eq!(higher_balance.cmp_score(&lower_balance), Ordering::Greater);
}

#[test]
fn cmp_score_equal_and_less() {
    let a = result(100.0, 5.0, 8.0, 0.85);
    assert_eq!(a.cmp_score(&a), Ordering::Equal);
    let b = result(100.0, 5.5, 1.0, 0.1);
    assert_eq!(a.cmp_score(&b), Ordering::Less);
}

#[test]
fn dominance_needs_one_strict_gain() {
    let a = result(100.0, 5.0, 8.0, 0.85);
    let b = result(100.0, 5.0, 8.0, 0.9);
    assert!(a.is_dominated_by(&b));
    assert!(!b.is_dominated_by(&a));
    assert!(!a.is_dominated_by(&a));
    let c = result(101.0, 4.0, 8.0, 0.85);
    assert!(!a.is_dominated_by(&c));
}

#[test]
fn test_pareto_frontier() {
    let results = vec![
        result(80.0, 3.0, 5.0, 0.5),
        result(100.0, 4.0, 8.0, 0.6),
        result(90.0, 3.5, 15.0, 0.7),
        result(95.0, 4.5, 12.0, 0.85),
    ];
    let frontier = pareto_frontier(&results);
    assert!(!frontier.contains(&0));
    assert!(frontier.contains(&1));
    assert!(frontier.contains(&2));
    assert!(frontier.contains(&3));
    assert_eq!(frontier.len(), 3);
}

#[test]
fn pareto_frontier_keeps_equal_results() {
    let a = result(1.0, 1.0, 1.0, 1.0);
    assert_eq!(pareto_frontier(&[a, a]), vec![0, 1]);
    assert!(pareto_frontier(&[]).is_empty());
}

#[test]
fn test_select_balanced() {
    let results = vec![
        result(100.0, 4.0, 5.0, 0.5),
        result(90.0, 4.5, 12.0, 0.8),
        result(75.0, 3.0, 20.0, 0.6),
    ];
    let indices = vec![0, 1, 2];
    assert_eq!(select_balanced(&results, &indices), Some(1));
}

#[test]
fn select_balanced_edge_cases() {
    let results = vec![result(1.0, 2.0, 3.0, 0.5), result(1.0, 2.0, 3.0, 0.5)];
    assert_eq!(select_balanced(&results, &[]), None);
    assert_eq!(select_balanced(&results, &[1]), Some(1));
    // All metrics equal: every result is at the ideal point; the first wins.
    assert_eq!(select_balanced(&results, &[1, 0]), Some(1));
}

#[test]
fn select_balanced_with_extreme_metrics() {
    let results = vec![
        EvaluationResult::new(i64::MIN, i64::MAX, 0, 0),
        EvaluationResult::new(i64::MAX, i64::MIN, 0, 0),
        EvaluationResult::new(0, 0, 0, 0),
    ];
    assert_eq!(select_balanced(&results, &[0, 1, 2]), Some(2));
}

#[test]
fn rank_order_sorts_best_first_and_keeps_ties_in_order() {
    let results = vec![
        result(90.0, 1.0, 1.0, 0.1),
        result(100.0, 1.0, 1.0, 0.1),
        result(90.0, 2.0, 1.0, 0.1),
        result(90.0, 1.0, 1.0, 0.1),
    ];
    assert_eq!(rank_order(&results), vec![1, 2, 0, 3]);
    assert_eq!(rank_order(&results), rank_order(&results));
    assert!(rank_order(&[]).is_empty());
}

#[test]
fn hill_climb_accepts_only_dominating_probes() {
    let start = result(10.0, 1.0, 1.0, 0.5);
    let mut climb = HillClimb::new(start, 20, 2, 2);
    assert_eq!(climb.next_probe(), Some((0, 0)));
    // Knobs unchanged: skipped, move to the next factor.
    assert!(!climb.report(None));
    assert_eq!(climb.next_probe(), Some((0, 1)));
    // A trade-off does not dominate.
    assert!(!climb.report(Some(result(11.0, 0.5, 1.0, 0.5))));
    assert_eq!(climb.next_probe(), Some((1, 0)));
    // A dominating result is taken and the pass moves to the next knob,
    // which ends the pass; an improved pass starts another.
    let better = result(12.0, 1.0, 1.0, 0.5);
    assert!(climb.report(Some(better)));
    assert_eq!(climb.best, better);
    assert_eq!(climb.iteration, 1);
    assert_eq!(climb.next_probe(), Some((0, 0)));
    // A pass with nothing accepted ends the climb.
    for _ in 0..4 {
        assert!(!climb.report(None));
    }
    assert_eq!(climb.next_probe(), None);
    assert!(climb.finished);
    assert_eq!(climb.best, better);
}

#[test]
fn hill_climb_stops_at_pass_cap() {
    let mut climb = HillClimb::new(result(0.0, 0.0, 0.0, 0.0), 2, 1, 1);
    assert!(climb.report(Some(result(1.0, 0.0, 0.0, 0.0))));
    assert!(!climb.finished);
    assert!(climb.report(Some(result(2.0, 0.0, 0.0, 0.0))));
    assert!(climb.finished);
    assert_eq!(climb.next_probe(), None);
    assert_eq!(climb.best, result(2.0, 0.0, 0.0, 0.0));
}

#[test]
fn hill_climb_with_no_work_is_finished() {
    assert!(HillClimb::new(result(0.0, 0.0, 0.0, 0.0), 0, 8, 4).finished);
    assert!(HillClimb::new(result(0.0, 0.0, 0.0, 0.0), 20, 0, 4).finished);
    assert!(HillClimb::new(result(0.0, 0.0, 0.0, 0.0), 20, 8, 0).finished);
}
