use std::collections::HashMap;
use stock_ranker::candidates::Ticker;
use stock_ranker::fixed::{Notional, Score};
use stock_ranker::normalizer::NotionalRanker;

fn micros(x: f64) -> i64 {
    (x * 1_000_000.0).round() as i64
}

fn notionals(rows: &[(&str, f64)]) -> Vec<(Ticker, Notional)> {
    rows.iter()
        .map(|(name, x)| (Ticker::new(name), Notional { micros: micros(*x) }))
        .collect()
}

fn score_map(rows: &[(&str, f64)]) -> HashMap<String, i128> {
    rows.iter()
        .map(|(name, x)| (name.to_string(), micros(*x) as i128))
        .collect()
}

fn as_map(scores: Vec<(Ticker, Score)>) -> HashMap<String, i128> {
    scores
        .into_iter()
        .map(|(t, s)| (t.name, s.micros))
        .collect()
}

#[test]
fn notional_ranker_rank() {
    let candidates = notionals(&[("A", 1.0), ("B", 2.0), ("C", 3.0), ("D", 4.0)]);
    let expected_scores = score_map(&[("A", 0.1), ("B", 0.2), ("C", 0.3), ("D", 0.4)]);
    let actual_scores = as_map(NotionalRanker.rank(&candidates));
    assert_eq!(expected_scores, actual_scores);
}

#[test]
fn notional_ranker_rank_reversed() {
    let candidates = notionals(&[("A", 1.0), ("B", 2.0), ("C", 3.0), ("D", 4.0)]);
    let expected_scores = score_map(&[("A", 0.4), ("B", 0.3), ("C", 0.2), ("D", 0.1)]);
    let actual_scores = as_map(NotionalRanker.rank_reversed(&candidates));
    assert_eq!(expected_scores, actual_scores);
}

#[test]
fn notional_ranker_rank_empty() {
    let candidates: Vec<(Ticker, Notional)> = Vec::new();
    assert!(NotionalRanker.rank(&candidates).is_empty());
}

#[test]
fn rank_reversed_empty() {
    let candidates: Vec<(Ticker, Notional)> = Vec::new();
    assert!(NotionalRanker.rank_reversed(&candidates).is_empty());
}

#[test]
fn rank_keeps_input_order() {
    let candidates = notionals(&[("D", 4.0), ("A", 1.0)]);
    let scores = NotionalRanker.rank(&candidates);
    let names: Vec<String> = scores.iter().map(|(t, _)| t.name.clone()).collect();
    assert_eq!(vec!["D".to_string(), "A".to_string()], names);
    assert_eq!(800_000, scores[0].1.micros);
    assert_eq!(200_000, scores[1].1.micros);
}

#[test]
fn rank_zero_sum_gives_zero_scores() {
    let candidates = notionals(&[("A", 1.0), ("B", -1.0)]);
    let expected_scores = score_map(&[("A", 0.0), ("B", 0.0)]);
    assert_eq!(expected_scores, as_map(NotionalRanker.rank(&candidates)));
}

#[test]
fn rank_rounds_toward_zero() {
    let candidates = notionals(&[("A", 1.0), ("B", 2.0)]);
    let expected_scores: HashMap<String, i128> =
        [("A".to_string(), 333_333), ("B".to_string(), 666_666)].into();
    assert_eq!(expected_scores, as_map(NotionalRanker.rank(&candidates)));
}

#[test]
fn rank_shares_sum_to_one_within_rounding() {
    let candidates = notionals(&[("A", 1.0), ("B", 1.0), ("C", 1.0)]);
    let total: i128 = NotionalRanker
        .rank(&candidates)
        .iter()
        .map(|(_, s)| s.micros)
        .sum();
    assert!(total <= 1_000_000 && total > 1_000_000 - 3);
    assert_eq!(999_999, total);
}

#[test]
fn rank_negative_sum() {
    let candidates = notionals(&[("A", -1.0), ("B", -3.0)]);
    let expected_scores = score_map(&[("A", 0.25), ("B", 0.75)]);
    assert_eq!(expected_scores, as_map(NotionalRanker.rank(&candidates)));
}

#[test]
fn rank_reversed_breaks_ties_by_name() {
    // Ascending order is B(1), C(1), A(5); the values descending are 5, 1, 1.
    let candidates = notionals(&[("A", 5.0), ("C", 1.0), ("B", 1.0)]);
    let expected: HashMap<String, i128> = [
        ("B".to_string(), 714_285),
        ("C".to_string(), 142_857),
        ("A".to_string(), 142_857),
    ]
    .into();
    assert_eq!(expected, as_map(NotionalRanker.rank_reversed(&candidates)));
}

#[test]
fn rank_reversed_keeps_value_multiset() {
    let candidates = notionals(&[("A", 1.0), ("B", 2.0), ("C", 7.0)]);
    let mut direct: Vec<i128> = NotionalRanker
        .rank(&candidates)
        .iter()
        .map(|(_, s)| s.micros)
        .collect();
    let mut reversed: Vec<i128> = NotionalRanker
        .rank_reversed(&candidates)
        .iter()
        .map(|(_, s)| s.micros)
        .collect();
    direct.sort();
    reversed.sort();
    assert_eq!(direct, reversed);
}
