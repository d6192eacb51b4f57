use std::collections::HashMap;
use stock_ranker::aggregator::{combine, RankError, StockRanker};
use stock_ranker::candidates::{ScoringFactor, StockCandidates, Ticker};
use stock_ranker::fixed::{Notional, Score, Weight};
use stock_ranker::rankers::{
    FactorRanker, NegativeLeastWinningRanker, PositiveGreatestWinningRanker,
    PositiveLeastWinningRanker, RankerKind,
};

fn micros(x: f64) -> i64 {
    (x * 1_000_000.0).round() as i64
}

fn candidates(rows: &[(&str, ScoringFactor, f64)]) -> StockCandidates {
    let mut store = StockCandidates::new();
    for (name, factor, x) in rows {
        store.add_candidate(Ticker::new(name), *factor, Notional { micros: micros(*x) });
    }
    store
}

fn as_map(scores: Vec<(Ticker, Score)>) -> HashMap<String, i128> {
    scores
        .into_iter()
        .map(|(t, s)| (t.name, s.micros))
        .collect()
}

fn score_map(rows: &[(&str, f64)]) -> HashMap<String, i128> {
    rows.iter()
        .map(|(name, x)| (name.to_string(), micros(*x) as i128))
        .collect()
}

fn output(factor: ScoringFactor, rows: &[(&str, f64)]) -> (ScoringFactor, Vec<(Ticker, Score)>) {
    let scores = rows
        .iter()
        .map(|(name, x)| (Ticker::new(name), Score { micros: micros(*x) as i128 }))
        .collect();
    (factor, scores)
}

fn weight(x: f64) -> Weight {
    Weight { micros: micros(x) as i32 }
}

#[test]
fn negative_least_winning_ranker_rank_correct_candidates() {
    let f = ScoringFactor::PriceEma20Change;
    let stock_candidates = candidates(&[("A", f, -1.0), ("B", f, -2.0), ("C", f, 1.0), ("D", f, 0.0)]);
    let ranker = NegativeLeastWinningRanker::new(f);
    // The normalizer is fed {A: 1, B: 2}.
    let expected: HashMap<String, i128> = [("A".to_string(), 333_333), ("B".to_string(), 666_666)].into();
    assert_eq!(expected, as_map(ranker.rank(&stock_candidates)));
}

#[test]
fn negative_least_winning_ranker_rank_no_candidate() {
    let ranker = NegativeLeastWinningRanker::new(ScoringFactor::ShortTermChange);
    assert!(ranker.rank(&StockCandidates::new()).is_empty());
}

#[test]
fn positive_greatest_winning_ranker_rank_correct_candidates() {
    let stock_candidates = candidates(&[
        ("A", ScoringFactor::DividendYield, 1.0),
        ("B", ScoringFactor::PeRatio, 1.0),
        ("C", ScoringFactor::DividendYield, -1.0),
        ("D", ScoringFactor::PeRatio, 0.0),
    ]);
    let ranker = PositiveGreatestWinningRanker::new(ScoringFactor::DividendYield);
    // The normalizer is fed {A: 1} only.
    assert_eq!(score_map(&[("A", 1.0)]), as_map(ranker.rank(&stock_candidates)));
}

#[test]
fn positive_greatest_winning_ranker_keeps_positive_values() {
    let f = ScoringFactor::DividendYield;
    let stock_candidates = candidates(&[("A", f, 1.0), ("B", f, 2.0), ("C", f, -1.0), ("D", f, 0.0)]);
    let ranker = PositiveGreatestWinningRanker::new(f);
    // The normalizer is fed {A: 1, B: 2}.
    let expected: HashMap<String, i128> = [("A".to_string(), 333_333), ("B".to_string(), 666_666)].into();
    assert_eq!(expected, as_map(ranker.rank(&stock_candidates)));
}

#[test]
fn negative_least_winning_ranker_rank_correct_candidates_of_one_factor() {
    let stock_candidates = candidates(&[
        ("A", ScoringFactor::PriceEma20Change, -1.0),
        ("B", ScoringFactor::PriceEma200Change, -1.0),
        ("C", ScoringFactor::PriceEma20Change, 1.0),
        ("D", ScoringFactor::PriceEma20Change, 0.0),
    ]);
    let ranker = NegativeLeastWinningRanker::new(ScoringFactor::PriceEma20Change);
    // The normalizer is fed {A: 1} only.
    assert_eq!(score_map(&[("A", 1.0)]), as_map(ranker.rank(&stock_candidates)));
}

#[test]
fn positive_greatest_winning_ranker_rank_no_candidate() {
    let ranker = PositiveGreatestWinningRanker::new(ScoringFactor::DividendYield);
    assert!(ranker.rank(&StockCandidates::new()).is_empty());
}

#[test]
fn pe_ratio_ranker_rank_correct_candidates() {
    let stock_candidates = candidates(&[
        ("A", ScoringFactor::PeRatio, 1.0),
        ("B", ScoringFactor::ShortTermChange, 1.0),
        ("C", ScoringFactor::PeRatio, -1.0),
        ("D", ScoringFactor::PeRatio, 0.0),
    ]);
    let ranker = PositiveLeastWinningRanker::new(ScoringFactor::PeRatio);
    // The normalizer is fed {A: 1} only.
    assert_eq!(score_map(&[("A", 1.0)]), as_map(ranker.rank(&stock_candidates)));
}

#[test]
fn pe_ratio_ranker_rank_no_candidate() {
    let ranker = PositiveLeastWinningRanker::new(ScoringFactor::PeRatio);
    assert!(ranker.rank(&StockCandidates::new()).is_empty());
}

#[test]
fn least_positive_wins_prefers_small_values() {
    let f = ScoringFactor::PeRatio;
    let stock_candidates = candidates(&[("A", f, 10.0), ("B", f, 30.0)]);
    let ranker = PositiveLeastWinningRanker::new(f);
    assert_eq!(score_map(&[("A", 0.75), ("B", 0.25)]), as_map(ranker.rank(&stock_candidates)));
}

#[test]
fn sign_filtering_greatest_positive() {
    let f = ScoringFactor::LongTermChange;
    let stock_candidates = candidates(&[("A", f, -1.0), ("B", f, 0.0), ("C", f, 1.0)]);
    let ranker = FactorRanker::of_kind(RankerKind::GreatestPositiveWins, f);
    assert_eq!(score_map(&[("C", 1.0)]), as_map(ranker.rank(&stock_candidates)));
}

#[test]
fn sign_filtering_deepest_negative() {
    let f = ScoringFactor::LongTermChange;
    let stock_candidates = candidates(&[("A", f, -1.0), ("B", f, 0.0), ("C", f, 1.0)]);
    let ranker = FactorRanker::of_kind(RankerKind::DeepestNegativeWins, f);
    assert_eq!(score_map(&[("A", 1.0)]), as_map(ranker.rank(&stock_candidates)));
}

#[test]
fn rankers_skip_tickers_without_the_factor() {
    let stock_candidates = candidates(&[
        ("A", ScoringFactor::DividendYield, 0.02),
        ("B", ScoringFactor::PeRatio, 12.0),
    ]);
    let ranker = FactorRanker::of_kind(RankerKind::GreatestPositiveWins, ScoringFactor::DividendYield);
    assert_eq!(score_map(&[("A", 1.0)]), as_map(ranker.rank(&stock_candidates)));
    assert_eq!(ScoringFactor::DividendYield, ranker.get_factor());
}

#[test]
fn mod_sum_scores() {
    let outputs = vec![
        output(ScoringFactor::DividendYield, &[("A", 100.0), ("B", 200.0)]),
        output(ScoringFactor::ShortTermChange, &[("A", 300.0)]),
    ];
    let weights = vec![
        (ScoringFactor::DividendYield, weight(0.1)),
        (ScoringFactor::ShortTermChange, weight(0.2)),
    ];
    let expected_scores = score_map(&[("A", 70.0), ("B", 20.0)]);
    let actual_scores = as_map(combine(&outputs, &weights).unwrap());
    assert_eq!(expected_scores, actual_scores);
}

#[test]
fn ranker_sum_scores() {
    let outputs = vec![
        output(ScoringFactor::LongTermChange, &[("A", 0.1), ("B", 0.2)]),
        output(ScoringFactor::PeRatio, &[("A", 0.3)]),
    ];
    let weights = vec![
        (ScoringFactor::LongTermChange, weight(1.0)),
        (ScoringFactor::PeRatio, weight(1.0)),
    ];
    let expected_scores = score_map(&[("A", 0.4), ("B", 0.2)]);
    assert_eq!(expected_scores, as_map(combine(&outputs, &weights).unwrap()));
}

#[test]
fn stock_ranker_sum_scores() {
    let outputs = vec![
        output(ScoringFactor::DividendYield, &[("A", 0.1), ("B", 0.2)]),
        output(ScoringFactor::PriceEma20Change, &[("A", 0.3)]),
    ];
    let weights = vec![
        (ScoringFactor::DividendYield, weight(1.0)),
        (ScoringFactor::PriceEma20Change, weight(1.0)),
    ];
    let expected_scores = score_map(&[("A", 0.4), ("B", 0.2)]);
    assert_eq!(expected_scores, as_map(combine(&outputs, &weights).unwrap()));
}

#[test]
fn combine_missing_weight_fails() {
    let outputs = vec![
        output(ScoringFactor::DividendYield, &[("A", 1.0)]),
        output(ScoringFactor::PeRatio, &[("A", 1.0)]),
    ];
    let weights = vec![(ScoringFactor::DividendYield, weight(1.0))];
    assert_eq!(Err(RankError::MissingWeight(ScoringFactor::PeRatio)), combine(&outputs, &weights));
}

#[test]
fn stock_ranker_missing_weight_fails() {
    let ranker = StockRanker::new(
        vec![
            FactorRanker::of_kind(RankerKind::GreatestPositiveWins, ScoringFactor::DividendYield),
            FactorRanker::of_kind(RankerKind::DeepestNegativeWins, ScoringFactor::ShortTermChange),
        ],
        vec![(ScoringFactor::DividendYield, weight(1.0))],
    );
    let store = candidates(&[("A", ScoringFactor::DividendYield, 0.01)]);
    assert_eq!(
        Err(RankError::MissingWeight(ScoringFactor::ShortTermChange)),
        ranker.rank(&store)
    );
}

#[test]
fn stock_ranker_weighted_run() {
    let ranker = StockRanker::new(
        vec![
            FactorRanker::of_kind(RankerKind::GreatestPositiveWins, ScoringFactor::DividendYield),
            FactorRanker::of_kind(RankerKind::DeepestNegativeWins, ScoringFactor::ShortTermChange),
        ],
        vec![
            (ScoringFactor::DividendYield, weight(1.0)),
            (ScoringFactor::ShortTermChange, weight(2.0)),
        ],
    );
    let store = candidates(&[
        ("A", ScoringFactor::DividendYield, 0.01),
        ("B", ScoringFactor::DividendYield, 0.03),
        ("A", ScoringFactor::ShortTermChange, -0.1),
        ("B", ScoringFactor::ShortTermChange, 0.2),
    ]);
    // A: 0.25 * 1 + 1.0 * 2, B: 0.75 * 1.
    let expected = score_map(&[("A", 2.25), ("B", 0.75)]);
    assert_eq!(expected, as_map(ranker.rank(&store).unwrap()));
}

#[test]
fn default_stock_ranker_runs() {
    let store = candidates(&[
        ("A", ScoringFactor::DividendYield, 0.02),
        ("A", ScoringFactor::LongTermChange, 0.3),
        ("B", ScoringFactor::ShortTermChange, -0.05),
        ("B", ScoringFactor::LongTermChange, 0.1),
    ]);
    // A: 1.0 * 1 + 0.75 * 5, B: 1.0 * 4 + 0.25 * 5.
    let expected = score_map(&[("A", 4.75), ("B", 5.25)]);
    assert_eq!(expected, as_map(StockRanker::default().rank(&store).unwrap()));
}

#[test]
fn from_overrides_later_wins() {
    let overrides = vec![
        ("A".to_string(), vec![(ScoringFactor::PeRatio, Notional { micros: 1 })]),
        (
            "B".to_string(),
            vec![
                (ScoringFactor::PeRatio, Notional { micros: 2 }),
                (ScoringFactor::DividendYield, Notional { micros: 3 }),
            ],
        ),
        ("A".to_string(), vec![(ScoringFactor::PeRatio, Notional { micros: 4 })]),
    ];
    let store = StockCandidates::from_overrides(&overrides);
    assert_eq!(2, store.entries.len());
    assert_eq!("A", store.entries[0].ticker.name);
    assert_eq!(vec![(ScoringFactor::PeRatio, Notional { micros: 4 })], store.entries[0].factors);
    assert_eq!("B", store.entries[1].ticker.name);
    assert_eq!(2, store.entries[1].factors.len());
}

#[test]
fn add_candidate_overwrites() {
    let mut store = StockCandidates::new();
    store.add_candidate(Ticker::new("A"), ScoringFactor::PeRatio, Notional { micros: 1 });
    store.add_candidate(Ticker::new("A"), ScoringFactor::DividendYield, Notional { micros: 2 });
    store.add_candidate(Ticker::new("A"), ScoringFactor::PeRatio, Notional { micros: 3 });
    store.add_candidate(Ticker::new("B"), ScoringFactor::PeRatio, Notional { micros: 4 });
    assert_eq!(2, store.entries.len());
    assert_eq!("A", store.entries[0].ticker.name);
    assert_eq!(
        vec![
            (ScoringFactor::PeRatio, Notional { micros: 3 }),
            (ScoringFactor::DividendYield, Notional { micros: 2 }),
        ],
        store.entries[0].factors
    );
    assert_eq!(vec![(ScoringFactor::PeRatio, Notional { micros: 4 })], store.entries[1].factors);
}

#[test]
fn stores_hold_no_empty_entries() {
    let overrides = vec![
        ("A".to_string(), Vec::new()),
        ("B".to_string(), vec![(ScoringFactor::PeRatio, Notional { micros: 2 })]),
    ];
    let store = StockCandidates::from_overrides(&overrides);
    assert_eq!(1, store.entries.len());
    assert_eq!("B", store.entries[0].ticker.name);
}

#[test]
fn negative_weight_lowers_scores() {
    let outputs = vec![
        output(ScoringFactor::DividendYield, &[("A", 0.5), ("B", 0.5)]),
        output(ScoringFactor::PeRatio, &[("A", 0.25)]),
    ];
    let weights = vec![
        (ScoringFactor::DividendYield, weight(2.0)),
        (ScoringFactor::PeRatio, weight(-1.0)),
    ];
    let expected_scores = score_map(&[("A", 0.75), ("B", 1.0)]);
    assert_eq!(expected_scores, as_map(combine(&outputs, &weights).unwrap()));
}
