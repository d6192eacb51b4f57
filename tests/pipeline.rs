use stock_ranker::aggregator::{RankError, StockRanker};
use stock_ranker::candidates::{ScoringFactor, Ticker};
use stock_ranker::fixed::{Notional, Weight};
use stock_ranker::pipeline::{
    rank, MarketSnapshot, PortfolioPosition, ScoringCandidateExtractor, ScoringFactorExtractor,
    StockData, StockMetric,
};
use stock_ranker::pipeline::{
    cache_outdated, held_stock_positions, portfolio_has_more_pages, positions_without_overrides,
    DAY_MILLIS,
};
use stock_ranker::rankers::{FactorRanker, RankerKind};

fn position(conid: i64, ticker: &str, class: &str, amount: i64) -> PortfolioPosition {
    PortfolioPosition {
        conid,
        ticker: ticker.to_string(),
        asset_class: class.to_string(),
        position: Notional { micros: amount * 1_000_000 },
    }
}

fn metric(ticker: &str, one_month: f64, long_term: f64) -> StockMetric {
    StockMetric {
        ticker: ticker.to_string(),
        one_month_price_change: Notional { micros: (one_month * 1_000_000.0).round() as i64 },
        long_term_total_return: Notional { micros: (long_term * 1_000_000.0).round() as i64 },
    }
}

#[test]
fn rank_without_metrics_gives_nothing() {
    assert!(rank(&StockRanker::default(), &Vec::new()).unwrap().is_none());
}

#[test]
fn rank_reports_and_advises() {
    let metrics = vec![metric("A", -0.1, 0.2), metric("B", 0.05, 0.6)];
    let output = rank(&StockRanker::default(), &metrics).unwrap().unwrap();
    // A: 1.0 * 4 + 0.25 * 5 = 5.25, B: 0.75 * 5 = 3.75.
    assert_eq!(2, output.report.len());
    assert_eq!("A", output.report[0].ticker);
    assert_eq!("525", output.report[0].score);
    assert_eq!("None", output.report[0].pe_ratio);
    assert_eq!("None", output.report[0].dividend_yield);
    assert_eq!("-10%", output.report[0].short_term_change);
    assert_eq!("20%", output.report[0].long_term_change);
    assert_eq!("B", output.report[1].ticker);
    assert_eq!("375", output.report[1].score);
    assert_eq!(1, output.advice.len());
    assert_eq!("A", output.advice[0].ticker);
    assert_eq!("100%", output.advice[0].ratio);
}

#[test]
fn rank_with_missing_weight_fails() {
    let ranker = StockRanker::new(
        vec![FactorRanker::of_kind(RankerKind::GreatestPositiveWins, ScoringFactor::LongTermChange)],
        vec![(ScoringFactor::DividendYield, Weight { micros: 1_000_000 })],
    );
    let metrics = vec![metric("A", 0.1, 0.2)];
    assert_eq!(
        RankError::MissingWeight(ScoringFactor::LongTermChange),
        rank(&ranker, &metrics).unwrap_err()
    );
}

#[test]
fn extraction_keeps_last_metric_per_ticker() {
    let metrics = vec![metric("A", 0.1, 0.2), metric("A", 0.3, 0.4)];
    let store = ScoringCandidateExtractor.extract_scoring_candidates(&metrics);
    assert_eq!(1, store.entries.len());
    assert_eq!(Ticker::new("A"), store.entries[0].ticker);
    assert_eq!(
        vec![
            (ScoringFactor::ShortTermChange, Notional { micros: 300_000 }),
            (ScoringFactor::LongTermChange, Notional { micros: 400_000 }),
        ],
        store.entries[0].factors
    );
}

#[test]
fn extract_scoring_factors_merges_overrides_and_snapshots() {
    let overrides = vec![(
        "OVR".to_string(),
        vec![(ScoringFactor::DividendYield, Notional { micros: 50_000 })],
    )];
    let data = StockData {
        portfolio: vec![
            position(1, "A", "STK", 10),
            position(2, "B", "STK", 5),
        ],
        market_snapshot: vec![MarketSnapshot {
            conid: 1,
            pe_ratio: Some(Notional { micros: 12_000_000 }),
            dividend_yield: None,
            pema_20: Some(Notional { micros: -10_000 }),
            pema_200: None,
        }],
    };
    let store = ScoringFactorExtractor::new(overrides).extract_scoring_factors(&data);
    assert_eq!(2, store.entries.len());
    assert_eq!("OVR", store.entries[0].ticker.name);
    assert_eq!("A", store.entries[1].ticker.name);
    assert_eq!(
        vec![
            (ScoringFactor::PeRatio, Notional { micros: 12_000_000 }),
            (ScoringFactor::PriceEma20Change, Notional { micros: -10_000 }),
        ],
        store.entries[1].factors
    );
}

#[test]
fn portfolio_pages_go_on_while_full() {
    assert!(portfolio_has_more_pages(30));
    assert!(portfolio_has_more_pages(31));
    assert!(!portfolio_has_more_pages(29));
    assert!(!portfolio_has_more_pages(0));
}

#[test]
fn held_stock_positions_drop_other_classes_and_sold() {
    let positions = vec![
        position(1, "A", "STK", 10),
        position(2, "EUR", "CASH", 10),
        position(3, "SOLD", "STK", 0),
        position(4, "B", "STK", -3),
    ];
    let tickers: Vec<String> = held_stock_positions(&positions)
        .into_iter()
        .map(|p| p.ticker)
        .collect();
    assert_eq!(vec!["A".to_string(), "B".to_string()], tickers);
}

#[test]
fn positions_without_overrides_drop_overridden() {
    let positions = vec![position(1, "A", "STK", 1), position(2, "B", "STK", 1)];
    let overrides = vec![("A".to_string(), vec![(ScoringFactor::PeRatio, Notional { micros: 1 })])];
    let tickers: Vec<String> = positions_without_overrides(&positions, &overrides)
        .into_iter()
        .map(|p| p.ticker)
        .collect();
    assert_eq!(vec!["B".to_string()], tickers);
}

#[test]
fn cache_outdated_after_a_day() {
    assert!(!cache_outdated(0, DAY_MILLIS - 1));
    assert!(cache_outdated(0, DAY_MILLIS));
    assert!(!cache_outdated(DAY_MILLIS, 0));
    assert!(cache_outdated(i64::MIN, i64::MAX));
}
