use stock_ranker::advisor::{InvestAdviceEntry, InvestAdvisor};
use stock_ranker::candidates::{ScoringFactor, StockCandidates, Ticker};
use stock_ranker::fixed::{Notional, Score};
use stock_ranker::render::ArithmeticRenderer;
use stock_ranker::report::ReportRenderer;

fn micros(x: f64) -> i128 {
    (x * 1_000_000.0).round() as i128
}

fn scores(rows: &[(&str, f64)]) -> Vec<(Ticker, Score)> {
    rows.iter()
        .map(|(name, x)| (Ticker::new(name), Score { micros: micros(*x) }))
        .collect()
}

fn advice(rows: &[(&str, &str)]) -> Vec<InvestAdviceEntry> {
    rows.iter()
        .map(|(t, r)| InvestAdviceEntry { ticker: t.to_string(), ratio: r.to_string() })
        .collect()
}

#[test]
fn render_float_zero() {
    assert_eq!("0", ArithmeticRenderer.render_float(micros(0.0)));
}

#[test]
fn render_float_no_rounding() {
    assert_eq!("0.1", ArithmeticRenderer.render_float(micros(0.1)));
}

#[test]
fn render_float_full_decimal_with_rounding() {
    assert_eq!("12.35", ArithmeticRenderer.render_float(micros(12.3456)));
}

#[test]
fn render_change() {
    assert_eq!("28.45%", ArithmeticRenderer.render_percentage(micros(0.284513)));
}

#[test]
fn render_float_edges() {
    assert_eq!("10", ArithmeticRenderer.render_float(micros(10.0)));
    assert_eq!("100", ArithmeticRenderer.render_float(micros(99.999)));
    assert_eq!("0.01", ArithmeticRenderer.render_float(micros(0.005)));
    assert_eq!("0", ArithmeticRenderer.render_float(micros(0.004999)));
    assert_eq!("-1.5", ArithmeticRenderer.render_float(micros(-1.5)));
    assert_eq!("-0", ArithmeticRenderer.render_float(micros(-0.001)));
    assert_eq!("1234567.89", ArithmeticRenderer.render_float(micros(1234567.891)));
}

#[test]
fn render_percentage_edges() {
    assert_eq!("100%", ArithmeticRenderer.render_percentage(micros(1.0)));
    assert_eq!("-5%", ArithmeticRenderer.render_percentage(micros(-0.05)));
    assert_eq!("0%", ArithmeticRenderer.render_percentage(0));
}

#[test]
fn advice_takes_top_scores() {
    let advisor = InvestAdvisor { arithmetic_renderer: ArithmeticRenderer };
    let s = scores(&[("A", 1.0), ("B", 3.0), ("C", 2.0)]);
    assert!(advisor.accepts(&s));
    let expected = advice(&[("B", "60%"), ("C", "40%")]);
    assert_eq!(expected, advisor.render_advice(&s, 2));
}

#[test]
fn advice_includes_all_when_top_n_exceeds_count() {
    let advisor = InvestAdvisor { arithmetic_renderer: ArithmeticRenderer };
    let s = scores(&[("A", 1.0), ("B", 1.0), ("C", 2.0)]);
    let expected = advice(&[("C", "50%"), ("A", "25%"), ("B", "25%")]);
    assert_eq!(expected, advisor.render_advice(&s, 10));
}

#[test]
fn advice_shares_sum_to_whole() {
    let advisor = InvestAdvisor { arithmetic_renderer: ArithmeticRenderer };
    let s = scores(&[("A", 1.0), ("B", 1.0), ("C", 1.0)]);
    let result = advisor.render_advice(&s, 3);
    let total: f64 = result
        .iter()
        .map(|e| e.ratio.trim_end_matches('%').parse::<f64>().unwrap())
        .sum();
    assert!((total - 100.0).abs() < 0.05);
    assert_eq!(advice(&[("A", "33.33%"), ("B", "33.33%"), ("C", "33.33%")]), result);
}

#[test]
fn advice_zero_total_gives_zero_shares() {
    let advisor = InvestAdvisor { arithmetic_renderer: ArithmeticRenderer };
    let s = scores(&[("A", 0.0), ("B", 0.0)]);
    assert_eq!(advice(&[("A", "0%"), ("B", "0%")]), advisor.render_advice(&s, 2));
}

#[test]
fn advice_empty() {
    let advisor = InvestAdvisor { arithmetic_renderer: ArithmeticRenderer };
    assert!(advisor.render_advice(&Vec::new(), 3).is_empty());
    assert!(advisor.render_advice(&scores(&[("A", 1.0)]), 0).is_empty());
}

#[test]
fn advisor_refuses_out_of_range_scores() {
    let advisor = InvestAdvisor { arithmetic_renderer: ArithmeticRenderer };
    let s = vec![(Ticker::new("A"), Score { micros: i128::MAX })];
    assert!(!advisor.accepts(&s));
}

fn two_candidates() -> StockCandidates {
    let mut store = StockCandidates::new();
    store.add_candidate(Ticker::new("A"), ScoringFactor::PeRatio, Notional { micros: 12_345_600 });
    store.add_candidate(Ticker::new("B"), ScoringFactor::DividendYield, Notional { micros: 31_000 });
    store
}

#[test]
fn entries_sorted_descendingly() {
    let service = ReportRenderer { arithmetic_renderer: ArithmeticRenderer };
    let candidates = two_candidates();
    let s = scores(&[("A", 1.0), ("B", 2.0)]);
    let expected_tickers = vec!["B".to_string(), "A".to_string()];
    let actual_tickers: Vec<String> = service
        .render(&candidates, &s)
        .into_iter()
        .map(|entry| entry.ticker)
        .collect();
    assert_eq!(expected_tickers, actual_tickers);
}

#[test]
fn entries_sorted_by_score_descendingly() {
    let service = ReportRenderer { arithmetic_renderer: ArithmeticRenderer };
    let mut candidates = StockCandidates::new();
    candidates.add_candidate(Ticker::new("A"), ScoringFactor::ShortTermChange, Notional { micros: 0 });
    candidates.add_candidate(Ticker::new("B"), ScoringFactor::ShortTermChange, Notional { micros: 0 });
    let s = scores(&[("A", 1.0), ("B", 2.0)]);
    let actual_tickers: Vec<String> = service
        .render(&candidates, &s)
        .into_iter()
        .map(|entry| entry.ticker)
        .collect();
    assert_eq!(vec!["B".to_string(), "A".to_string()], actual_tickers);
}

#[test]
fn report_renders_fields() {
    let service = ReportRenderer { arithmetic_renderer: ArithmeticRenderer };
    let candidates = two_candidates();
    let s = scores(&[("B", 0.25)]);
    let report = service.render(&candidates, &s);
    assert_eq!(2, report.len());
    assert_eq!("B", report[0].ticker);
    assert_eq!("25", report[0].score);
    assert_eq!("None", report[0].pe_ratio);
    assert_eq!("3.1%", report[0].dividend_yield);
    assert_eq!("None", report[0].short_term_change);
    assert_eq!("None", report[0].long_term_change);
    assert_eq!("A", report[1].ticker);
    assert_eq!("0", report[1].score);
    assert_eq!("12.35", report[1].pe_ratio);
    assert_eq!("None", report[1].dividend_yield);
}
