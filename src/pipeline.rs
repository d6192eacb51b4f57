//! The whole run: from per-stock metrics to a report and advice.
use vstd::prelude::*;
use crate::advisor::{advice_in_range, advice_of, advice_view, InvestAdviceEntry, InvestAdvisor};
use crate::aggregator::{aggregated, all_weighted, first_missing, ranker_factors, RankError, StockRanker};
use crate::candidates::{
    has_ticker, lemma_tickers_are_valued, override_value, valued, value_in, ScoringFactor,
    StockCandidates, Ticker,
};
use crate::fixed::Notional;
use crate::normalizer::score_view;
use crate::render::ArithmeticRenderer;
use crate::report::{report_in_range, report_of, ReportEntry, ReportRenderer};

verus! {

/// The measurements of one stock as a caller supplies them.
#[derive(Debug, Clone)]
pub struct StockMetric {
    pub ticker: String,
    pub one_month_price_change: Notional,
    pub long_term_total_return: Notional,
}

/// The value of `factor` for `ticker` in `metrics` (the last metric of the
/// ticker): the one-month change is the short-term change, the total return
/// the long-term change.
pub open spec fn metric_value(metrics: Seq<StockMetric>, ticker: Seq<char>, factor: ScoringFactor) -> Option<
    int,
>
    decreases metrics.len(),
{
    if metrics.len() == 0 {
        None
    } else if metrics.last().ticker@ == ticker && factor == ScoringFactor::ShortTermChange {
        Some(metrics.last().one_month_price_change.micros as int)
    } else if metrics.last().ticker@ == ticker && factor == ScoringFactor::LongTermChange {
        Some(metrics.last().long_term_total_return.micros as int)
    } else {
        metric_value(metrics.drop_last(), ticker, factor)
    }
}

/// Some metric is about `ticker`.
pub open spec fn has_metric(metrics: Seq<StockMetric>, ticker: Seq<char>) -> bool {
    exists|i: int| 0 <= i < metrics.len() && #[trigger] metrics[i].ticker@ == ticker
}

/// `c` holds exactly what `metrics` measures: one entry for each ticker of
/// the metrics and none other, with the values of its last metric.
pub open spec fn extracted(metrics: Seq<StockMetric>, c: StockCandidates) -> bool {
    &&& c.wf()
    &&& forall|t: Seq<char>, g: ScoringFactor| #[trigger] value_in(c.entries@, t, g) == metric_value(metrics, t, g)
    &&& forall|t: Seq<char>| #[trigger] has_ticker(c.entries@, t) == has_metric(metrics, t)
}

proof fn lemma_metric_value_some(metrics: Seq<StockMetric>, t: Seq<char>, g: ScoringFactor)
    ensures
        metric_value(metrics, t, g) is Some ==> has_metric(metrics, t),
        has_metric(metrics, t) ==> metric_value(metrics, t, ScoringFactor::ShortTermChange) is Some,
    decreases metrics.len(),
{
    if metrics.len() > 0 {
        let rest = metrics.drop_last();
        lemma_metric_value_some(rest, t, g);
        lemma_metric_value_some(rest, t, ScoringFactor::ShortTermChange);
        if has_metric(rest, t) {
            let i = choose|i: int| 0 <= i < rest.len() && #[trigger] rest[i].ticker@ == t;
            assert(metrics[i] == rest[i]);
        }
        if has_metric(metrics, t) && metrics.last().ticker@ != t {
            let i = choose|i: int| 0 <= i < metrics.len() && #[trigger] metrics[i].ticker@ == t;
            assert(i != metrics.len() - 1);
            assert(rest[i] == metrics[i]);
        }
        if metrics.last().ticker@ == t {
            assert(metrics[metrics.len() - 1] == metrics.last());
        }
    }
}

/// Some factor of `ticker` has a value in the data or the overrides.
pub open spec fn data_valued(
    overrides: Seq<(String, Vec<(ScoringFactor, Notional)>)>,
    positions: Seq<PortfolioPosition>,
    snapshots: Seq<MarketSnapshot>,
    ticker: Seq<char>,
) -> bool {
    exists|g: ScoringFactor| #[trigger] data_value(overrides, positions, snapshots, ticker, g) is Some
}

/// Builds the candidate store from per-stock metrics.
pub struct ScoringCandidateExtractor;

impl ScoringCandidateExtractor {
    pub fn extract_scoring_candidates(&self, metrics: &Vec<StockMetric>) -> (r: StockCandidates)
        ensures
            extracted(metrics@, r),
    {
        let mut candidates = StockCandidates::new();
        let n = metrics.len();
        let mut i: usize = 0;
        while i < n
            invariant
                n == metrics@.len(),
                i <= n,
                candidates.wf(),
                forall|t: Seq<char>, g: ScoringFactor|
                    #[trigger] value_in(candidates.entries@, t, g) == metric_value(
                        metrics@.take(i as int),
                        t,
                        g,
                    ),
            decreases n - i,
        {
            let stock = &metrics[i];
            candidates.add_candidate(
                Ticker { name: stock.ticker.clone() },
                ScoringFactor::ShortTermChange,
                stock.one_month_price_change,
            );
            candidates.add_candidate(
                Ticker { name: stock.ticker.clone() },
                ScoringFactor::LongTermChange,
                stock.long_term_total_return,
            );
            proof {
                let ms = metrics@.take(i + 1);
                assert(ms.drop_last() =~= metrics@.take(i as int));
                assert(ms.last() == metrics@[i as int]);
            }
            i = i + 1;
        }
        assert(metrics@.take(n as int) =~= metrics@);
        proof {
            lemma_tickers_are_valued(candidates.entries@);
            assert forall|t: Seq<char>| #[trigger] has_ticker(candidates.entries@, t) == has_metric(metrics@, t) by {
                lemma_metric_value_some(metrics@, t, ScoringFactor::ShortTermChange);
                if has_metric(metrics@, t) {
                    assert(value_in(candidates.entries@, t, ScoringFactor::ShortTermChange) is Some);
                }
                if valued(candidates.entries@, t) {
                    let g = choose|g: ScoringFactor| #[trigger] value_in(candidates.entries@, t, g) is Some;
                    lemma_metric_value_some(metrics@, t, g);
                }
            }
        }
        candidates
    }
}

/// One position of a portfolio: the contract id, the ticker, the asset
/// class (`STK` for a stock) and the amount held.
#[derive(Debug, Clone)]
pub struct PortfolioPosition {
    pub conid: i64,
    pub ticker: String,
    pub asset_class: String,
    pub position: Notional,
}

/// The number of positions on a full page of the portfolio listing.
pub const PORTFOLIO_PAGE_SIZE: usize = 30;

/// The portfolio listing goes on after a page of `page_len` positions when
/// that page was full.
pub fn portfolio_has_more_pages(page_len: usize) -> (r: bool)
    ensures
        r == (page_len >= PORTFOLIO_PAGE_SIZE),
{
    page_len >= PORTFOLIO_PAGE_SIZE
}

pub open spec fn stock_class() -> Seq<char> {
    seq!['S', 'T', 'K']
}

/// A position that is a stock and is still held.
pub open spec fn is_held_stock(p: PortfolioPosition) -> bool {
    p.asset_class@ == stock_class() && p.position.micros != 0
}

/// The positions that are held stocks, in order.
pub open spec fn held_stocks(positions: Seq<PortfolioPosition>) -> Seq<PortfolioPosition>
    decreases positions.len(),
{
    if positions.len() == 0 {
        Seq::empty()
    } else if is_held_stock(positions.last()) {
        held_stocks(positions.drop_last()).push(positions.last())
    } else {
        held_stocks(positions.drop_last())
    }
}

/// Some override is about `ticker`.
pub open spec fn overridden(overrides: Seq<(String, Vec<(ScoringFactor, Notional)>)>, ticker: Seq<char>) -> bool {
    exists|i: int| 0 <= i < overrides.len() && #[trigger] overrides[i].0@ == ticker
}

/// The positions whose ticker no override is about, in order.
pub open spec fn not_overridden(
    positions: Seq<PortfolioPosition>,
    overrides: Seq<(String, Vec<(ScoringFactor, Notional)>)>,
) -> Seq<PortfolioPosition>
    decreases positions.len(),
{
    if positions.len() == 0 {
        Seq::empty()
    } else if !overridden(overrides, positions.last().ticker@) {
        not_overridden(positions.drop_last(), overrides).push(positions.last())
    } else {
        not_overridden(positions.drop_last(), overrides)
    }
}

fn copy_position(p: &PortfolioPosition) -> (r: PortfolioPosition)
    ensures
        r == *p,
{
    PortfolioPosition {
        conid: p.conid,
        ticker: p.ticker.clone(),
        asset_class: p.asset_class.clone(),
        position: p.position,
    }
}

/// Keeps the positions that are stocks still held: the listing also shows
/// other asset classes and recently sold stocks.
pub fn held_stock_positions(positions: &Vec<PortfolioPosition>) -> (r: Vec<PortfolioPosition>)
    ensures
        r@ == held_stocks(positions@),
{
    proof {
        reveal_strlit("STK");
    }
    let stk = String::from_str("STK");
    assert(stk@ =~= stock_class());
    let n = positions.len();
    let mut r: Vec<PortfolioPosition> = Vec::new();
    let mut i: usize = 0;
    while i < n
        invariant
            n == positions@.len(),
            stk@ == stock_class(),
            i <= n,
            r@ == held_stocks(positions@.take(i as int)),
        decreases n - i,
    {
        let p = &positions[i];
        if p.asset_class == stk && p.position.micros != 0 {
            r.push(copy_position(p));
        }
        proof {
            let ps = positions@.take(i + 1);
            assert(ps.drop_last() =~= positions@.take(i as int));
            assert(ps.last() == positions@[i as int]);
        }
        i = i + 1;
    }
    assert(positions@.take(n as int) =~= positions@);
    r
}

/// Whether some override is about `ticker`.
fn is_overridden(overrides: &Vec<(String, Vec<(ScoringFactor, Notional)>)>, ticker: &String) -> (r: bool)
    ensures
        r == overridden(overrides@, ticker@),
{
    let n = overrides.len();
    let mut i: usize = 0;
    while i < n
        invariant
            n == overrides@.len(),
            i <= n,
            forall|j: int| 0 <= j < i ==> overrides@[j].0@ != ticker@,
        decreases n - i,
    {
        if overrides[i].0 == *ticker {
            return true;
        }
        i = i + 1;
    }
    false
}

/// Leaves out the positions whose ticker an override is about: those take
/// their values from the overrides alone.
pub fn positions_without_overrides(
    positions: &Vec<PortfolioPosition>,
    overrides: &Vec<(String, Vec<(ScoringFactor, Notional)>)>,
) -> (r: Vec<PortfolioPosition>)
    ensures
        r@ == not_overridden(positions@, overrides@),
{
    let n = positions.len();
    let mut r: Vec<PortfolioPosition> = Vec::new();
    let mut i: usize = 0;
    while i < n
        invariant
            n == positions@.len(),
            i <= n,
            r@ == not_overridden(positions@.take(i as int), overrides@),
        decreases n - i,
    {
        let p = &positions[i];
        if !is_overridden(overrides, &p.ticker) {
            r.push(copy_position(p));
        }
        proof {
            let ps = positions@.take(i + 1);
            assert(ps.drop_last() =~= positions@.take(i as int));
            assert(ps.last() == positions@[i as int]);
        }
        i = i + 1;
    }
    assert(positions@.take(n as int) =~= positions@);
    r
}

/// Milliseconds in a day.
pub const DAY_MILLIS: i64 = 86_400_000;

/// Cached data taken at `cached_at` (milliseconds since the epoch) is
/// outdated at `now` once a whole day has passed.
pub fn cache_outdated(cached_at: i64, now: i64) -> (r: bool)
    ensures
        r == (now - cached_at >= DAY_MILLIS),
{
    (now as i128) - (cached_at as i128) >= DAY_MILLIS as i128
}

/// Market measurements of one contract; each may be missing.
#[derive(Debug, Clone, Copy)]
pub struct MarketSnapshot {
    pub conid: i64,
    pub pe_ratio: Option<Notional>,
    pub dividend_yield: Option<Notional>,
    pub pema_20: Option<Notional>,
    pub pema_200: Option<Notional>,
}

/// Downloaded data: the portfolio and a snapshot per contract id.
#[derive(Debug, Clone)]
pub struct StockData {
    pub portfolio: Vec<PortfolioPosition>,
    pub market_snapshot: Vec<MarketSnapshot>,
}

/// The snapshot of `conid` (the last one listed), if any.
pub open spec fn snapshot_of(snapshots: Seq<MarketSnapshot>, conid: i64) -> Option<MarketSnapshot>
    decreases snapshots.len(),
{
    if snapshots.len() == 0 {
        None
    } else if snapshots.last().conid == conid {
        Some(snapshots.last())
    } else {
        snapshot_of(snapshots.drop_last(), conid)
    }
}

/// The value of `factor` in a snapshot.
pub open spec fn snapshot_value(s: MarketSnapshot, factor: ScoringFactor) -> Option<int> {
    let v = match factor {
        ScoringFactor::PeRatio => s.pe_ratio,
        ScoringFactor::DividendYield => s.dividend_yield,
        ScoringFactor::PriceEma20Change => s.pema_20,
        ScoringFactor::PriceEma200Change => s.pema_200,
        _ => None,
    };
    match v {
        Some(n) => Some(n.micros as int),
        None => None,
    }
}

/// The value of `factor` for `ticker`: from the last position of the ticker
/// whose snapshot has it, else from the overrides.
pub open spec fn data_value(
    overrides: Seq<(String, Vec<(ScoringFactor, Notional)>)>,
    positions: Seq<PortfolioPosition>,
    snapshots: Seq<MarketSnapshot>,
    ticker: Seq<char>,
    factor: ScoringFactor,
) -> Option<int>
    decreases positions.len(),
{
    if positions.len() == 0 {
        override_value(overrides, ticker, factor)
    } else {
        let p = positions.last();
        let found = match snapshot_of(snapshots, p.conid) {
            Some(s) => snapshot_value(s, factor),
            None => None,
        };
        if p.ticker@ == ticker && found is Some {
            found
        } else {
            data_value(overrides, positions.drop_last(), snapshots, ticker, factor)
        }
    }
}

fn find_snapshot(snapshots: &Vec<MarketSnapshot>, conid: i64) -> (r: Option<MarketSnapshot>)
    ensures
        r == snapshot_of(snapshots@, conid),
{
    let n = snapshots.len();
    let mut i: usize = n;
    assert(snapshots@.take(n as int) =~= snapshots@);
    while i > 0
        invariant
            i <= n == snapshots@.len(),
            snapshot_of(snapshots@, conid) == snapshot_of(snapshots@.take(i as int), conid),
        decreases i,
    {
        assert(snapshots@.take(i as int).drop_last() =~= snapshots@.take(i - 1));
        if snapshots[i - 1].conid == conid {
            return Some(snapshots[i - 1]);
        }
        i = i - 1;
    }
    None
}

/// Builds the candidate store from configured overrides and downloaded data.
pub struct ScoringFactorExtractor {
    pub overrides: Vec<(String, Vec<(ScoringFactor, Notional)>)>,
}

impl ScoringFactorExtractor {
    pub fn new(overrides: Vec<(String, Vec<(ScoringFactor, Notional)>)>) -> (r: Self)
        ensures
            r.overrides == overrides,
    {
        ScoringFactorExtractor { overrides }
    }

    fn add_if_present(
        candidates: &mut StockCandidates,
        ticker: &String,
        factor: ScoringFactor,
        value: Option<Notional>,
    )
        requires
            old(candidates).wf(),
        ensures
            final(candidates).wf(),
            forall|t: Seq<char>, g: ScoringFactor|
                #[trigger] value_in(final(candidates).entries@, t, g) == match value {
                    Some(n) => if t == ticker@ && g == factor {
                        Some(n.micros as int)
                    } else {
                        value_in(old(candidates).entries@, t, g)
                    },
                    None => value_in(old(candidates).entries@, t, g),
                },
    {
        if let Some(n) = value {
            candidates.add_candidate(Ticker { name: ticker.clone() }, factor, n);
        }
    }

    /// Starts from the overrides and adds, for each position whose contract
    /// has a snapshot, the P/E ratio, dividend yield and moving-average
    /// changes that the snapshot holds.
    pub fn extract_scoring_factors(&self, data: &StockData) -> (r: StockCandidates)
        ensures
            r.wf(),
            forall|t: Seq<char>, g: ScoringFactor|
                #[trigger] value_in(r.entries@, t, g) == data_value(
                    self.overrides@,
                    data.portfolio@,
                    data.market_snapshot@,
                    t,
                    g,
                ),
            forall|t: Seq<char>|
                #[trigger] has_ticker(r.entries@, t) == data_valued(
                    self.overrides@,
                    data.portfolio@,
                    data.market_snapshot@,
                    t,
                ),
    {
        let mut candidates = StockCandidates::from_overrides(&self.overrides);
        let positions = &data.portfolio;
        let n = positions.len();
        let mut i: usize = 0;
        while i < n
            invariant
                n == positions@.len(),
                positions == data.portfolio,
                i <= n,
                candidates.wf(),
                forall|t: Seq<char>, g: ScoringFactor|
                    #[trigger] value_in(candidates.entries@, t, g) == data_value(
                        self.overrides@,
                        positions@.take(i as int),
                        data.market_snapshot@,
                        t,
                        g,
                    ),
            decreases n - i,
        {
            let position = &positions[i];
            if let Some(snapshot) = find_snapshot(&data.market_snapshot, position.conid) {
                Self::add_if_present(
                    &mut candidates,
                    &position.ticker,
                    ScoringFactor::PeRatio,
                    snapshot.pe_ratio,
                );
                Self::add_if_present(
                    &mut candidates,
                    &position.ticker,
                    ScoringFactor::DividendYield,
                    snapshot.dividend_yield,
                );
                Self::add_if_present(
                    &mut candidates,
                    &position.ticker,
                    ScoringFactor::PriceEma20Change,
                    snapshot.pema_20,
                );
                Self::add_if_present(
                    &mut candidates,
                    &position.ticker,
                    ScoringFactor::PriceEma200Change,
                    snapshot.pema_200,
                );
            }
            proof {
                let ps = positions@.take(i + 1);
                assert(ps.drop_last() =~= positions@.take(i as int));
                assert(ps.last() == positions@[i as int]);
            }
            i = i + 1;
        }
        assert(positions@.take(n as int) =~= positions@);
        proof {
            let ov = self.overrides@;
            let ss = data.market_snapshot@;
            lemma_tickers_are_valued(candidates.entries@);
            assert forall|t: Seq<char>| #[trigger] has_ticker(candidates.entries@, t) == data_valued(ov, positions@, ss, t) by {
                if data_valued(ov, positions@, ss, t) {
                    let g = choose|g: ScoringFactor| #[trigger] data_value(ov, positions@, ss, t, g) is Some;
                    assert(value_in(candidates.entries@, t, g) is Some);
                }
                if valued(candidates.entries@, t) {
                    let g = choose|g: ScoringFactor| #[trigger] value_in(candidates.entries@, t, g) is Some;
                    assert(data_value(ov, positions@, ss, t, g) is Some);
                }
            }
        }
        candidates
    }
}

/// A report and advice.
#[derive(Debug)]
pub struct RankOutput {
    pub report: Vec<ReportEntry>,
    pub advice: Vec<InvestAdviceEntry>,
}

/// `o` is what `ranker` makes of `metrics`: the report of every stock, and
/// advice on the best half of them (rounded down).
pub open spec fn ranked_output(ranker: StockRanker, metrics: Seq<StockMetric>, o: RankOutput) -> bool {
    &&& all_weighted(ranker_factors(ranker.rankers@), ranker.factor_weight@)
    &&& exists|c: StockCandidates, s: Seq<(Seq<char>, int)>|
        extracted(metrics, c) && aggregated(ranker.rankers@, ranker.factor_weight@, c.entries@, s)
            && report_of(c.entries@, s, o.report@) && advice_of(
            s,
            metrics.len() as int / 2,
            advice_view(o.advice@),
        )
}

/// Scores `metrics` with `ranker`, reports every stock, and advises investing
/// in the best half of them (rounded down). No metrics give no output.
pub fn rank(ranker: &StockRanker, metrics: &Vec<StockMetric>) -> (r: Result<Option<RankOutput>, RankError>)
    ensures
        (r matches Ok(None)) == (metrics@.len() == 0),
        r matches Ok(Some(o)) ==> ranked_output(*ranker, metrics@, o),
        r matches Err(RankError::MissingWeight(f)) ==> exists|k: int|
            first_missing(ranker_factors(ranker.rankers@), ranker.factor_weight@, k) && f
                == #[trigger] ranker_factors(ranker.rankers@)[k],
        r matches Err(RankError::ScoresOutOfRange) ==> all_weighted(
            ranker_factors(ranker.rankers@),
            ranker.factor_weight@,
        ) && exists|c: StockCandidates, s: Seq<(Seq<char>, int)>|
            extracted(metrics@, c) && aggregated(ranker.rankers@, ranker.factor_weight@, c.entries@, s)
                && !(report_in_range(s) && advice_in_range(s)),
{
    if metrics.len() == 0 {
        return Ok(None);
    }
    let candidates = ScoringCandidateExtractor.extract_scoring_candidates(metrics);
    let scores = match ranker.rank(&candidates) {
        Ok(s) => s,
        Err(e) => {
            return Err(e);
        },
    };
    let report_renderer = ReportRenderer { arithmetic_renderer: ArithmeticRenderer };
    let advisor = InvestAdvisor { arithmetic_renderer: ArithmeticRenderer };
    let ghost s = score_view(scores@);
    assert(extracted(metrics@, candidates));
    assert(aggregated(ranker.rankers@, ranker.factor_weight@, candidates.entries@, s));
    if !report_renderer.accepts(&scores) || !advisor.accepts(&scores) {
        assert(exists|c: StockCandidates, s: Seq<(Seq<char>, int)>|
            extracted(metrics@, c) && aggregated(ranker.rankers@, ranker.factor_weight@, c.entries@, s)
                && !(report_in_range(s) && advice_in_range(s)));
        return Err(RankError::ScoresOutOfRange);
    }
    let report = report_renderer.render(&candidates, &scores);
    let advice = advisor.render_advice(&scores, metrics.len() / 2);
    let out = RankOutput { report, advice };
    assert(report_of(candidates.entries@, s, out.report@));
    assert(advice_of(s, metrics@.len() as int / 2, advice_view(out.advice@)));
    assert(ranked_output(*ranker, metrics@, out));
    Ok(Some(out))
}

} // verus!
