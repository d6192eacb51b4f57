//! The per-ticker report: score and tracked factors, highest score first.
use vstd::prelude::*;
use crate::candidates::{
    factor_value, lookup_factor, CandidateEntry, ScoringFactor, StockCandidates, Ticker,
};
use crate::fixed::{abs, Notional, Score};
use crate::normalizer::score_view;
use crate::ordering::{is_sorting, keys_view, sorted_positions, RankKey};
use crate::render::{float_text, percentage_text, ArithmeticRenderer};

verus! {

/// One line of the report, every field rendered.
#[derive(Debug, Clone, PartialEq, Eq, Default)]
pub struct ReportEntry {
    pub ticker: String,
    pub score: String,
    pub pe_ratio: String,
    pub dividend_yield: String,
    pub short_term_change: String,
    pub long_term_change: String,
}

/// The score paired with `name` (the last such pair), or zero.
pub open spec fn score_of(scores: Seq<(Seq<char>, int)>, name: Seq<char>) -> int
    decreases scores.len(),
{
    if scores.len() == 0 {
        0
    } else if scores.last().0 == name {
        scores.last().1
    } else {
        score_of(scores.drop_last(), name)
    }
}

/// Each candidate's name with its score.
pub open spec fn report_rows(entries: Seq<CandidateEntry>, scores: Seq<(Seq<char>, int)>) -> Seq<
    (Seq<char>, int),
> {
    entries.map_values(|e: CandidateEntry| (e.ticker@, score_of(scores, e.ticker@)))
}

pub open spec fn none_text() -> Seq<char> {
    seq!['N', 'o', 'n', 'e']
}

/// A factor's value as a plain number or a percentage, or `None`.
pub open spec fn optional_text(v: Option<int>, percent: bool) -> Seq<char> {
    match v {
        None => none_text(),
        Some(x) => if percent {
            percentage_text(x)
        } else {
            float_text(x)
        },
    }
}

/// `r` renders `e` with score `score` (shown as a percentage without sign).
pub open spec fn renders(e: CandidateEntry, score: int, r: ReportEntry) -> bool {
    let f = e.factors@;
    &&& r.ticker@ == e.ticker@
    &&& r.score@ == float_text(100 * score)
    &&& r.pe_ratio@ == optional_text(factor_value(f, ScoringFactor::PeRatio), false)
    &&& r.dividend_yield@ == optional_text(factor_value(f, ScoringFactor::DividendYield), true)
    &&& r.short_term_change@ == optional_text(factor_value(f, ScoringFactor::ShortTermChange), true)
    &&& r.long_term_change@ == optional_text(factor_value(f, ScoringFactor::LongTermChange), true)
}

/// `r` renders every entry with its score, highest score first (equal
/// scores by ticker name).
pub open spec fn report_of(
    entries: Seq<CandidateEntry>,
    scores: Seq<(Seq<char>, int)>,
    r: Seq<ReportEntry>,
) -> bool {
    &&& r.len() == entries.len()
    &&& exists|p: Seq<usize>|
        is_sorting(report_rows(entries, scores), p, true) && forall|k: int|
            0 <= k < r.len() ==> renders(
                entries[p[k] as int],
                report_rows(entries, scores)[p[k] as int].1,
                #[trigger] r[k],
            )
}

/// Scores whose percentages fit in 128 bits.
pub open spec fn report_in_range(scores: Seq<(Seq<char>, int)>) -> bool {
    forall|i: int| 0 <= i < scores.len() ==> abs(#[trigger] scores[i].1) * 100 <= i128::MAX
}

fn lookup_score(scores: &Vec<(Ticker, Score)>, ticker: &Ticker) -> (r: i128)
    ensures
        r == score_of(score_view(scores@), ticker@),
        r == 0 || exists|i: int| 0 <= i < scores@.len() && r == scores@[i].1.micros,
{
    let n = scores.len();
    let ghost view = score_view(scores@);
    let mut i: usize = n;
    assert(view.take(n as int) =~= view);
    while i > 0
        invariant
            i <= n == scores@.len(),
            view == score_view(scores@),
            score_of(view, ticker@) == score_of(view.take(i as int), ticker@),
        decreases i,
    {
        assert(view.take(i as int).drop_last() =~= view.take(i - 1));
        if scores[i - 1].0.same_as(ticker) {
            return scores[i - 1].1.micros;
        }
        i = i - 1;
    }
    0
}

/// Renders candidates and their scores as report lines.
pub struct ReportRenderer {
    pub arithmetic_renderer: ArithmeticRenderer,
}

impl ReportRenderer {
    /// Whether `render` accepts `scores`.
    pub fn accepts(&self, scores: &Vec<(Ticker, Score)>) -> (r: bool)
        ensures
            r == report_in_range(score_view(scores@)),
    {
        let n = scores.len();
        let mut i: usize = 0;
        while i < n
            invariant
                n == scores@.len(),
                i <= n,
                forall|j: int| 0 <= j < i ==> abs(#[trigger] score_view(scores@)[j].1) * 100 <= i128::MAX,
            decreases n - i,
        {
            let mag = crate::fixed::magnitude(scores[i].1.micros);
            assert(score_view(scores@)[i as int].1 == scores@[i as int].1.micros);
            if mag > (i128::MAX as u128) / 100 {
                return false;
            }
            i = i + 1;
        }
        true
    }

    fn render_optional(&self, v: Option<Notional>, percent: bool) -> (r: String)
        ensures
            r@ == optional_text(
                match v {
                    Some(n) => Some(n.micros as int),
                    None => None,
                },
                percent,
            ),
    {
        match v {
            Some(n) => if percent {
                self.arithmetic_renderer.render_percentage(n.micros as i128)
            } else {
                self.arithmetic_renderer.render_float(n.micros as i128)
            },
            None => {
                proof {
                    reveal_strlit("None");
                }
                let r = String::from_str("None");
                assert(r@ =~= none_text());
                r
            },
        }
    }

    fn render_entry(&self, e: &CandidateEntry, score: i128) -> (r: ReportEntry)
        requires
            abs(score as int) * 100 <= i128::MAX,
        ensures
            renders(*e, score as int, r),
    {
        ReportEntry {
            ticker: e.ticker.name.clone(),
            score: self.arithmetic_renderer.render_float(score * 100),
            pe_ratio: self.render_optional(
                lookup_factor(&e.factors, ScoringFactor::PeRatio),
                false,
            ),
            dividend_yield: self.render_optional(
                lookup_factor(&e.factors, ScoringFactor::DividendYield),
                true,
            ),
            short_term_change: self.render_optional(
                lookup_factor(&e.factors, ScoringFactor::ShortTermChange),
                true,
            ),
            long_term_change: self.render_optional(
                lookup_factor(&e.factors, ScoringFactor::LongTermChange),
                true,
            ),
        }
    }

    /// One line per candidate, ordered by score from highest to lowest
    /// (equal scores by ticker name); a ticker without a score scores zero.
    pub fn render(&self, candidates: &StockCandidates, scores: &Vec<(Ticker, Score)>) -> (r: Vec<
        ReportEntry,
    >)
        requires
            report_in_range(score_view(scores@)),
        ensures
            report_of(candidates.entries@, score_view(scores@), r@),
    {
        let entries = &candidates.entries;
        let ghost rows = report_rows(entries@, score_view(scores@));
        let n = entries.len();
        let mut keys: Vec<RankKey> = Vec::new();
        let mut i: usize = 0;
        while i < n
            invariant
                n == entries@.len(),
                rows == report_rows(entries@, score_view(scores@)),
                report_in_range(score_view(scores@)),
                i <= n,
                keys_view(keys@) == rows.take(i as int),
                forall|j: int| 0 <= j < i ==> abs(#[trigger] keys@[j].value as int) * 100 <= i128::MAX,
            decreases n - i,
        {
            let s = lookup_score(scores, &entries[i].ticker);
            proof {
                if s != 0 {
                    let j = choose|j: int| 0 <= j < scores@.len() && s == scores@[j].1.micros;
                    assert(score_view(scores@)[j].1 == s);
                }
            }
            let ghost before = keys@;
            let key = RankKey { name: entries[i].ticker.name.clone(), value: s };
            keys.push(key);
            assert(keys_view(keys@) =~= keys_view(before).push(key@));
            assert(keys_view(keys@) =~= rows.take(i + 1));
            i = i + 1;
        }
        assert(rows.take(n as int) =~= rows);
        let p = sorted_positions(&keys, true);
        let mut r: Vec<ReportEntry> = Vec::new();
        let mut k: usize = 0;
        while k < n
            invariant
                n == entries@.len(),
                rows == report_rows(entries@, score_view(scores@)),
                keys_view(keys@) == rows,
                keys@.len() == n,
                forall|j: int| 0 <= j < n ==> abs(#[trigger] keys@[j].value as int) * 100 <= i128::MAX,
                is_sorting(rows, p@, true),
                k <= n,
                r@.len() == k,
                forall|j: int|
                    0 <= j < k ==> renders(entries@[p@[j] as int], rows[p@[j] as int].1, #[trigger] r@[j]),
            decreases n - k,
        {
            let at = p[k];
            proof {
                assert(keys_view(keys@)[at as int] == keys@[at as int]@);
            }
            let e = self.render_entry(&entries[at], keys[at].value);
            r.push(e);
            k = k + 1;
        }
        r
    }
}

} // verus!
