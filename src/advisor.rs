//! Investment advice: the top-scored tickers with their share of the capital.
use vstd::prelude::*;
use crate::candidates::Ticker;
use crate::fixed::{abs, share, share_of, Score, UNIT};
use crate::normalizer::{lemma_shares_sum_to_unit, proportional, score_view, total};
use crate::ordering::{is_sorting, keys_view, lemma_sorting_covers, lists, sorted_positions, RankKey};
use crate::render::{lemma_percentage_rounding, percentage_text, shown_hundredths, ArithmeticRenderer};

verus! {

/// One ticker to invest in, with its share as a percentage string.
#[derive(Debug, Clone, PartialEq, Eq)]
pub struct InvestAdviceEntry {
    pub ticker: String,
    pub ratio: String,
}

pub open spec fn advice_view(r: Seq<InvestAdviceEntry>) -> Seq<(Seq<char>, Seq<char>)> {
    r.map_values(|e: InvestAdviceEntry| (e.ticker@, e.ratio@))
}

/// The first `m` entries of `s` in the order `p`.
pub open spec fn picked_scores(s: Seq<(Seq<char>, int)>, p: Seq<usize>, m: int) -> Seq<(Seq<char>, int)> {
    Seq::new(m as nat, |k: int| s[p[k] as int])
}

/// `r` is the advice for the first `m` tickers of `s` in the order `p`:
/// each with its score's share of their total, as a percentage.
pub open spec fn advice_for(
    s: Seq<(Seq<char>, int)>,
    p: Seq<usize>,
    m: int,
    r: Seq<(Seq<char>, Seq<char>)>,
) -> bool {
    let sel = picked_scores(s, p, m);
    &&& r.len() == m
    &&& forall|k: int|
        0 <= k < m ==> #[trigger] r[k] == (sel[k].0, percentage_text(share(sel[k].1, total(sel))))
}

/// `r` is the advice for the `invest_num` best scores of `s` (all of them
/// if there are fewer), highest first, equal scores by ticker name.
pub open spec fn advice_of(s: Seq<(Seq<char>, int)>, invest_num: int, r: Seq<(Seq<char>, Seq<char>)>) -> bool {
    exists|p: Seq<usize>| is_sorting(s, p, true) && advice_for(s, p, min(invest_num, s.len() as int), r)
}

/// Scores small enough that their sum, shares and percentages fit in 128 bits.
pub open spec fn advice_in_range(s: Seq<(Seq<char>, int)>) -> bool {
    forall|i: int| 0 <= i < s.len() ==> abs(#[trigger] s[i].1) * s.len() * 100 * UNIT <= i128::MAX
}

pub open spec fn min(a: int, b: int) -> int {
    if a < b {
        a
    } else {
        b
    }
}

/// The shares that the advice renders add up to one whole (100%), missing
/// it by less than one millionth per advised ticker, whenever the advised
/// scores have a non-zero total; and when `invest_num` is at least the number
/// of tickers, every ticker is advised.
pub proof fn lemma_advice_shares(s: Seq<(Seq<char>, int)>, p: Seq<usize>, invest_num: int)
    requires
        is_sorting(s, p, true),
        invest_num >= 0,
    ensures
        ({
            let m = min(invest_num, s.len() as int);
            let sel = picked_scores(s, p, m);
            &&& m > 0 && total(sel) != 0 ==> abs(total(proportional(sel)) - UNIT) < m
            &&& invest_num >= s.len() ==> forall|i: int|
                0 <= i < s.len() ==> #[trigger] sel.contains(s[i])
        }),
{
    let m = min(invest_num, s.len() as int);
    let sel = picked_scores(s, p, m);
    if m > 0 && total(sel) != 0 {
        lemma_shares_sum_to_unit(sel);
    }
    if invest_num >= s.len() {
        lemma_sorting_covers(s, p, true);
        assert forall|i: int| 0 <= i < s.len() implies #[trigger] sel.contains(s[i]) by {
            assert(lists(p, i));
            let k = choose|k: int| 0 <= k < p.len() && p[k] == i;
            assert(sel[k] == s[i]);
        }
    }
}

/// The hundredths of a percent that the percentages of the shares of `s`
/// show, added up.
pub open spec fn shown_total(s: Seq<(Seq<char>, int)>) -> int
    decreases s.len(),
{
    if s.len() == 0 {
        0
    } else {
        shown_total(s.drop_last()) + shown_hundredths(100 * s.last().1)
    }
}

proof fn lemma_shown_total_error(s: Seq<(Seq<char>, int)>)
    ensures
        abs(100 * shown_total(s) - total(s)) <= 50 * s.len(),
    decreases s.len(),
{
    if s.len() > 0 {
        lemma_shown_total_error(s.drop_last());
        lemma_percentage_rounding(s.last().1);
    }
}

/// The percentages that the advice renders add up to 100% (ten thousand
/// hundredths), missing it by less than 51 millionths (0.0051%) per advised
/// ticker, whenever the advised scores have a non-zero total.
pub proof fn lemma_rendered_shares(s: Seq<(Seq<char>, int)>, p: Seq<usize>, invest_num: int)
    requires
        is_sorting(s, p, true),
        invest_num >= 0,
        min(invest_num, s.len() as int) > 0,
        total(picked_scores(s, p, min(invest_num, s.len() as int))) != 0,
    ensures
        ({
            let m = min(invest_num, s.len() as int);
            abs(100 * shown_total(proportional(picked_scores(s, p, m))) - UNIT) < 51 * m
        }),
{
    let m = min(invest_num, s.len() as int);
    let sel = picked_scores(s, p, m);
    lemma_shares_sum_to_unit(sel);
    lemma_shown_total_error(proportional(sel));
}

/// Picks the top-scored tickers and derives each one's share of the capital.
pub struct InvestAdvisor {
    pub arithmetic_renderer: ArithmeticRenderer,
}

impl InvestAdvisor {
    /// Whether `render_advice` accepts `scores`.
    pub fn accepts(&self, scores: &Vec<(Ticker, Score)>) -> (r: bool)
        ensures
            r == advice_in_range(score_view(scores@)),
    {
        let n = scores.len();
        let c: u128 = (n as u128) * 100_000_000;
        if n == 0 {
            return true;
        }
        let limit: u128 = (i128::MAX as u128) / c;
        let mut i: usize = 0;
        while i < n
            invariant
                n == scores@.len(),
                n > 0,
                c == n * 100 * UNIT,
                limit == (i128::MAX as int) / (c as int),
                i <= n,
                forall|j: int| 0 <= j < i ==> abs(#[trigger] score_view(scores@)[j].1) * n * 100 * UNIT <= i128::MAX,
            decreases n - i,
        {
            let mag = crate::fixed::magnitude(scores[i].1.micros);
            proof {
                assert(score_view(scores@)[i as int].1 == scores@[i as int].1.micros);
                let a = mag as int;
                let cc = c as int;
                let l = limit as int;
                assert(a <= l <==> a * cc <= i128::MAX) by (nonlinear_arith)
                    requires cc > 0, l == (i128::MAX as int) / cc, a >= 0;
                assert(a * cc == a * n * 100 * UNIT) by (nonlinear_arith)
                    requires cc == n * 100 * UNIT;
            }
            if mag > limit {
                return false;
            }
            i = i + 1;
        }
        true
    }

    /// Sorts tickers by score, highest first (equal scores by ticker name),
    /// takes at most `invest_num` of them, and gives each its score's share
    /// of their total as a percentage; a zero total gives every share zero.
    pub fn render_advice(&self, scores: &Vec<(Ticker, Score)>, invest_num: usize) -> (r: Vec<
        InvestAdviceEntry,
    >)
        requires
            advice_in_range(score_view(scores@)),
        ensures
            advice_of(score_view(scores@), invest_num as int, advice_view(r@)),
    {
        let ghost view = score_view(scores@);
        let n = scores.len();
        let mut keys: Vec<RankKey> = Vec::new();
        let mut i: usize = 0;
        while i < n
            invariant
                n == scores@.len(),
                view == score_view(scores@),
                i <= n,
                keys_view(keys@) == view.take(i as int),
            decreases n - i,
        {
            let ghost before = keys@;
            let key = RankKey { name: scores[i].0.name.clone(), value: scores[i].1.micros };
            keys.push(key);
            assert(keys_view(keys@) =~= keys_view(before).push(key@));
            assert(keys_view(keys@) =~= view.take(i + 1));
            i = i + 1;
        }
        assert(view.take(n as int) =~= view);
        let p = sorted_positions(&keys, true);
        let m: usize = if invest_num < n { invest_num } else { n };
        let ghost sel = picked_scores(view, p@, m as int);
        let mut sum: i128 = 0;
        let mut k: usize = 0;
        assert(abs(sum as int) * n * 100 * UNIT <= k * i128::MAX) by (nonlinear_arith)
            requires sum == 0, k == 0;
        while k < m
            invariant
                n == scores@.len(),
                view == score_view(scores@),
                is_sorting(view, p@, true),
                m <= n,
                sel == picked_scores(view, p@, m as int),
                advice_in_range(view),
                k <= m,
                sum == total(sel.take(k as int)),
                forall|j: int| 0 <= j < n ==> abs(#[trigger] view[j].1) * n * 100 * UNIT <= i128::MAX,
                abs(sum as int) * n * 100 * UNIT <= k * i128::MAX,
            decreases m - k,
        {
            let v = scores[p[k]].1.micros;
            proof {
                assert(p@[k as int] < n);
                assert(view[p@[k as int] as int].1 == v);
                assert(sel.take(k + 1).drop_last() =~= sel.take(k as int));
                assert(sel[k as int] == view[p@[k as int] as int]);
                let a = abs(v as int) * n * 100 * UNIT;
                assert(a <= i128::MAX);
                let b = abs(sum as int) * n * 100 * UNIT;
                let c = abs(sum + v) * n * 100 * UNIT;
                assert(c <= a + b) by (nonlinear_arith)
                    requires c == abs(sum + v) * n * 100 * UNIT, a == abs(v as int) * n * 100 * UNIT,
                        b == abs(sum as int) * n * 100 * UNIT, n >= 0;
                assert(c <= (k + 1) * i128::MAX) by (nonlinear_arith)
                    requires c <= a + b, a <= i128::MAX, b <= k * i128::MAX;
                assert(abs(sum + v) <= i128::MAX) by (nonlinear_arith)
                    requires c == abs(sum + v) * n * 100 * UNIT, c <= (k + 1) * i128::MAX, k < n, n >= 1;
            }
            sum = sum + v;
            k = k + 1;
        }
        assert(sel.take(m as int) =~= sel);
        let mut r: Vec<InvestAdviceEntry> = Vec::new();
        let mut k: usize = 0;
        while k < m
            invariant
                n == scores@.len(),
                view == score_view(scores@),
                is_sorting(view, p@, true),
                m <= n,
                sel == picked_scores(view, p@, m as int),
                sum == total(sel),
                forall|j: int| 0 <= j < n ==> abs(#[trigger] view[j].1) * n * 100 * UNIT <= i128::MAX,
                k <= m,
                r@.len() == k,
                forall|j: int|
                    0 <= j < k ==> #[trigger] advice_view(r@)[j] == (
                        sel[j].0,
                        percentage_text(share(sel[j].1, total(sel))),
                    ),
            decreases m - k,
        {
            let at = p[k];
            let v = scores[at].1.micros;
            proof {
                assert(p@[k as int] < n);
                assert(view[at as int].1 == v);
                assert(sel[k as int] == view[at as int]);
                let a = abs(v as int);
                assert(a * UNIT <= i128::MAX && a * UNIT * 100 <= i128::MAX) by (nonlinear_arith)
                    requires a * n * 100 * UNIT <= i128::MAX, n >= 1, a >= 0;
            }
            let ratio = share_of(v, sum);
            let text = self.arithmetic_renderer.render_percentage(ratio);
            let ghost before = r@;
            r.push(InvestAdviceEntry { ticker: scores[at].0.name.clone(), ratio: text });
            proof {
                assert forall|j: int| 0 <= j < k + 1 implies #[trigger] advice_view(r@)[j] == (
                    sel[j].0,
                    percentage_text(share(sel[j].1, total(sel))),
                ) by {
                    if j < k {
                        assert(advice_view(r@)[j] == advice_view(before)[j]);
                    }
                }
            }
            k = k + 1;
        }
        r
    }
}

} // verus!
