//! Proportional ranking of one factor's measurements.
use vstd::prelude::*;
use crate::candidates::Ticker;
use crate::fixed::{abs, share, share_of, Notional, Score, UNIT};
use crate::ordering::{
    is_permutation, is_sorting, key_before, keys_view, lemma_permuted_multiset, lemma_sorting_covers,
    lemma_sorting_unique, lists, sorted_positions, RankKey,
};

verus! {

/// (name, measurement) pairs.
pub open spec fn notional_view(s: Seq<(Ticker, Notional)>) -> Seq<(Seq<char>, int)> {
    s.map_values(|p: (Ticker, Notional)| (p.0@, p.1.micros as int))
}

/// (name, score) pairs.
pub open spec fn score_view(s: Seq<(Ticker, Score)>) -> Seq<(Seq<char>, int)> {
    s.map_values(|p: (Ticker, Score)| (p.0@, p.1.micros as int))
}

/// The sum of the values.
pub open spec fn total(s: Seq<(Seq<char>, int)>) -> int
    decreases s.len(),
{
    if s.len() == 0 {
        0
    } else {
        total(s.drop_last()) + s.last().1
    }
}

/// Each name with its value's share of the total.
pub open spec fn proportional(s: Seq<(Seq<char>, int)>) -> Seq<(Seq<char>, int)> {
    s.map_values(|p: (Seq<char>, int)| (p.0, share(p.1, total(s))))
}

/// Each name with the share that the value in the mirrored place of the
/// ascending order `p` has of the total: the smallest value gets the share
/// of the largest, and so on.
pub open spec fn reversed_by(s: Seq<(Seq<char>, int)>, p: Seq<usize>, r: Seq<(Seq<char>, int)>) -> bool {
    &&& r.len() == s.len()
    &&& forall|i: int| 0 <= i < s.len() ==> #[trigger] r[i].0 == s[i].0
    &&& forall|k: int|
        0 <= k < s.len() ==> #[trigger] r[p[k] as int].1 == share(
            s[p[s.len() - 1 - k] as int].1,
            total(s),
        )
}

/// The sum of the shares of `total` that the values are.
pub open spec fn share_sum(s: Seq<(Seq<char>, int)>, total: int) -> int
    decreases s.len(),
{
    if s.len() == 0 {
        0
    } else {
        share_sum(s.drop_last(), total) + share(s.last().1, total)
    }
}

proof fn lemma_proportional_total(s: Seq<(Seq<char>, int)>, t: int)
    ensures
        crate::normalizer::total(
            s.map_values(|p: (Seq<char>, int)| (p.0, share(p.1, t))),
        ) == share_sum(s, t),
    decreases s.len(),
{
    if s.len() > 0 {
        let f = |p: (Seq<char>, int)| (p.0, share(p.1, t));
        assert(s.map_values(f).drop_last() =~= s.drop_last().map_values(f));
        lemma_proportional_total(s.drop_last(), t);
    }
}

/// A share misses `value / total` by less than one millionth.
proof fn lemma_share_error(v: int, t: int)
    requires
        t != 0,
    ensures
        abs(v * UNIT - share(v, t) * t) < abs(t),
{
    let a = abs(v) * UNIT;
    let b = abs(t);
    let q = a / b;
    let r = a % b;
    assert(a == q * b + r && 0 <= r < b) by (nonlinear_arith)
        requires a >= 0, b > 0, q == a / b, r == a % b;
    if (v < 0) == (t < 0) {
        assert(share(v, t) == q);
        assert(share(v, t) * t == q * t);
        if v < 0 {
            assert(v * UNIT - q * t == -(a - q * b)) by (nonlinear_arith)
                requires a == abs(v) * UNIT, v < 0, b == -t, abs(v) == -v;
        } else {
            assert(v * UNIT - q * t == a - q * b) by (nonlinear_arith)
                requires a == v * UNIT, v >= 0, b == t;
        }
    } else {
        assert(share(v, t) == -q);
        assert(share(v, t) * t == -(q * t)) by (nonlinear_arith)
            requires share(v, t) == -q;
        if v < 0 {
            assert(v * UNIT + q * t == -(a - q * b)) by (nonlinear_arith)
                requires a == abs(v) * UNIT, v < 0, b == t, abs(v) == -v;
        } else {
            assert(v * UNIT + q * t == a - q * b) by (nonlinear_arith)
                requires a == v * UNIT, v >= 0, b == -t;
        }
    }
}

proof fn lemma_share_sum_error(s: Seq<(Seq<char>, int)>, t: int)
    requires
        t != 0,
    ensures
        abs(crate::normalizer::total(s) * UNIT - share_sum(s, t) * t) <= s.len() * (abs(t) - 1),
    decreases s.len(),
{
    if s.len() > 0 {
        lemma_share_sum_error(s.drop_last(), t);
        lemma_share_error(s.last().1, t);
        let d0 = crate::normalizer::total(s.drop_last()) * UNIT - share_sum(s.drop_last(), t) * t;
        let d1 = s.last().1 * UNIT - share(s.last().1, t) * t;
        assert(crate::normalizer::total(s) * UNIT - share_sum(s, t) * t == d0 + d1) by (nonlinear_arith)
            requires
                crate::normalizer::total(s) == crate::normalizer::total(s.drop_last()) + s.last().1,
                share_sum(s, t) == share_sum(s.drop_last(), t) + share(s.last().1, t),
                d0 == crate::normalizer::total(s.drop_last()) * UNIT - share_sum(s.drop_last(), t) * t,
                d1 == s.last().1 * UNIT - share(s.last().1, t) * t;
        assert(s.drop_last().len() * (abs(t) - 1) + (abs(t) - 1) == s.len() * (abs(t) - 1)) by (nonlinear_arith)
            requires s.drop_last().len() + 1 == s.len();
    }
}

/// Proportional scores of values with a non-zero sum add up to one whole,
/// missing it by less than one millionth per ticker.
pub proof fn lemma_shares_sum_to_unit(s: Seq<(Seq<char>, int)>)
    requires
        s.len() > 0,
        total(s) != 0,
    ensures
        abs(total(proportional(s)) - UNIT) < s.len(),
{
    let t = total(s);
    lemma_proportional_total(s, t);
    lemma_share_sum_error(s, t);
    let x = share_sum(s, t);
    let n = s.len() as int;
    assert(abs(x - UNIT) < n) by (nonlinear_arith)
        requires abs(t * UNIT - x * t) <= n * (abs(t) - 1), t != 0, n > 0;
}

pub open spec fn values(s: Seq<(Seq<char>, int)>) -> Seq<int> {
    s.map_values(|x: (Seq<char>, int)| x.1)
}

/// Reversal hands out exactly the shares that proportional ranking hands
/// out, only to other tickers: both give the same multiset of scores.
pub proof fn lemma_reversal_keeps_shares(
    s: Seq<(Seq<char>, int)>,
    p: Seq<usize>,
    r: Seq<(Seq<char>, int)>,
)
    requires
        is_sorting(s, p, false),
        reversed_by(s, p, r),
    ensures
        values(r).to_multiset() == values(proportional(s)).to_multiset(),
{
    let n = s.len() as int;
    let v = values(r);
    let w = values(proportional(s));
    let q = Seq::new(n as nat, |k: int| p[n - 1 - k]);
    assert(is_permutation(q, n)) by {
        assert forall|x: int, y: int| 0 <= x < n && 0 <= y < n && x != y implies q[x] != q[y] by {
            assert(q[x] == p[n - 1 - x] && q[y] == p[n - 1 - y]);
        }
    }
    lemma_permuted_multiset(v, p);
    lemma_permuted_multiset(w, q);
    let b1 = Seq::new(v.len(), |k: int| v[p[k] as int]);
    let b2 = Seq::new(w.len(), |k: int| w[q[k] as int]);
    assert(b1 =~= b2) by {
        assert forall|k: int| 0 <= k < n implies b1[k] == b2[k] by {
            assert(r[p[k] as int].1 == share(s[p[n - 1 - k] as int].1, total(s)));
        }
    }
}

/// For tickers with distinct names, reversal pairs the ticker at place `i`
/// of the ascending order with the value at place `n - 1 - i` of it,
/// whichever sorting order is named: there is only one.
pub proof fn lemma_reversal_determined(
    s: Seq<(Seq<char>, int)>,
    p: Seq<usize>,
    r: Seq<(Seq<char>, int)>,
    q: Seq<usize>,
)
    requires
        is_sorting(s, p, false),
        reversed_by(s, p, r),
        is_sorting(s, q, false),
        forall|i: int, j: int| 0 <= i < s.len() && 0 <= j < s.len() && i != j ==> s[i].0 != s[j].0,
    ensures
        reversed_by(s, q, r),
{
    lemma_sorting_unique(s, p, q, false);
}

/// With positive values, reversal gives a ticker with a smaller value a score
/// at least as large as one with a larger value.
pub proof fn lemma_reversal_order(
    s: Seq<(Seq<char>, int)>,
    p: Seq<usize>,
    r: Seq<(Seq<char>, int)>,
    i: int,
    j: int,
)
    requires
        is_sorting(s, p, false),
        reversed_by(s, p, r),
        forall|k: int| 0 <= k < s.len() ==> #[trigger] s[k].1 > 0,
        0 <= i < s.len(),
        0 <= j < s.len(),
        s[i].1 < s[j].1,
    ensures
        r[i].1 >= r[j].1,
{
    let n = s.len() as int;
    lemma_sorting_covers(s, p, false);
    assert(lists(p, i));
    assert(lists(p, j));
    let ki = choose|k: int| 0 <= k < p.len() && p[k] == i;
    let kj = choose|k: int| 0 <= k < p.len() && p[k] == j;
    if kj < ki {
        assert(!key_before(s[p[ki] as int], s[p[kj] as int], false));
    }
    assert(ki < kj);
    let hi = p[n - 1 - ki] as int;
    let lo = p[n - 1 - kj] as int;
    assert(!key_before(s[hi], s[lo], false));
    crate::rankers::lemma_positive_total(s);
    let t = total(s);
    assert(t > 0);
    assert(r[p[ki] as int].1 == share(s[hi].1, t));
    assert(r[p[kj] as int].1 == share(s[lo].1, t));
    assert(s[lo].1 * UNIT <= s[hi].1 * UNIT) by (nonlinear_arith)
        requires s[lo].1 <= s[hi].1;
    vstd::arithmetic::div_mod::lemma_div_is_ordered(s[lo].1 * UNIT, s[hi].1 * UNIT, t);
}

fn sum_notionals(candidates: &Vec<(Ticker, Notional)>) -> (r: i128)
    ensures
        r == total(notional_view(candidates@)),
{
    let n = candidates.len();
    let mut sum: i128 = 0;
    let mut i: usize = 0;
    while i < n
        invariant
            n == candidates@.len(),
            i <= n,
            sum == total(notional_view(candidates@).take(i as int)),
            -(i as int) * 0x8000_0000_0000_0000 <= sum <= (i as int) * 0x8000_0000_0000_0000,
        decreases n - i,
    {
        let ghost view = notional_view(candidates@);
        assert(view.take(i + 1).drop_last() =~= view.take(i as int));
        sum = sum + candidates[i].1.micros as i128;
        i = i + 1;
    }
    assert(notional_view(candidates@).take(n as int) =~= notional_view(candidates@));
    sum
}

/// Turns raw measurements into proportional scores.
pub struct NotionalRanker;

impl NotionalRanker {
    /// Each ticker's score is its value over the sum of all values, in
    /// millionths rounded toward zero; a zero sum gives every ticker zero.
    pub fn rank(&self, candidates: &Vec<(Ticker, Notional)>) -> (r: Vec<(Ticker, Score)>)
        ensures
            score_view(r@) == proportional(notional_view(candidates@)),
    {
        let total = sum_notionals(candidates);
        let n = candidates.len();
        let mut r: Vec<(Ticker, Score)> = Vec::new();
        let mut i: usize = 0;
        while i < n
            invariant
                n == candidates@.len(),
                i <= n,
                total == crate::normalizer::total(notional_view(candidates@)),
                score_view(r@) == proportional(notional_view(candidates@)).take(i as int),
            decreases n - i,
        {
            let v = candidates[i].1.micros as i128;
            let s = share_of(v, total);
            let ghost old_r = r@;
            let t = candidates[i].0.duplicate();
            r.push((t, Score { micros: s }));
            assert(score_view(r@) =~= score_view(old_r).push((t@, s as int)));
            assert(score_view(r@) =~= proportional(notional_view(candidates@)).take(i + 1));
            i = i + 1;
        }
        assert(proportional(notional_view(candidates@)).take(n as int) =~= proportional(
            notional_view(candidates@),
        ));
        r
    }

    /// Gives the smallest value the score that the largest would get from
    /// `rank`, the second smallest that of the second largest, and so on.
    /// Values are ordered ascending, equal values by ticker name.
    pub fn rank_reversed(&self, candidates: &Vec<(Ticker, Notional)>) -> (r: Vec<(Ticker, Score)>)
        ensures
            exists|p: Seq<usize>|
                is_sorting(notional_view(candidates@), p, false) && reversed_by(
                    notional_view(candidates@),
                    p,
                    score_view(r@),
                ),
    {
        let ghost view = notional_view(candidates@);
        let total = sum_notionals(candidates);
        let n = candidates.len();
        let mut keys: Vec<RankKey> = Vec::new();
        let mut scores: Vec<i128> = Vec::new();
        let mut i: usize = 0;
        while i < n
            invariant
                n == candidates@.len(),
                view == notional_view(candidates@),
                i <= n,
                keys_view(keys@) == view.take(i as int),
                scores@.len() == i,
            decreases n - i,
        {
            let ghost old_keys = keys@;
            let key = RankKey {
                name: candidates[i].0.name.clone(),
                value: candidates[i].1.micros as i128,
            };
            keys.push(key);
            assert(keys_view(keys@) =~= keys_view(old_keys).push(key@));
            scores.push(0);
            assert(keys_view(keys@) =~= view.take(i + 1));
            i = i + 1;
        }
        assert(view.take(n as int) =~= view);
        let p = sorted_positions(&keys, false);
        let mut k: usize = 0;
        while k < n
            invariant
                n == candidates@.len(),
                view == notional_view(candidates@),
                total == crate::normalizer::total(view),
                is_sorting(view, p@, false),
                scores@.len() == n,
                k <= n,
                forall|j: int|
                    0 <= j < k ==> #[trigger] scores@[p@[j] as int] == share(
                        view[p@[n - 1 - j] as int].1,
                        total as int,
                    ),
            decreases n - k,
        {
            let from = p[n - 1 - k];
            let v = candidates[from].1.micros as i128;
            let s = share_of(v, total);
            scores.set(p[k], s);
            proof {
                assert forall|j: int| 0 <= j < k + 1 implies #[trigger] scores@[p@[j] as int]
                    == share(view[p@[n - 1 - j] as int].1, total as int) by {
                    if j < k {
                        assert(p@[j] != p@[k as int]);
                    }
                }
            }
            k = k + 1;
        }
        let mut r: Vec<(Ticker, Score)> = Vec::new();
        let mut i: usize = 0;
        while i < n
            invariant
                n == candidates@.len(),
                scores@.len() == n,
                i <= n,
                r@.len() == i,
                forall|j: int|
                    0 <= j < i ==> #[trigger] r@[j].0@ == candidates@[j].0@ && r@[j].1.micros
                        == scores@[j],
            decreases n - i,
        {
            r.push((candidates[i].0.duplicate(), Score { micros: scores[i] }));
            i = i + 1;
        }
        assert(reversed_by(view, p@, score_view(r@)));
        r
    }
}

} // verus!
