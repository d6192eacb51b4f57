//! Weighted aggregation of several factor rankers into one score per ticker.
use vstd::prelude::*;
use itertools::Itertools;
use crate::candidates::{ScoringFactor, StockCandidates, Ticker};
use crate::fixed::{abs, weigh, weighted, Score, Weight, UNIT};
use crate::normalizer::score_view;
use crate::rankers::{ranks_as, unit_scores, FactorRanker, RankerKind};

verus! {

/// Why an aggregation run was refused.
#[derive(Debug, Clone, Copy, PartialEq, Eq, Structural)]
pub enum RankError {
    /// A registered ranker's factor has no entry in the weight table.
    MissingWeight(ScoringFactor),
    /// The scores are too large for their shares and percentages to be
    /// computed in 128 bits.
    ScoresOutOfRange,
}

/// The weight of `factor` in `table` (the last entry for it).
pub open spec fn weight_of(table: Seq<(ScoringFactor, Weight)>, factor: ScoringFactor) -> Option<int>
    decreases table.len(),
{
    if table.len() == 0 {
        None
    } else if table.last().0 == factor {
        Some(table.last().1.micros as int)
    } else {
        weight_of(table.drop_last(), factor)
    }
}

/// Every factor of `factors` has a weight.
pub open spec fn all_weighted(factors: Seq<ScoringFactor>, table: Seq<(ScoringFactor, Weight)>) -> bool {
    forall|k: int| 0 <= k < factors.len() ==> #[trigger] weight_of(table, factors[k]) is Some
}

/// `k` is the first place of `factors` whose factor has no weight.
pub open spec fn first_missing(
    factors: Seq<ScoringFactor>,
    table: Seq<(ScoringFactor, Weight)>,
    k: int,
) -> bool {
    &&& 0 <= k < factors.len()
    &&& weight_of(table, factors[k]) is None
    &&& all_weighted(factors.take(k), table)
}

/// A ranker's scores multiplied by `w`.
pub open spec fn weighted_output(out: Seq<(Seq<char>, int)>, w: int) -> Seq<(Seq<char>, int)> {
    out.map_values(|p: (Seq<char>, int)| (p.0, weighted(p.1, w)))
}

/// All weighted (name, score) pairs of the rankers' outputs, ranker by
/// ranker; `factors[k]` is the factor of `outs[k]`.
pub open spec fn weighted_terms(
    factors: Seq<ScoringFactor>,
    outs: Seq<Seq<(Seq<char>, int)>>,
    table: Seq<(ScoringFactor, Weight)>,
) -> Seq<(Seq<char>, int)>
    decreases outs.len(),
{
    if outs.len() == 0 || factors.len() == 0 {
        Seq::empty()
    } else {
        let w = match weight_of(table, factors.last()) {
            Some(w) => w,
            None => 0,
        };
        weighted_terms(factors.drop_last(), outs.drop_last(), table) + weighted_output(
            outs.last(),
            w,
        )
    }
}

/// The sum of the values paired with `name`.
pub open spec fn sum_for(s: Seq<(Seq<char>, int)>, name: Seq<char>) -> int
    decreases s.len(),
{
    if s.len() == 0 {
        0
    } else {
        sum_for(s.drop_last(), name) + if s.last().0 == name {
            s.last().1
        } else {
            0
        }
    }
}

/// The sum of the magnitudes of the values.
pub open spec fn abs_total(s: Seq<(Seq<char>, int)>) -> int
    decreases s.len(),
{
    if s.len() == 0 {
        0
    } else {
        abs_total(s.drop_last()) + abs(s.last().1)
    }
}

/// Some pair of `s` has `name`.
pub open spec fn has_name(s: Seq<(Seq<char>, int)>, name: Seq<char>) -> bool {
    exists|i: int| 0 <= i < s.len() && #[trigger] s[i].0 == name
}

/// `r` holds each name of `terms` once, with the sum of its values.
pub open spec fn grouped_sums(terms: Seq<(Seq<char>, int)>, r: Seq<(Seq<char>, int)>) -> bool {
    &&& forall|i: int, j: int| 0 <= i < j < r.len() ==> #[trigger] r[i].0 != #[trigger] r[j].0
    &&& forall|i: int| 0 <= i < r.len() ==> #[trigger] r[i].1 == sum_for(terms, r[i].0)
    &&& forall|name: Seq<char>| #[trigger] has_name(r, name) == has_name(terms, name)
}

/// A score that stays within 64 bits whatever weight it is given.
pub open spec fn bounded_score(s: int) -> bool {
    abs(s) <= 2_147_483_648 * UNIT
}

pub open spec fn pairs_view(s: Seq<(String, i128)>) -> Seq<(Seq<char>, int)> {
    s.map_values(|p: (String, i128)| (p.0@, p.1 as int))
}

pub open spec fn output_factors(outputs: Seq<(ScoringFactor, Vec<(Ticker, Score)>)>) -> Seq<
    ScoringFactor,
> {
    outputs.map_values(|o: (ScoringFactor, Vec<(Ticker, Score)>)| o.0)
}

pub open spec fn output_scores(outputs: Seq<(ScoringFactor, Vec<(Ticker, Score)>)>) -> Seq<
    Seq<(Seq<char>, int)>,
> {
    outputs.map_values(|o: (ScoringFactor, Vec<(Ticker, Score)>)| score_view(o.1@))
}

/// Relies on itertools::Itertools::into_grouping_map and GroupingMap::sum:
/// one pair per distinct name, holding the sum (by `+`) of that name's values.
#[verifier::external_body]
fn sum_by_name(terms: Vec<(String, i128)>) -> (r: Vec<(String, i128)>)
    requires
        abs_total(pairs_view(terms@)) <= i128::MAX,
    ensures
        grouped_sums(pairs_view(terms@), pairs_view(r@)),
{
    terms.into_iter().into_grouping_map().sum().into_iter().collect()
}

proof fn lemma_abs_total_bound(s: Seq<(Seq<char>, int)>, bound: int)
    requires
        forall|i: int| 0 <= i < s.len() ==> abs(#[trigger] s[i].1) <= bound,
    ensures
        abs_total(s) <= s.len() * bound,
    decreases s.len(),
{
    if s.len() > 0 {
        let t = s.drop_last();
        assert forall|i: int| 0 <= i < t.len() implies abs(#[trigger] t[i].1) <= bound by {
            assert(t[i] == s[i]);
        }
        lemma_abs_total_bound(t, bound);
        assert(s.last() == s[s.len() - 1]);
        assert(t.len() * bound + bound == s.len() * bound) by (nonlinear_arith)
            requires t.len() + 1 == s.len();
    }
}

fn lookup_weight(table: &Vec<(ScoringFactor, Weight)>, factor: ScoringFactor) -> (r: Option<Weight>)
    ensures
        match r {
            Some(w) => weight_of(table@, factor) == Some(w.micros as int),
            None => weight_of(table@, factor) is None,
        },
{
    let n = table.len();
    let mut i: usize = n;
    assert(table@.take(n as int) =~= table@);
    while i > 0
        invariant
            i <= n == table@.len(),
            weight_of(table@, factor) == weight_of(table@.take(i as int), factor),
        decreases i,
    {
        assert(table@.take(i as int).drop_last() =~= table@.take(i - 1));
        if table[i - 1].0 == factor {
            return Some(table[i - 1].1);
        }
        i = i - 1;
    }
    None
}

/// Multiplies each ranker output by its factor's weight and sums the results
/// by ticker. `outputs` pairs each ranker's factor with its scores.
pub fn combine(
    outputs: &Vec<(ScoringFactor, Vec<(Ticker, Score)>)>,
    weights: &Vec<(ScoringFactor, Weight)>,
) -> (r: Result<Vec<(Ticker, Score)>, RankError>)
    requires
        forall|k: int, i: int|
            0 <= k < outputs@.len() && 0 <= i < outputs@[k].1@.len() ==> bounded_score(
                #[trigger] outputs@[k].1@[i].1.micros as int,
            ),
    ensures
        match r {
            Ok(v) => all_weighted(output_factors(outputs@), weights@) && grouped_sums(
                weighted_terms(output_factors(outputs@), output_scores(outputs@), weights@),
                score_view(v@),
            ),
            Err(e) => exists|k: int|
                first_missing(output_factors(outputs@), weights@, k) && e
                    == RankError::MissingWeight(#[trigger] output_factors(outputs@)[k]),
        },
{
    let ghost fs = output_factors(outputs@);
    let ghost outs = output_scores(outputs@);
    let n = outputs.len();
    let mut ws: Vec<Weight> = Vec::new();
    let mut k: usize = 0;
    while k < n
        invariant
            n == outputs@.len(),
            fs == output_factors(outputs@),
            k <= n,
            ws@.len() == k,
            forall|j: int| 0 <= j < k ==> weight_of(weights@, fs[j]) == Some(#[trigger] ws@[j].micros as int),
        decreases n - k,
    {
        match lookup_weight(weights, outputs[k].0) {
            Some(w) => ws.push(w),
            None => {
                assert(first_missing(fs, weights@, k as int)) by {
                    assert forall|j: int| 0 <= j < k implies #[trigger] weight_of(weights@, fs.take(k as int)[j]) is Some by {
                        assert(fs.take(k as int)[j] == fs[j]);
                        assert(weight_of(weights@, fs[j]) == Some(ws@[j].micros as int));
                    }
                }
                return Err(RankError::MissingWeight(outputs[k].0));
            },
        }
        k = k + 1;
    }
    let mut terms: Vec<(String, i128)> = Vec::new();
    let mut k: usize = 0;
    while k < n
        invariant
            n == outputs@.len(),
            fs == output_factors(outputs@),
            outs == output_scores(outputs@),
            ws@.len() == n,
            forall|j: int| 0 <= j < n ==> weight_of(weights@, fs[j]) == Some(#[trigger] ws@[j].micros as int),
            forall|a: int, i: int|
                0 <= a < outputs@.len() && 0 <= i < outputs@[a].1@.len() ==> bounded_score(
                    #[trigger] outputs@[a].1@[i].1.micros as int,
                ),
            k <= n,
            pairs_view(terms@) == weighted_terms(fs.take(k as int), outs.take(k as int), weights@),
            forall|i: int| 0 <= i < terms@.len() ==> abs(#[trigger] terms@[i].1 as int) <= i64::MAX,
        decreases n - k,
    {
        let out = &outputs[k].1;
        let w = ws[k];
        let m = out.len();
        let ghost base = pairs_view(terms@);
        let mut i: usize = 0;
        while i < m
            invariant
                n == outputs@.len(),
                k < n,
                out == outputs@[k as int].1,
                m == out@.len(),
                i <= m,
                forall|a: int, b: int|
                    0 <= a < outputs@.len() && 0 <= b < outputs@[a].1@.len() ==> bounded_score(
                        #[trigger] outputs@[a].1@[b].1.micros as int,
                    ),
                pairs_view(terms@) == base + weighted_output(score_view(out@).take(i as int), w.micros as int),
                forall|j: int| 0 <= j < terms@.len() ==> abs(#[trigger] terms@[j].1 as int) <= i64::MAX,
            decreases m - i,
        {
            let score = out[i].1;
            assert(bounded_score(outputs@[k as int].1@[i as int].1.micros as int));
            let x = weigh(score, w);
            proof {
                let s = abs(score.micros as int);
                let wm = abs(w.micros as int);
                assert(s * wm / 1_000_000 <= i64::MAX) by (nonlinear_arith)
                    requires 0 <= s <= 2_147_483_648 * 1_000_000, 0 <= wm <= 0x8000_0000;
            }
            let ghost before = terms@;
            let name = out[i].0.name.clone();
            terms.push((name, x));
            assert(pairs_view(terms@) =~= pairs_view(before).push((name@, x as int)));
            assert(weighted_output(score_view(out@).take(i + 1), w.micros as int) =~= weighted_output(
                score_view(out@).take(i as int), w.micros as int).push((out@[i as int].0@, x as int)));
            i = i + 1;
        }
        proof {
            assert(score_view(out@).take(m as int) =~= score_view(out@));
            assert(fs.take(k + 1).drop_last() =~= fs.take(k as int));
            assert(outs.take(k + 1).drop_last() =~= outs.take(k as int));
            assert(outs.take(k + 1).last() == score_view(out@));
        }
        k = k + 1;
    }
    let count = terms.len();
    proof {
        assert(fs.take(n as int) =~= fs);
        assert(outs.take(n as int) =~= outs);
        lemma_abs_total_bound(pairs_view(terms@), i64::MAX as int);
        assert(count * (i64::MAX as int) <= i128::MAX) by (nonlinear_arith)
            requires count <= usize::MAX;
        assert forall|j: int| 0 <= j < n implies #[trigger] weight_of(weights@, fs[j]) is Some by {
            assert(weight_of(weights@, fs[j]) == Some(ws@[j].micros as int));
        }
    }
    let sums = sum_by_name(terms);
    let mut r: Vec<(Ticker, Score)> = Vec::new();
    let mut i: usize = 0;
    while i < sums.len()
        invariant
            i <= sums@.len(),
            score_view(r@) == pairs_view(sums@).take(i as int),
        decreases sums@.len() - i,
    {
        let ghost before = r@;
        let t = Ticker { name: sums[i].0.clone() };
        r.push((t, Score { micros: sums[i].1 }));
        assert(score_view(r@) =~= score_view(before).push((t@, sums@[i as int].1 as int)));
        assert(score_view(r@) =~= pairs_view(sums@).take(i + 1));
        i = i + 1;
    }
    assert(pairs_view(sums@).take(sums@.len() as int) =~= pairs_view(sums@));
    Ok(r)
}

pub open spec fn ranker_factors(rankers: Seq<FactorRanker>) -> Seq<ScoringFactor> {
    rankers.map_values(|r: FactorRanker| r.factor())
}

/// `r` sums by ticker the weighted outputs that `rankers` give for `entries`.
pub open spec fn aggregated(
    rankers: Seq<FactorRanker>,
    table: Seq<(ScoringFactor, Weight)>,
    entries: Seq<crate::candidates::CandidateEntry>,
    r: Seq<(Seq<char>, int)>,
) -> bool {
    exists|outs: Seq<Seq<(Seq<char>, int)>>|
        outs.len() == rankers.len() && (forall|k: int|
            0 <= k < outs.len() ==> ranks_as(
                entries,
                rankers[k].factor(),
                rankers[k].kind(),
                #[trigger] outs[k],
            )) && grouped_sums(weighted_terms(ranker_factors(rankers), outs, table), r)
}

/// Runs a list of factor rankers and combines their weighted scores.
pub struct StockRanker {
    pub rankers: Vec<FactorRanker>,
    pub factor_weight: Vec<(ScoringFactor, Weight)>,
}

impl Default for StockRanker {
    /// Dividend yield (greatest wins, weight 1), short-term price change
    /// (deepest fall wins, weight 4) and long-term price change (greatest
    /// wins, weight 5).
    fn default() -> (r: Self)
        ensures
            r.rankers@.len() == 3,
            r.rankers@[0].kind() == RankerKind::GreatestPositiveWins,
            r.rankers@[0].factor() == ScoringFactor::DividendYield,
            r.rankers@[1].kind() == RankerKind::DeepestNegativeWins,
            r.rankers@[1].factor() == ScoringFactor::ShortTermChange,
            r.rankers@[2].kind() == RankerKind::GreatestPositiveWins,
            r.rankers@[2].factor() == ScoringFactor::LongTermChange,
            r.factor_weight@ == seq![
                (ScoringFactor::DividendYield, Weight { micros: 1_000_000 }),
                (ScoringFactor::ShortTermChange, Weight { micros: 4_000_000 }),
                (ScoringFactor::LongTermChange, Weight { micros: 5_000_000 }),
            ],
            all_weighted(ranker_factors(r.rankers@), r.factor_weight@),
    {
        let rankers = vec![
            FactorRanker::of_kind(RankerKind::GreatestPositiveWins, ScoringFactor::DividendYield),
            FactorRanker::of_kind(RankerKind::DeepestNegativeWins, ScoringFactor::ShortTermChange),
            FactorRanker::of_kind(RankerKind::GreatestPositiveWins, ScoringFactor::LongTermChange),
        ];
        let factor_weight = vec![
            (ScoringFactor::DividendYield, Weight { micros: 1_000_000 }),
            (ScoringFactor::ShortTermChange, Weight { micros: 4_000_000 }),
            (ScoringFactor::LongTermChange, Weight { micros: 5_000_000 }),
        ];
        assert(factor_weight@ =~= seq![
            (ScoringFactor::DividendYield, Weight { micros: 1_000_000 }),
            (ScoringFactor::ShortTermChange, Weight { micros: 4_000_000 }),
            (ScoringFactor::LongTermChange, Weight { micros: 5_000_000 }),
        ]);
        proof {
            let fs = ranker_factors(rankers@);
            let t = factor_weight@;
            assert(t.drop_last().drop_last().drop_last() =~= Seq::empty());
            assert forall|k: int| 0 <= k < fs.len() implies #[trigger] weight_of(t, fs[k]) is Some by {
                assert(fs[k] == rankers@[k].factor());
                reveal_with_fuel(weight_of, 5);
            }
        }
        StockRanker { rankers, factor_weight }
    }
}

impl StockRanker {
    pub fn new(rankers: Vec<FactorRanker>, factor_weight: Vec<(ScoringFactor, Weight)>) -> (r: Self)
        ensures
            r.rankers == rankers,
            r.factor_weight == factor_weight,
    {
        StockRanker { rankers, factor_weight }
    }

    /// Runs every ranker on `candidates`, multiplies its scores by its
    /// factor's weight and sums them by ticker. Fails on the first ranker
    /// whose factor has no weight.
    pub fn rank(&self, candidates: &StockCandidates) -> (r: Result<Vec<(Ticker, Score)>, RankError>)
        ensures
            match r {
                Ok(v) => all_weighted(ranker_factors(self.rankers@), self.factor_weight@)
                    && aggregated(self.rankers@, self.factor_weight@, candidates.entries@, score_view(v@)),
                Err(e) => exists|k: int|
                    first_missing(ranker_factors(self.rankers@), self.factor_weight@, k) && e
                        == RankError::MissingWeight(#[trigger] ranker_factors(self.rankers@)[k]),
            },
    {
        let n = self.rankers.len();
        let mut outputs: Vec<(ScoringFactor, Vec<(Ticker, Score)>)> = Vec::new();
        let mut k: usize = 0;
        while k < n
            invariant
                n == self.rankers@.len(),
                k <= n,
                outputs@.len() == k,
                forall|j: int|
                    0 <= j < k ==> {
                        &&& (#[trigger] outputs@[j]).0 == self.rankers@[j].factor()
                        &&& ranks_as(
                            candidates.entries@,
                            self.rankers@[j].factor(),
                            self.rankers@[j].kind(),
                            score_view(outputs@[j].1@),
                        )
                        &&& unit_scores(score_view(outputs@[j].1@))
                    },
            decreases n - k,
        {
            let ranker = &self.rankers[k];
            let out = ranker.rank(candidates);
            outputs.push((ranker.get_factor(), out));
            k = k + 1;
        }
        proof {
            assert forall|a: int, i: int|
                0 <= a < outputs@.len() && 0 <= i < outputs@[a].1@.len() implies bounded_score(
                #[trigger] outputs@[a].1@[i].1.micros as int,
            ) by {
                assert(unit_scores(score_view(outputs@[a].1@)));
                assert(score_view(outputs@[a].1@)[i].1 == outputs@[a].1@[i].1.micros);
            }
            assert(output_factors(outputs@) =~= ranker_factors(self.rankers@));
        }
        let r = combine(&outputs, &self.factor_weight);
        proof {
            let outs = output_scores(outputs@);
            assert forall|j: int| 0 <= j < outs.len() implies ranks_as(
                candidates.entries@,
                self.rankers@[j].factor(),
                self.rankers@[j].kind(),
                #[trigger] outs[j],
            ) by {
                assert(outputs@[j].0 == self.rankers@[j].factor());
            }
        }
        r
    }
}

} // verus!
