//! Factor rankers: each picks the measurements of one factor that matter to
//! it and turns them into proportional scores.
use vstd::prelude::*;
use crate::candidates::{
    factor_value, lookup_factor, CandidateEntry, ScoringFactor, StockCandidates, Ticker,
};
use crate::fixed::{share, Notional, Score, UNIT};
use crate::normalizer::{
    notional_view, proportional, reversed_by, score_view, total, NotionalRanker,
};
use crate::ordering::{is_sorting, lemma_sorting_covers, lists};

verus! {

/// Which measurements a ranker keeps, and how it scores them.
#[derive(Debug, Clone, Copy, PartialEq, Eq, Structural)]
pub enum RankerKind {
    /// Keeps positive values; the greatest scores highest.
    GreatestPositiveWins,
    /// Keeps positive values; the least scores highest.
    LeastPositiveWins,
    /// Keeps negative values by their magnitude; the deepest scores highest.
    DeepestNegativeWins,
}

/// What a ranker of `kind` feeds into the normalizer for a value `v`
/// (the magnitude of the most negative value is capped at `i64::MAX`).
pub open spec fn picked(v: int, kind: RankerKind) -> Option<int> {
    match kind {
        RankerKind::DeepestNegativeWins => if v < 0 {
            Some(if v == i64::MIN { i64::MAX as int } else { -v })
        } else {
            None
        },
        _ => if v > 0 {
            Some(v)
        } else {
            None
        },
    }
}

/// The (ticker, value) pairs that a ranker of `kind` on `factor` feeds into
/// the normalizer, in the order of `entries`.
pub open spec fn selection(entries: Seq<CandidateEntry>, factor: ScoringFactor, kind: RankerKind) -> Seq<
    (Seq<char>, int),
>
    decreases entries.len(),
{
    if entries.len() == 0 {
        Seq::empty()
    } else {
        let rest = selection(entries.drop_last(), factor, kind);
        match factor_value(entries.last().factors@, factor) {
            Some(v) => match picked(v, kind) {
                Some(x) => rest.push((entries.last().ticker@, x)),
                None => rest,
            },
            None => rest,
        }
    }
}

/// `r` is what a ranker of `kind` on `factor` gives for `entries`.
pub open spec fn ranks_as(
    entries: Seq<CandidateEntry>,
    factor: ScoringFactor,
    kind: RankerKind,
    r: Seq<(Seq<char>, int)>,
) -> bool {
    let s = selection(entries, factor, kind);
    match kind {
        RankerKind::LeastPositiveWins => exists|p: Seq<usize>|
            is_sorting(s, p, false) && reversed_by(s, p, r),
        _ => r == proportional(s),
    }
}

/// Every score lies between zero and one.
pub open spec fn unit_scores(r: Seq<(Seq<char>, int)>) -> bool {
    forall|i: int| 0 <= i < r.len() ==> 0 <= #[trigger] r[i].1 <= UNIT
}

proof fn lemma_selection_positive(entries: Seq<CandidateEntry>, factor: ScoringFactor, kind: RankerKind)
    ensures
        forall|i: int|
            0 <= i < selection(entries, factor, kind).len() ==> #[trigger] selection(
                entries,
                factor,
                kind,
            )[i].1 > 0,
    decreases entries.len(),
{
    if entries.len() > 0 {
        lemma_selection_positive(entries.drop_last(), factor, kind);
        let rest = selection(entries.drop_last(), factor, kind);
        let s = selection(entries, factor, kind);
        assert forall|i: int| 0 <= i < s.len() implies #[trigger] s[i].1 > 0 by {
            if i < rest.len() {
                assert(s[i] == rest[i]);
            }
        }
    }
}

pub(crate) proof fn lemma_positive_total(s: Seq<(Seq<char>, int)>)
    requires
        forall|i: int| 0 <= i < s.len() ==> #[trigger] s[i].1 > 0,
    ensures
        total(s) >= 0,
        forall|i: int| 0 <= i < s.len() ==> #[trigger] s[i].1 <= total(s),
    decreases s.len(),
{
    if s.len() > 0 {
        let t = s.drop_last();
        assert forall|i: int| 0 <= i < t.len() implies #[trigger] t[i].1 > 0 by {
            assert(t[i] == s[i]);
        }
        lemma_positive_total(t);
        assert forall|i: int| 0 <= i < s.len() implies #[trigger] s[i].1 <= total(s) by {
            if i < t.len() {
                assert(t[i] == s[i]);
            }
        }
    }
}

proof fn lemma_share_in_unit(v: int, t: int)
    requires
        0 < v <= t,
    ensures
        0 <= share(v, t) <= UNIT,
{
    assert(v * 1_000_000 / t <= 1_000_000) by (nonlinear_arith)
        requires 0 < v <= t;
    assert(v * 1_000_000 / t >= 0) by (nonlinear_arith)
        requires 0 < v <= t;
}

/// The pairs that a ranker of `kind` on `factor` keeps, in store order.
fn select(candidates: &StockCandidates, factor: ScoringFactor, kind: RankerKind) -> (r: Vec<
    (Ticker, Notional),
>)
    ensures
        notional_view(r@) == selection(candidates.entries@, factor, kind),
{
    let entries = &candidates.entries;
    let n = entries.len();
    let mut r: Vec<(Ticker, Notional)> = Vec::new();
    let mut i: usize = 0;
    while i < n
        invariant
            n == entries@.len(),
            i <= n,
            notional_view(r@) == selection(entries@.take(i as int), factor, kind),
        decreases n - i,
    {
        assert(entries@.take(i + 1).drop_last() =~= entries@.take(i as int));
        assert(entries@.take(i + 1).last() == entries@[i as int]);
        let ghost old_r = r@;
        if let Some(notional) = lookup_factor(&entries[i].factors, factor) {
            let v = notional.micros;
            let keep = match kind {
                RankerKind::DeepestNegativeWins => v < 0,
                _ => v > 0,
            };
            if keep {
                let x: i64 = match kind {
                    RankerKind::DeepestNegativeWins => if v == i64::MIN {
                        i64::MAX
                    } else {
                        -v
                    },
                    _ => v,
                };
                let t = entries[i].ticker.duplicate();
                r.push((t, Notional { micros: x }));
                assert(notional_view(r@) =~= notional_view(old_r).push((t@, x as int)));
            }
        }
        i = i + 1;
    }
    assert(entries@.take(n as int) =~= entries@);
    r
}

/// Ranks a factor's positive values: the greatest wins.
pub struct PositiveGreatestWinningRanker {
    pub notional_ranker: NotionalRanker,
    pub factor_type: ScoringFactor,
}

impl PositiveGreatestWinningRanker {
    pub fn new(factor_type: ScoringFactor) -> (r: Self)
        ensures
            r.factor_type == factor_type,
    {
        PositiveGreatestWinningRanker { notional_ranker: NotionalRanker, factor_type }
    }

    pub fn rank(&self, candidates: &StockCandidates) -> (r: Vec<(Ticker, Score)>)
        ensures
            score_view(r@) == proportional(
                selection(candidates.entries@, self.factor_type, RankerKind::GreatestPositiveWins),
            ),
    {
        let selected = select(candidates, self.factor_type, RankerKind::GreatestPositiveWins);
        self.notional_ranker.rank(&selected)
    }

    pub fn get_factor(&self) -> (r: ScoringFactor)
        ensures
            r == self.factor_type,
    {
        self.factor_type
    }
}

/// Ranks a factor's positive values: the least wins.
pub struct PositiveLeastWinningRanker {
    pub notional_ranker: NotionalRanker,
    pub factor_type: ScoringFactor,
}

impl PositiveLeastWinningRanker {
    pub fn new(factor_type: ScoringFactor) -> (r: Self)
        ensures
            r.factor_type == factor_type,
    {
        PositiveLeastWinningRanker { notional_ranker: NotionalRanker, factor_type }
    }

    pub fn rank(&self, candidates: &StockCandidates) -> (r: Vec<(Ticker, Score)>)
        ensures
            ranks_as(
                candidates.entries@,
                self.factor_type,
                RankerKind::LeastPositiveWins,
                score_view(r@),
            ),
    {
        let selected = select(candidates, self.factor_type, RankerKind::LeastPositiveWins);
        self.notional_ranker.rank_reversed(&selected)
    }

    pub fn get_factor(&self) -> (r: ScoringFactor)
        ensures
            r == self.factor_type,
    {
        self.factor_type
    }
}

/// Ranks a factor's negative values by magnitude: the deepest wins.
pub struct NegativeLeastWinningRanker {
    pub notional_ranker: NotionalRanker,
    pub factor_type: ScoringFactor,
}

impl NegativeLeastWinningRanker {
    pub fn new(factor_type: ScoringFactor) -> (r: Self)
        ensures
            r.factor_type == factor_type,
    {
        NegativeLeastWinningRanker { notional_ranker: NotionalRanker, factor_type }
    }

    pub fn rank(&self, candidates: &StockCandidates) -> (r: Vec<(Ticker, Score)>)
        ensures
            score_view(r@) == proportional(
                selection(candidates.entries@, self.factor_type, RankerKind::DeepestNegativeWins),
            ),
    {
        let selected = select(candidates, self.factor_type, RankerKind::DeepestNegativeWins);
        self.notional_ranker.rank(&selected)
    }

    pub fn get_factor(&self) -> (r: ScoringFactor)
        ensures
            r == self.factor_type,
    {
        self.factor_type
    }
}

/// One of the three ranking strategies, bound to a factor.
pub enum FactorRanker {
    PositiveGreatestWinning(PositiveGreatestWinningRanker),
    PositiveLeastWinning(PositiveLeastWinningRanker),
    NegativeLeastWinning(NegativeLeastWinningRanker),
}

impl FactorRanker {
    pub open spec fn kind(&self) -> RankerKind {
        match self {
            FactorRanker::PositiveGreatestWinning(_) => RankerKind::GreatestPositiveWins,
            FactorRanker::PositiveLeastWinning(_) => RankerKind::LeastPositiveWins,
            FactorRanker::NegativeLeastWinning(_) => RankerKind::DeepestNegativeWins,
        }
    }

    pub open spec fn factor(&self) -> ScoringFactor {
        match self {
            FactorRanker::PositiveGreatestWinning(r) => r.factor_type,
            FactorRanker::PositiveLeastWinning(r) => r.factor_type,
            FactorRanker::NegativeLeastWinning(r) => r.factor_type,
        }
    }

    /// A ranker of `kind` on `factor`.
    pub fn of_kind(kind: RankerKind, factor: ScoringFactor) -> (r: Self)
        ensures
            r.kind() == kind,
            r.factor() == factor,
    {
        match kind {
            RankerKind::GreatestPositiveWins => FactorRanker::PositiveGreatestWinning(
                PositiveGreatestWinningRanker::new(factor),
            ),
            RankerKind::LeastPositiveWins => FactorRanker::PositiveLeastWinning(
                PositiveLeastWinningRanker::new(factor),
            ),
            RankerKind::DeepestNegativeWins => FactorRanker::NegativeLeastWinning(
                NegativeLeastWinningRanker::new(factor),
            ),
        }
    }

    pub fn rank(&self, candidates: &StockCandidates) -> (r: Vec<(Ticker, Score)>)
        ensures
            ranks_as(candidates.entries@, self.factor(), self.kind(), score_view(r@)),
            unit_scores(score_view(r@)),
    {
        let r = match self {
            FactorRanker::PositiveGreatestWinning(x) => x.rank(candidates),
            FactorRanker::PositiveLeastWinning(x) => x.rank(candidates),
            FactorRanker::NegativeLeastWinning(x) => x.rank(candidates),
        };
        proof {
            let s = selection(candidates.entries@, self.factor(), self.kind());
            lemma_selection_positive(candidates.entries@, self.factor(), self.kind());
            lemma_positive_total(s);
            let v = score_view(r@);
            if self.kind() == RankerKind::LeastPositiveWins {
                let p = choose|p: Seq<usize>| is_sorting(s, p, false) && reversed_by(s, p, v);
                assert forall|i: int| 0 <= i < v.len() implies 0 <= #[trigger] v[i].1 <= UNIT by {
                    lemma_sorting_covers(s, p, false);
                    assert(lists(p, i));
                    let k = choose|k: int| 0 <= k < p.len() && p[k] == i;
                    let m = p[s.len() - 1 - k] as int;
                    lemma_share_in_unit(s[m].1, total(s));
                }
            } else {
                assert forall|i: int| 0 <= i < v.len() implies 0 <= #[trigger] v[i].1 <= UNIT by {
                    lemma_share_in_unit(s[i].1, total(s));
                }
            }
        }
        r
    }

    pub fn get_factor(&self) -> (r: ScoringFactor)
        ensures
            r == self.factor(),
    {
        match self {
            FactorRanker::PositiveGreatestWinning(x) => x.get_factor(),
            FactorRanker::PositiveLeastWinning(x) => x.get_factor(),
            FactorRanker::NegativeLeastWinning(x) => x.get_factor(),
        }
    }
}

} // verus!
