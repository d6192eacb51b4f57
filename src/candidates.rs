//! Tickers, scoring factors and the candidate store.
use vstd::prelude::*;
use crate::fixed::Notional;

verus! {

/// Code name of a stock.
#[derive(Debug, Clone, PartialEq, Eq, Hash)]
pub struct Ticker {
    pub name: String,
}

impl View for Ticker {
    type V = Seq<char>;

    open spec fn view(&self) -> Seq<char> {
        self.name@
    }
}

impl Ticker {
    pub fn new(name: &str) -> (r: Ticker)
        ensures
            r@ == name@,
    {
        Ticker { name: String::from_str(name) }
    }

    /// A copy holding the same name.
    pub fn duplicate(&self) -> (r: Ticker)
        ensures
            r@ == self@,
    {
        Ticker { name: self.name.clone() }
    }

    /// Whether both tickers have the same name.
    pub fn same_as(&self, other: &Ticker) -> (r: bool)
        ensures
            r == (self@ == other@),
    {
        self.name == other.name
    }

    pub fn as_str(&self) -> (r: &str)
        ensures
            r@ == self@,
    {
        self.name.as_str()
    }
}

/// A kind of measurement about a ticker.
#[derive(Debug, Clone, Copy, PartialEq, Eq, Structural, Hash)]
pub enum ScoringFactor {
    /// Price over earnings.
    PeRatio,
    DividendYield,
    /// Price change over roughly one month.
    ShortTermChange,
    /// Price change over several years.
    LongTermChange,
    /// Price change over the exponential moving average of 20 days.
    PriceEma20Change,
    /// Price change over the exponential moving average of 200 days.
    PriceEma200Change,
}

/// The value of `factor` in a ticker's factor list (the last entry for it).
pub open spec fn factor_value(factors: Seq<(ScoringFactor, Notional)>, factor: ScoringFactor) -> Option<
    int,
>
    decreases factors.len(),
{
    if factors.len() == 0 {
        None
    } else if factors.last().0 == factor {
        Some(factors.last().1.micros as int)
    } else {
        factor_value(factors.drop_last(), factor)
    }
}

/// The value of `factor` in `factors`.
pub fn lookup_factor(factors: &Vec<(ScoringFactor, Notional)>, factor: ScoringFactor) -> (r: Option<Notional>)
    ensures
        match r {
            Some(n) => factor_value(factors@, factor) == Some(n.micros as int),
            None => factor_value(factors@, factor) is None,
        },
{
    let n = factors.len();
    let mut i: usize = n;
    assert(factors@.take(n as int) =~= factors@);
    while i > 0
        invariant
            i <= n == factors@.len(),
            factor_value(factors@, factor) == factor_value(factors@.take(i as int), factor),
        decreases i,
    {
        assert(factors@.take(i as int).drop_last() =~= factors@.take(i - 1));
        if factors[i - 1].0 == factor {
            return Some(factors[i - 1].1);
        }
        i = i - 1;
    }
    None
}

/// One ticker with its measured factors.
#[derive(Debug, Clone)]
pub struct CandidateEntry {
    pub ticker: Ticker,
    pub factors: Vec<(ScoringFactor, Notional)>,
}

/// Whether some entry is about `ticker`.
pub open spec fn has_ticker(entries: Seq<CandidateEntry>, ticker: Seq<char>) -> bool {
    exists|i: int| 0 <= i < entries.len() && #[trigger] entries[i].ticker@ == ticker
}

/// No two entries of a factor list name the same factor.
pub open spec fn distinct_factors(factors: Seq<(ScoringFactor, Notional)>) -> bool {
    forall|i: int, j: int|
        0 <= i < j < factors.len() ==> #[trigger] factors[i].0 != #[trigger] factors[j].0
}

/// `factors` with the value of `factor` set to `notional`: overwritten where
/// the factor is present, appended where it is not.
pub open spec fn with_factor(
    factors: Seq<(ScoringFactor, Notional)>,
    factor: ScoringFactor,
    notional: Notional,
) -> Seq<(ScoringFactor, Notional)> {
    if exists|j: int| 0 <= j < factors.len() && factors[j].0 == factor {
        factors.update(
            choose|j: int| 0 <= j < factors.len() && factors[j].0 == factor,
            (factor, notional),
        )
    } else {
        factors.push((factor, notional))
    }
}

/// The value of `factor` for `ticker`: looked up in the last entry about
/// the ticker.
pub open spec fn value_in(entries: Seq<CandidateEntry>, ticker: Seq<char>, factor: ScoringFactor) -> Option<
    int,
>
    decreases entries.len(),
{
    if entries.len() == 0 {
        None
    } else if entries.last().ticker@ == ticker {
        factor_value(entries.last().factors@, factor)
    } else {
        value_in(entries.drop_last(), ticker, factor)
    }
}

/// No two entries are about the same ticker.
pub open spec fn distinct_tickers(entries: Seq<CandidateEntry>) -> bool {
    forall|i: int, j: int|
        0 <= i < j < entries.len() ==> #[trigger] entries[i].ticker@ != #[trigger] entries[j].ticker@
}

proof fn lemma_factor_value_update(fs: Seq<(ScoringFactor, Notional)>, j: int, x: (ScoringFactor, Notional), g: ScoringFactor)
    requires
        distinct_factors(fs),
        0 <= j < fs.len(),
        fs[j].0 == x.0,
    ensures
        factor_value(fs.update(j, x), g) == if g == x.0 {
            Some(x.1.micros as int)
        } else {
            factor_value(fs, g)
        },
    decreases fs.len(),
{
    let u = fs.update(j, x);
    if j == fs.len() - 1 {
        assert(u.drop_last() =~= fs.drop_last());
    } else {
        assert(u.drop_last() =~= fs.drop_last().update(j, x));
        assert(fs.last() == fs[fs.len() - 1]);
        assert(fs[j].0 != fs[fs.len() - 1].0);
        lemma_factor_value_update(fs.drop_last(), j, x, g);
    }
}

proof fn lemma_with_factor_value(fs: Seq<(ScoringFactor, Notional)>, f: ScoringFactor, n: Notional, g: ScoringFactor)
    requires
        distinct_factors(fs),
    ensures
        factor_value(with_factor(fs, f, n), g) == if g == f {
            Some(n.micros as int)
        } else {
            factor_value(fs, g)
        },
{
    if exists|j: int| 0 <= j < fs.len() && fs[j].0 == f {
        let j = choose|j: int| 0 <= j < fs.len() && fs[j].0 == f;
        lemma_factor_value_update(fs, j, (f, n), g);
    } else {
        assert(fs.push((f, n)).drop_last() =~= fs);
    }
}

proof fn lemma_value_in_entry(entries: Seq<CandidateEntry>, k: int, g: ScoringFactor)
    requires
        distinct_tickers(entries),
        0 <= k < entries.len(),
    ensures
        value_in(entries, entries[k].ticker@, g) == factor_value(entries[k].factors@, g),
    decreases entries.len(),
{
    if k < entries.len() - 1 {
        assert(entries.last() == entries[entries.len() - 1]);
        assert(entries[k].ticker@ != entries[entries.len() - 1].ticker@);
        assert(entries.drop_last()[k] == entries[k]);
        lemma_value_in_entry(entries.drop_last(), k, g);
    }
}

proof fn lemma_value_in_update(entries: Seq<CandidateEntry>, k: int, e: CandidateEntry, t: Seq<char>, g: ScoringFactor)
    requires
        distinct_tickers(entries),
        0 <= k < entries.len(),
        e.ticker@ == entries[k].ticker@,
    ensures
        value_in(entries.update(k, e), t, g) == if t == e.ticker@ {
            factor_value(e.factors@, g)
        } else {
            value_in(entries, t, g)
        },
    decreases entries.len(),
{
    let u = entries.update(k, e);
    if k == entries.len() - 1 {
        assert(u.drop_last() =~= entries.drop_last());
        if t != e.ticker@ {
        } else {
        }
    } else {
        assert(u.drop_last() =~= entries.drop_last().update(k, e));
        assert(entries.last() == entries[entries.len() - 1]);
        assert(entries[k].ticker@ != entries[entries.len() - 1].ticker@);
        assert(entries.drop_last()[k] == entries[k]);
        lemma_value_in_update(entries.drop_last(), k, e, t, g);
    }
}

/// Some factor of `ticker` has a value in `entries`.
pub open spec fn valued(entries: Seq<CandidateEntry>, ticker: Seq<char>) -> bool {
    exists|g: ScoringFactor| #[trigger] value_in(entries, ticker, g) is Some
}

/// Some override sets a factor of `ticker`.
pub open spec fn set_by_overrides(
    overrides: Seq<(String, Vec<(ScoringFactor, Notional)>)>,
    ticker: Seq<char>,
) -> bool {
    exists|g: ScoringFactor| #[trigger] override_value(overrides, ticker, g) is Some
}

proof fn lemma_factor_value_present(fs: Seq<(ScoringFactor, Notional)>, k: int)
    requires
        0 <= k < fs.len(),
    ensures
        factor_value(fs, fs[k].0) is Some,
    decreases fs.len(),
{
    if k < fs.len() - 1 && fs.last().0 != fs[k].0 {
        assert(fs.drop_last()[k] == fs[k]);
        lemma_factor_value_present(fs.drop_last(), k);
    }
}

/// In a store without duplicate tickers and without empty entries, the
/// tickers are exactly those that have a value.
pub proof fn lemma_tickers_are_valued(entries: Seq<CandidateEntry>)
    requires
        distinct_tickers(entries),
        forall|i: int| 0 <= i < entries.len() ==> #[trigger] entries[i].factors@.len() > 0,
    ensures
        forall|t: Seq<char>| #[trigger] has_ticker(entries, t) == valued(entries, t),
{
    assert forall|t: Seq<char>| #[trigger] has_ticker(entries, t) == valued(entries, t) by {
        if has_ticker(entries, t) {
            let i = choose|i: int| 0 <= i < entries.len() && #[trigger] entries[i].ticker@ == t;
            let fs = entries[i].factors@;
            assert(fs.len() > 0);
            lemma_factor_value_present(fs, 0);
            lemma_value_in_entry(entries, i, fs[0].0);
            assert(value_in(entries, t, fs[0].0) is Some);
        } else {
            assert forall|g: ScoringFactor| !(#[trigger] value_in(entries, t, g) is Some) by {
                lemma_value_in_absent(entries, t, g);
            }
        }
    }
}

proof fn lemma_value_in_absent(entries: Seq<CandidateEntry>, t: Seq<char>, g: ScoringFactor)
    requires
        !has_ticker(entries, t),
    ensures
        value_in(entries, t, g) is None,
    decreases entries.len(),
{
    if entries.len() > 0 {
        assert(entries.last() == entries[entries.len() - 1]);
        assert forall|i: int| 0 <= i < entries.drop_last().len() implies #[trigger] entries.drop_last()[i].ticker@ != t by {
            assert(entries.drop_last()[i] == entries[i]);
        }
        lemma_value_in_absent(entries.drop_last(), t, g);
    }
}

/// The value of `factor` for `ticker` in a list of overrides: the last
/// override that sets it.
pub open spec fn override_value(
    overrides: Seq<(String, Vec<(ScoringFactor, Notional)>)>,
    ticker: Seq<char>,
    factor: ScoringFactor,
) -> Option<int>
    decreases overrides.len(),
{
    if overrides.len() == 0 {
        None
    } else if overrides.last().0@ == ticker && factor_value(overrides.last().1@, factor) is Some {
        factor_value(overrides.last().1@, factor)
    } else {
        override_value(overrides.drop_last(), ticker, factor)
    }
}

/// Per-ticker, per-factor measurements: at most one value for each
/// (ticker, factor) pair, the last write winning.
#[derive(Debug, Clone)]
pub struct StockCandidates {
    pub entries: Vec<CandidateEntry>,
}

impl StockCandidates {
    /// Each ticker has one entry, and each entry names a factor at most once.
    pub open spec fn wf(&self) -> bool {
        &&& distinct_tickers(self.entries@)
        &&& forall|i: int|
            0 <= i < self.entries@.len() ==> distinct_factors(#[trigger] self.entries@[i].factors@)
        &&& forall|i: int| 0 <= i < self.entries@.len() ==> #[trigger] self.entries@[i].factors@.len() > 0
    }

    pub fn new() -> (r: StockCandidates)
        ensures
            r.wf(),
            r.entries@.len() == 0,
    {
        StockCandidates { entries: Vec::new() }
    }

    /// The entries, one per ticker, in the order the tickers were first added.
    pub fn iter(&self) -> (r: &Vec<CandidateEntry>)
        ensures
            r@ == self.entries@,
    {
        &self.entries
    }

    /// A store holding the values that `overrides` sets, keyed by the raw
    /// ticker text; of two overrides of one (ticker, factor) pair the later wins.
    pub fn from_overrides(overrides: &Vec<(String, Vec<(ScoringFactor, Notional)>)>) -> (r: StockCandidates)
        ensures
            r.wf(),
            forall|t: Seq<char>, g: ScoringFactor|
                #[trigger] value_in(r.entries@, t, g) == override_value(overrides@, t, g),
            forall|t: Seq<char>| #[trigger] has_ticker(r.entries@, t) == set_by_overrides(overrides@, t),
    {
        let mut store = StockCandidates::new();
        let n = overrides.len();
        let mut i: usize = 0;
        while i < n
            invariant
                n == overrides@.len(),
                i <= n,
                store.wf(),
                forall|t: Seq<char>, g: ScoringFactor|
                    #[trigger] value_in(store.entries@, t, g) == override_value(
                        overrides@.take(i as int),
                        t,
                        g,
                    ),
            decreases n - i,
        {
            let name = &overrides[i].0;
            let fs = &overrides[i].1;
            let m = fs.len();
            let mut j: usize = 0;
            while j < m
                invariant
                    n == overrides@.len(),
                    i < n,
                    name == overrides@[i as int].0,
                    fs == overrides@[i as int].1,
                    m == fs@.len(),
                    j <= m,
                    store.wf(),
                    forall|t: Seq<char>, g: ScoringFactor|
                        #[trigger] value_in(store.entries@, t, g) == if t == name@ && factor_value(
                            fs@.take(j as int),
                            g,
                        ) is Some {
                            factor_value(fs@.take(j as int), g)
                        } else {
                            override_value(overrides@.take(i as int), t, g)
                        },
                decreases m - j,
            {
                assert(fs@.take(j + 1).drop_last() =~= fs@.take(j as int));
                assert(fs@.take(j + 1).last() == fs@[j as int]);
                store.add_candidate(Ticker { name: name.clone() }, fs[j].0, fs[j].1);
                j = j + 1;
            }
            proof {
                assert(fs@.take(m as int) =~= fs@);
                assert(overrides@.take(i + 1).drop_last() =~= overrides@.take(i as int));
                assert(overrides@.take(i + 1).last() == overrides@[i as int]);
            }
            i = i + 1;
        }
        assert(overrides@.take(n as int) =~= overrides@);
        proof {
            lemma_tickers_are_valued(store.entries@);
            assert forall|t: Seq<char>| #[trigger] has_ticker(store.entries@, t) == set_by_overrides(overrides@, t) by {
                if set_by_overrides(overrides@, t) {
                    let g = choose|g: ScoringFactor| #[trigger] override_value(overrides@, t, g) is Some;
                    assert(value_in(store.entries@, t, g) is Some);
                }
                if valued(store.entries@, t) {
                    let g = choose|g: ScoringFactor| #[trigger] value_in(store.entries@, t, g) is Some;
                    assert(override_value(overrides@, t, g) is Some);
                }
            }
        }
        store
    }

    /// Inserts or overwrites the value of `factor` for `ticker`.
    pub fn add_candidate(&mut self, ticker: Ticker, factor: ScoringFactor, notional: Notional)
        requires
            old(self).wf(),
        ensures
            final(self).wf(),
            forall|k: int|
                0 <= k < old(self).entries@.len() && #[trigger] old(self).entries@[k].ticker@
                    == ticker@ ==> {
                    &&& final(self).entries@.len() == old(self).entries@.len()
                    &&& final(self).entries@[k].ticker == old(self).entries@[k].ticker
                    &&& final(self).entries@[k].factors@ == with_factor(
                        old(self).entries@[k].factors@,
                        factor,
                        notional,
                    )
                    &&& forall|i: int|
                        0 <= i < old(self).entries@.len() && i != k ==> #[trigger] final(self).entries@[i]
                            == old(self).entries@[i]
                },
            forall|t: Seq<char>, g: ScoringFactor|
                #[trigger] value_in(final(self).entries@, t, g) == if t == ticker@ && g == factor {
                    Some(notional.micros as int)
                } else {
                    value_in(old(self).entries@, t, g)
                },
            !has_ticker(old(self).entries@, ticker@) ==> {
                &&& final(self).entries@.len() == old(self).entries@.len() + 1
                &&& final(self).entries@.drop_last() == old(self).entries@
                &&& final(self).entries@.last().ticker == ticker
                &&& final(self).entries@.last().factors@ == seq![(factor, notional)]
            },
    {
        let n = self.entries.len();
        let mut k: usize = 0;
        while k < n && !self.entries[k].ticker.same_as(&ticker)
            invariant
                n == self.entries@.len(),
                self.entries@ == old(self).entries@,
                k <= n,
                forall|j: int| 0 <= j < k ==> self.entries@[j].ticker@ != ticker@,
            decreases n - k,
        {
            k = k + 1;
        }
        if k < n {
            let mut entry = self.entries.remove(k);
            let m = entry.factors.len();
            let mut j: usize = 0;
            while j < m && entry.factors[j].0 != factor
                invariant
                    m == entry.factors@.len(),
                    entry == old(self).entries@[k as int],
                    j <= m,
                    forall|i: int| 0 <= i < j ==> entry.factors@[i].0 != factor,
                decreases m - j,
            {
                j = j + 1;
            }
            let ghost old_factors = entry.factors@;
            if j < m {
                entry.factors[j] = (factor, notional);
                proof {
                    let c = choose|i: int| 0 <= i < old_factors.len() && old_factors[i].0 == factor;
                    assert(distinct_factors(old_factors));
                    assert(c == j);
                }
            } else {
                entry.factors.push((factor, notional));
            }
            assert(entry.factors@ == with_factor(old_factors, factor, notional));
            self.entries.insert(k, entry);
            assert(self.entries@ =~= old(self).entries@.update(k as int, entry));
            proof {
                let old_entries = old(self).entries@;
                assert(distinct_factors(old_factors));
                assert forall|t: Seq<char>, g: ScoringFactor|
                    #[trigger] value_in(self.entries@, t, g) == if t == ticker@ && g == factor {
                        Some(notional.micros as int)
                    } else {
                        value_in(old_entries, t, g)
                    } by {
                    lemma_value_in_update(old_entries, k as int, entry, t, g);
                    lemma_with_factor_value(old_factors, factor, notional, g);
                    lemma_value_in_entry(old_entries, k as int, g);
                }
            }
        } else {
            let mut factors: Vec<(ScoringFactor, Notional)> = Vec::new();
            factors.push((factor, notional));
            assert(factors@ =~= seq![(factor, notional)]);
            let ghost tv = ticker@;
            self.entries.push(CandidateEntry { ticker, factors });
            assert(self.entries@.drop_last() =~= old(self).entries@);
            proof {
                let old_entries = old(self).entries@;
                assert(seq![(factor, notional)].drop_last() =~= Seq::<(ScoringFactor, Notional)>::empty());
                assert forall|t: Seq<char>, g: ScoringFactor|
                    #[trigger] value_in(self.entries@, t, g) == if t == tv && g == factor {
                        Some(notional.micros as int)
                    } else {
                        value_in(old_entries, t, g)
                    } by {
                    let e = self.entries@.last();
                    assert(e.ticker@ == tv);
                    assert(e.factors@ == seq![(factor, notional)]);
                    assert(self.entries@.drop_last() == old_entries);
                    if t == tv {
                        lemma_value_in_absent(old_entries, t, g);
                        assert(e.factors@.drop_last() =~= Seq::<(ScoringFactor, Notional)>::empty());
                        assert(e.factors@.last() == (factor, notional));
                        assert(factor_value(e.factors@.drop_last(), g) is None);
                        assert(value_in(self.entries@, t, g) == factor_value(e.factors@, g));
                        assert(factor_value(e.factors@, g) == if g == factor {
                            Some(notional.micros as int)
                        } else {
                            None
                        });
                    } else {
                        assert(value_in(self.entries@, t, g) == value_in(old_entries, t, g));
                    }
                }
            }
        }
    }
}

} // verus!
