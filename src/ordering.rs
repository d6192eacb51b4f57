//! The total order used to sort scored tickers, and the sort itself.
use vstd::prelude::*;
use std::cmp::Ordering;
use itertools::Itertools;

verus! {

/// `a` comes strictly before `b` in lexicographic order of code points.
pub open spec fn name_lt(a: Seq<char>, b: Seq<char>) -> bool {
    exists|k: int|
        0 <= k <= a.len() && k <= b.len() && a.subrange(0, k) == b.subrange(0, k) && ((k == a.len()
            && k < b.len()) || (k < a.len() && k < b.len() && a[k] < b[k]))
}

/// `a` comes strictly before `b`: by value (ascending, or descending when
/// `descending` holds), then by name ascending.
pub open spec fn key_before(a: (Seq<char>, int), b: (Seq<char>, int), descending: bool) -> bool {
    (if descending {
        a.1 > b.1
    } else {
        a.1 < b.1
    }) || (a.1 == b.1 && name_lt(a.0, b.0))
}

proof fn lemma_prefix_char(a: Seq<char>, b: Seq<char>, k: int, i: int)
    requires
        0 <= i < k <= a.len(),
        k <= b.len(),
        a.subrange(0, k) == b.subrange(0, k),
    ensures
        a[i] == b[i],
{
    assert(a.subrange(0, k)[i] == a[i]);
    assert(b.subrange(0, k)[i] == b[i]);
}

proof fn lemma_prefix_shorter(a: Seq<char>, b: Seq<char>, k: int, j: int)
    requires
        0 <= j <= k <= a.len(),
        k <= b.len(),
        a.subrange(0, k) == b.subrange(0, k),
    ensures
        a.subrange(0, j) == b.subrange(0, j),
{
    assert(a.subrange(0, j) =~= a.subrange(0, k).subrange(0, j));
    assert(b.subrange(0, j) =~= b.subrange(0, k).subrange(0, j));
}

proof fn lemma_name_asymmetric(a: Seq<char>, b: Seq<char>)
    ensures
        !(name_lt(a, b) && name_lt(b, a)),
{
    if name_lt(a, b) && name_lt(b, a) {
        let k1 = choose|k: int|
            0 <= k <= a.len() && k <= b.len() && a.subrange(0, k) == b.subrange(0, k) && ((k
                == a.len() && k < b.len()) || (k < a.len() && k < b.len() && a[k] < b[k]));
        let k2 = choose|k: int|
            0 <= k <= b.len() && k <= a.len() && b.subrange(0, k) == a.subrange(0, k) && ((k
                == b.len() && k < a.len()) || (k < b.len() && k < a.len() && b[k] < a[k]));
        if k1 < k2 {
            lemma_prefix_char(a, b, k2, k1);
        } else if k2 < k1 {
            lemma_prefix_char(a, b, k1, k2);
        }
    }
}

proof fn lemma_name_transitive(a: Seq<char>, b: Seq<char>, c: Seq<char>)
    requires
        name_lt(a, b),
        name_lt(b, c),
    ensures
        name_lt(a, c),
{
    let k1 = choose|k: int|
        0 <= k <= a.len() && k <= b.len() && a.subrange(0, k) == b.subrange(0, k) && ((k == a.len()
            && k < b.len()) || (k < a.len() && k < b.len() && a[k] < b[k]));
    let k2 = choose|k: int|
        0 <= k <= b.len() && k <= c.len() && b.subrange(0, k) == c.subrange(0, k) && ((k == b.len()
            && k < c.len()) || (k < b.len() && k < c.len() && b[k] < c[k]));
    if k1 < k2 {
        lemma_prefix_shorter(b, c, k2, k1);
        lemma_prefix_char(b, c, k2, k1);
        assert(a.subrange(0, k1) == c.subrange(0, k1));
    } else if k2 < k1 {
        lemma_prefix_shorter(a, b, k1, k2);
        lemma_prefix_char(a, b, k1, k2);
        assert(a.subrange(0, k2) == c.subrange(0, k2));
    } else {
        assert(a.subrange(0, k1) == c.subrange(0, k1));
    }
}

proof fn lemma_name_total(a: Seq<char>, b: Seq<char>)
    requires
        a != b,
    ensures
        name_lt(a, b) || name_lt(b, a),
    decreases a.len(),
{
    if a.len() == 0 || b.len() == 0 {
        assert(a.subrange(0, 0) =~= b.subrange(0, 0));
        if a.len() == 0 && b.len() == 0 {
            assert(a =~= b);
        }
    } else if a[0] != b[0] {
        assert(a.subrange(0, 0) =~= b.subrange(0, 0));
    } else {
        let a1 = a.drop_first();
        let b1 = b.drop_first();
        if a1 == b1 {
            assert(a =~= seq![a[0]] + a1);
            assert(b =~= seq![b[0]] + b1);
        }
        lemma_name_total(a1, b1);
        if name_lt(a1, b1) {
            let k = choose|k: int|
                0 <= k <= a1.len() && k <= b1.len() && a1.subrange(0, k) == b1.subrange(0, k) && ((k
                    == a1.len() && k < b1.len()) || (k < a1.len() && k < b1.len() && a1[k] < b1[k]));
            assert(a.subrange(0, k + 1) =~= seq![a[0]] + a1.subrange(0, k));
            assert(b.subrange(0, k + 1) =~= seq![b[0]] + b1.subrange(0, k));
            assert(a[k + 1] == a1[k] || k == a1.len());
        } else {
            let k = choose|k: int|
                0 <= k <= b1.len() && k <= a1.len() && b1.subrange(0, k) == a1.subrange(0, k) && ((k
                    == b1.len() && k < a1.len()) || (k < b1.len() && k < a1.len() && b1[k] < a1[k]));
            assert(a.subrange(0, k + 1) =~= seq![a[0]] + a1.subrange(0, k));
            assert(b.subrange(0, k + 1) =~= seq![b[0]] + b1.subrange(0, k));
            assert(b[k + 1] == b1[k] || k == b1.len());
        }
    }
}

/// `key_before` is a strict total order, so that sorting by it is well
/// defined: no key comes before itself or before a key that comes before
/// it, the order is transitive, and of two different keys one comes first.
pub proof fn lemma_key_order(
    a: (Seq<char>, int),
    b: (Seq<char>, int),
    c: (Seq<char>, int),
    descending: bool,
)
    ensures
        !key_before(a, a, descending),
        key_before(a, b, descending) ==> !key_before(b, a, descending),
        key_before(a, b, descending) && key_before(b, c, descending) ==> key_before(
            a,
            c,
            descending,
        ),
        a != b ==> key_before(a, b, descending) || key_before(b, a, descending),
{
    lemma_name_asymmetric(a.0, a.0);
    lemma_name_asymmetric(a.0, b.0);
    if key_before(a, b, descending) && key_before(b, c, descending) && a.1 == b.1 && b.1 == c.1 {
        lemma_name_transitive(a.0, b.0, c.0);
    }
    if a != b && a.1 == b.1 {
        assert(a.0 != b.0);
        lemma_name_total(a.0, b.0);
    }
}

/// `p` lists every position of `keys` once, in the order of `key_before`.
pub open spec fn is_sorting(keys: Seq<(Seq<char>, int)>, p: Seq<usize>, descending: bool) -> bool {
    &&& is_permutation(p, keys.len() as int)
    &&& forall|i: int, j: int|
        0 <= i < j < p.len() ==> !key_before(keys[p[j] as int], keys[p[i] as int], descending)
}

/// Some place of `p` holds `i`.
pub open spec fn lists(p: Seq<usize>, i: int) -> bool {
    exists|k: int| 0 <= k < p.len() && p[k] == i
}

/// `p` lists each of `0..n` once.
pub open spec fn is_permutation(p: Seq<usize>, n: int) -> bool {
    &&& p.len() == n
    &&& forall|i: int| 0 <= i < p.len() ==> #[trigger] p[i] < n
    &&& forall|i: int, j: int| 0 <= i < p.len() && 0 <= j < p.len() && i != j ==> p[i] != p[j]
}

/// A permutation names every position.
pub proof fn lemma_permutation_covers(p: Seq<usize>, n: int)
    requires
        is_permutation(p, n),
    ensures
        forall|i: int| 0 <= i < n ==> #[trigger] lists(p, i),
{
    let q = p.map_values(|x: usize| x as int);
    assert(q.no_duplicates()) by {
        assert forall|a: int, b: int| 0 <= a < q.len() && 0 <= b < q.len() && a != b implies q[a]
            != q[b] by {
            assert(p[a] != p[b]);
        }
    }
    q.unique_seq_to_set();
    vstd::seq_lib::seq_to_set_is_finite(q);
    vstd::set_lib::lemma_int_range(0, n);
    let range = vstd::set_lib::set_int_range(0, n);
    assert(q.to_set().subset_of(range)) by {
        assert forall|x: int| q.to_set().contains(x) implies range.contains(x) by {
            let k = choose|k: int| 0 <= k < q.len() && q[k] == x;
            assert(p[k] < n);
        }
    }
    vstd::set_lib::lemma_subset_equality(q.to_set(), range);
    assert forall|i: int| 0 <= i < n implies #[trigger] lists(p, i) by {
        assert(range.contains(i));
        assert(q.to_set().contains(i));
        assert(q.contains(i));
        let k = choose|k: int| 0 <= k < q.len() && q[k] == i;
        assert(p[k] == i);
    }
}

/// A sorting order names every position.
pub proof fn lemma_sorting_covers(keys: Seq<(Seq<char>, int)>, p: Seq<usize>, descending: bool)
    requires
        is_sorting(keys, p, descending),
    ensures
        forall|i: int| 0 <= i < keys.len() ==> #[trigger] lists(p, i),
{
    lemma_permutation_covers(p, keys.len() as int);
}

proof fn lemma_sortings_agree(
    keys: Seq<(Seq<char>, int)>,
    p1: Seq<usize>,
    p2: Seq<usize>,
    descending: bool,
    k: int,
)
    requires
        is_sorting(keys, p1, descending),
        is_sorting(keys, p2, descending),
        forall|i: int, j: int| 0 <= i < keys.len() && 0 <= j < keys.len() && i != j ==> keys[i] != keys[j],
        0 <= k <= keys.len(),
    ensures
        forall|j: int| 0 <= j < k ==> p1[j] == p2[j],
    decreases k,
{
    if k > 0 {
        let m = k - 1;
        lemma_sortings_agree(keys, p1, p2, descending, m);
        let a = p1[m] as int;
        let b = p2[m] as int;
        if a != b {
            lemma_key_order(keys[a], keys[b], keys[a], descending);
            lemma_permutation_covers(p1, keys.len() as int);
            lemma_permutation_covers(p2, keys.len() as int);
            if key_before(keys[a], keys[b], descending) {
                assert(lists(p2, a));
                let x = choose|x: int| 0 <= x < p2.len() && p2[x] == a;
                if x < m {
                    assert(p1[x] == p2[x]);
                }
                assert(x > m);
            } else {
                assert(lists(p1, b));
                let x = choose|x: int| 0 <= x < p1.len() && p1[x] == b;
                if x < m {
                    assert(p1[x] == p2[x]);
                }
                assert(x > m);
            }
        }
    }
}

/// Pairwise different keys have one sorting order only.
pub proof fn lemma_sorting_unique(
    keys: Seq<(Seq<char>, int)>,
    p1: Seq<usize>,
    p2: Seq<usize>,
    descending: bool,
)
    requires
        is_sorting(keys, p1, descending),
        is_sorting(keys, p2, descending),
        forall|i: int, j: int| 0 <= i < keys.len() && 0 <= j < keys.len() && i != j ==> keys[i] != keys[j],
    ensures
        p1 == p2,
{
    lemma_sortings_agree(keys, p1, p2, descending, keys.len() as int);
    assert(p1 =~= p2);
}

/// Reading `a` in the order of a permutation keeps its multiset of values.
pub proof fn lemma_permuted_multiset<T>(a: Seq<T>, p: Seq<usize>)
    requires
        is_permutation(p, a.len() as int),
    ensures
        Seq::new(a.len(), |k: int| a[p[k] as int]).to_multiset() =~= a.to_multiset(),
    decreases a.len(),
{
    broadcast use vstd::seq_lib::group_to_multiset_ensures;

    let n = a.len() as int;
    if n > 0 {
        lemma_permutation_covers(p, n);
        assert(lists(p, n - 1));
        let j = choose|k: int| 0 <= k < p.len() && p[k] == n - 1;
        let b = Seq::new(a.len(), |k: int| a[p[k] as int]);
        let p1 = p.remove(j);
        let a1 = a.drop_last();
        assert(is_permutation(p1, n - 1)) by {
            assert forall|i: int| 0 <= i < p1.len() implies #[trigger] p1[i] < n - 1 by {
                let o = if i < j { i } else { i + 1 };
                assert(p1[i] == p[o]);
                assert(p[o] != p[j]);
            }
            assert forall|x: int, y: int|
                0 <= x < p1.len() && 0 <= y < p1.len() && x != y implies p1[x] != p1[y] by {
                let ox = if x < j { x } else { x + 1 };
                let oy = if y < j { y } else { y + 1 };
                assert(p1[x] == p[ox] && p1[y] == p[oy]);
            }
        }
        lemma_permuted_multiset(a1, p1);
        let b1 = Seq::new(a1.len(), |k: int| a1[p1[k] as int]);
        assert(b1 =~= b.remove(j)) by {
            assert forall|k: int| 0 <= k < b1.len() implies b1[k] == b.remove(j)[k] by {
                let o = if k < j { k } else { k + 1 };
                assert(p1[k] == p[o]);
                assert(p[o] < n - 1) by {
                    assert(p[o] != p[j]);
                }
            }
        }
        assert(b.remove(j).to_multiset() == b.to_multiset().remove(b[j]));
        assert(a1.push(a.last()) =~= a);
        assert(b[j] == a.last());
        assert(b.to_multiset().remove(b[j]).insert(b[j]) =~= b.to_multiset()) by {
            assert(b.to_multiset().count(b[j]) > 0) by {
                assert(b.contains(b[j]));
            }
        }
    } else {
        assert(Seq::new(a.len(), |k: int| a[p[k] as int]) =~= a);
    }
}

/// A name with the value that it is sorted by.
pub struct RankKey {
    pub name: String,
    pub value: i128,
}

impl View for RankKey {
    type V = (Seq<char>, int);

    open spec fn view(&self) -> (Seq<char>, int) {
        (self.name@, self.value as int)
    }
}

pub open spec fn keys_view(keys: Seq<RankKey>) -> Seq<(Seq<char>, int)> {
    keys.map_values(|k: RankKey| k@)
}

/// Compares two names in lexicographic order of code points.
pub fn compare_names(a: &str, b: &str) -> (r: Ordering)
    ensures
        (r == Ordering::Less) == name_lt(a@, b@),
        (r == Ordering::Greater) == name_lt(b@, a@),
        (r == Ordering::Equal) == (a@ == b@),
{
    let la = a.unicode_len();
    let lb = b.unicode_len();
    let mut i: usize = 0;
    while i < la && i < lb && a.get_char(i) == b.get_char(i)
        invariant
            la == a@.len(),
            lb == b@.len(),
            i <= la,
            i <= lb,
            a@.subrange(0, i as int) == b@.subrange(0, i as int),
        decreases la - i,
    {
        assert(a@.subrange(0, i + 1) =~= a@.subrange(0, i as int).push(a@[i as int]));
        assert(b@.subrange(0, i + 1) =~= b@.subrange(0, i as int).push(b@[i as int]));
        i = i + 1;
    }
    let ghost k = i as int;
    proof {
        // The first difference is at `k`: every witness of either order is `k`.
        assert forall|w: int|
            0 <= w <= a@.len() && w <= b@.len() && a@.subrange(0, w) == b@.subrange(0, w) implies w
            <= k by {
            if w > k {
                assert(a@.subrange(0, w)[k] == a@[k]);
                assert(b@.subrange(0, w)[k] == b@[k]);
            }
        }
    }
    if i < la && i < lb {
        let ca = a.get_char(i);
        let cb = b.get_char(i);
        proof {
            assert forall|w: int|
                0 <= w <= a@.len() && w <= b@.len() && a@.subrange(0, w) == b@.subrange(0, w)
                    && w < k implies a@[w] == b@[w] by {
                assert(a@.subrange(0, w) == a@.subrange(0, k).subrange(0, w));
                assert(b@.subrange(0, w) == b@.subrange(0, k).subrange(0, w));
                assert(a@.subrange(0, k)[w] == a@[w]);
                assert(b@.subrange(0, k)[w] == b@[w]);
            }
            if a@ == b@ {
                assert(a@[k] == b@[k]);
            }
        }
        if ca < cb {
            Ordering::Less
        } else {
            Ordering::Greater
        }
    } else {
        proof {
            if la == lb {
                assert(a@ =~= a@.subrange(0, k));
                assert(b@ =~= b@.subrange(0, k));
            }
            assert forall|w: int|
                0 <= w <= a@.len() && w <= b@.len() && a@.subrange(0, w) == b@.subrange(0, w)
                    && w < k implies a@[w] == b@[w] by {
                assert(a@.subrange(0, k)[w] == a@[w]);
                assert(b@.subrange(0, k)[w] == b@[w]);
            }
        }
        if la < lb {
            Ordering::Less
        } else if la == lb {
            Ordering::Equal
        } else {
            Ordering::Greater
        }
    }
}

/// Compares two keys in the order of `key_before`.
pub fn compare_keys(a: &RankKey, b: &RankKey, descending: bool) -> (r: Ordering)
    ensures
        (r == Ordering::Less) == key_before(a@, b@, descending),
        (r == Ordering::Greater) == key_before(b@, a@, descending),
        (r == Ordering::Equal) == (a@ == b@),
{
    if a.value == b.value {
        compare_names(a.name.as_str(), b.name.as_str())
    } else if (a.value < b.value) != descending {
        Ordering::Less
    } else {
        Ordering::Greater
    }
}

/// Relies on itertools::Itertools::sorted_unstable_by, which sorts with
/// `slice::sort_unstable_by`: the positions of `keys`, each once, ordered by
/// `compare_keys`.
#[verifier::external_body]
pub(crate) fn sorted_positions(keys: &Vec<RankKey>, descending: bool) -> (r: Vec<usize>)
    ensures
        is_sorting(keys_view(keys@), r@, descending),
{
    (0..keys.len()).sorted_unstable_by(|a, b| compare_keys(&keys[*a], &keys[*b], descending)).collect()
}

} // verus!
