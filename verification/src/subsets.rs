//! Subsets of parameters, by their indices: every choice of `k` out of
//! `n` indices, in lexicographic order.

use vstd::prelude::*;

verus! {

/// The `k`-element subsets of the indices from `lo` up to, not
/// including, `hi`: each as an increasing sequence, all of them in
/// lexicographic order. Those that start with `lo` come first.
pub open spec fn combinations(lo: int, hi: int, k: nat) -> Seq<Seq<int>>
    decreases hi - lo,
{
    if k == 0 {
        seq![Seq::empty()]
    } else if lo >= hi {
        Seq::empty()
    } else {
        combinations(lo + 1, hi, (k - 1) as nat).map_values(|c: Seq<int>| seq![lo] + c)
            + combinations(lo + 1, hi, k)
    }
}

/// The number of ways to choose `k` out of `n`.
pub open spec fn binomial(n: nat, k: nat) -> nat
    decreases n,
{
    if k == 0 {
        1
    } else if n == 0 {
        0
    } else {
        binomial((n - 1) as nat, (k - 1) as nat) + binomial((n - 1) as nat, k)
    }
}

/// There are as many `k`-element subsets of `n` indices as there are
/// ways to choose `k` out of `n`.
pub proof fn lemma_combinations_len(lo: int, hi: int, k: nat)
    requires
        lo <= hi,
    ensures
        combinations(lo, hi, k).len() == binomial((hi - lo) as nat, k),
    decreases hi - lo,
{
    if k > 0 && lo < hi {
        lemma_combinations_len(lo + 1, hi, (k - 1) as nat);
        lemma_combinations_len(lo + 1, hi, k);
    }
}

/// Every subset has `k` elements, all within range and in increasing
/// order.
pub proof fn lemma_combinations_shape(lo: int, hi: int, k: nat, i: int)
    requires
        0 <= i < combinations(lo, hi, k).len(),
    ensures
        combinations(lo, hi, k)[i].len() == k,
        forall|a: int|
            0 <= a < k ==> lo <= #[trigger] combinations(lo, hi, k)[i][a] < hi,
        forall|a: int, b: int|
            0 <= a < b < k ==> combinations(lo, hi, k)[i][a] < combinations(lo, hi, k)[i][b],
    decreases hi - lo,
{
    if k > 0 && lo < hi {
        let with_lo = combinations(lo + 1, hi, (k - 1) as nat);
        let without = combinations(lo + 1, hi, k);
        let c = combinations(lo, hi, k)[i];
        if i < with_lo.len() {
            lemma_combinations_shape(lo + 1, hi, (k - 1) as nat, i);
            let rest = with_lo[i];
            assert(c == seq![lo] + rest);
            assert forall|a: int| 0 <= a < k implies lo <= #[trigger] c[a] < hi by {
                if a > 0 {
                    assert(c[a] == rest[a - 1]);
                }
            }
            assert forall|a: int, b: int| 0 <= a < b < k implies c[a] < c[b] by {
                assert(c[b] == rest[b - 1]);
                if a > 0 {
                    assert(c[a] == rest[a - 1]);
                }
            }
        } else {
            lemma_combinations_shape(lo + 1, hi, k, i - with_lo.len());
            assert(c == without[i - with_lo.len()]);
        }
    }
}

/// The subsets of at least one and at most `d` of `n` indices: the
/// one-element subsets first, then those of two, and so on.
pub open spec fn subsets_up_to(n: nat, d: nat) -> Seq<Seq<int>>
    decreases d,
{
    if d == 0 {
        Seq::empty()
    } else {
        subsets_up_to(n, (d - 1) as nat) + combinations(0, n as int, d)
    }
}

/// The number of subsets of at least one and at most `d` of `n`
/// indices: the sum of the ways to choose `k` out of `n`, for `k` from
/// 1 to `d`.
pub open spec fn subset_count(n: nat, d: nat) -> nat
    decreases d,
{
    if d == 0 {
        0
    } else {
        subset_count(n, (d - 1) as nat) + binomial(n, d)
    }
}

/// There are `subset_count(n, d)` subsets of at most `d` of `n` indices.
pub proof fn lemma_subsets_up_to_len(n: nat, d: nat)
    ensures
        subsets_up_to(n, d).len() == subset_count(n, d),
    decreases d,
{
    if d > 0 {
        lemma_subsets_up_to_len(n, (d - 1) as nat);
        lemma_combinations_len(0, n as int, d);
    }
}

/// What a list of index lists holds.
pub open spec fn index_lists(v: Seq<Vec<usize>>) -> Seq<Seq<int>> {
    v.map_values(|c: Vec<usize>| c@.map_values(|x: usize| x as int))
}

/// There is no way to choose more indices than there are.
pub proof fn lemma_combinations_none(lo: int, hi: int, k: nat)
    requires
        lo <= hi,
        k > hi - lo,
    ensures
        combinations(lo, hi, k) == Seq::<Seq<int>>::empty(),
    decreases hi - lo,
{
    if lo < hi {
        lemma_combinations_none(lo + 1, hi, (k - 1) as nat);
        lemma_combinations_none(lo + 1, hi, k);
        assert(combinations(lo, hi, k) =~= Seq::<Seq<int>>::empty());
    }
}

/// Subsets of more than `n` of `n` indices add nothing.
pub proof fn lemma_subsets_up_to_all(n: nat, d: nat)
    requires
        d >= n,
    ensures
        subsets_up_to(n, d) == subsets_up_to(n, n),
    decreases d,
{
    if d > n {
        lemma_subsets_up_to_all(n, (d - 1) as nat);
        lemma_combinations_none(0, n as int, d);
        assert(subsets_up_to(n, d) =~= subsets_up_to(n, (d - 1) as nat));
    }
}

/// Collects `Itertools::combinations` of the crate `itertools` over the
/// range from 0 to `n`. As that crate documents and its source shows,
/// the iterator gives every `k`-element choice once, each in increasing
/// order, all in lexicographic order, and one empty choice for `k` equal
/// to 0. It is not called with `k` greater than `n`, for which it would
/// first reserve room for `k` indices.
#[verifier::external_body]
fn index_combinations(n: usize, k: usize) -> (r: Vec<Vec<usize>>)
    requires
        k <= n,
    ensures
        index_lists(r@) == combinations(0, n as int, k as nat),
{
    itertools::Itertools::combinations(0..n, k).collect()
}

/// The subsets of at least one and at most `max_dimension` of
/// `num_params` indices, by size and within a size in lexicographic
/// order.
pub fn enumerate_subsets(num_params: usize, max_dimension: usize) -> (r: Vec<Vec<usize>>)
    ensures
        index_lists(r@) == subsets_up_to(num_params as nat, max_dimension as nat),
        r@.len() == subset_count(num_params as nat, max_dimension as nat),
        forall|i: int, a: int|
            0 <= i < r@.len() && 0 <= a < r@[i]@.len() ==> #[trigger] r@[i]@[a] < num_params,
{
    let mut all: Vec<Vec<usize>> = Vec::new();
    let mut dim: usize = 0;
    assert(index_lists(all@) =~= subsets_up_to(num_params as nat, 0));
    while dim < max_dimension && dim < num_params
        invariant
            dim <= max_dimension,
            dim <= num_params,
            index_lists(all@) == subsets_up_to(num_params as nat, dim as nat),
            forall|i: int, a: int|
                0 <= i < all@.len() && 0 <= a < all@[i]@.len() ==> #[trigger] all@[i]@[a]
                    < num_params,
        decreases max_dimension - dim,
    {
        dim = dim + 1;
        let mut combos = index_combinations(num_params, dim);
        let ghost before = all@;
        let ghost added = combos@;
        proof {
            assert forall|i: int, a: int|
                0 <= i < added.len() && 0 <= a < added[i]@.len() implies #[trigger] added[i]@[a]
                    < num_params by {
                let c = combinations(0, num_params as int, dim as nat);
                assert(index_lists(added)[i] == c[i]);
                lemma_combinations_shape(0, num_params as int, dim as nat, i);
                assert(index_lists(added)[i][a] == added[i]@[a] as int);
            }
        }
        all.append(&mut combos);
        assert(all@ =~= before + added);
        assert(index_lists(all@) =~= index_lists(before) + index_lists(added));
    }
    proof {
        if dim < max_dimension {
            lemma_subsets_up_to_all(num_params as nat, max_dimension as nat);
        }
        lemma_subsets_up_to_len(num_params as nat, max_dimension as nat);
        assert(index_lists(all@).len() == all@.len());
    }
    all
}

} // verus!
