use vstd::prelude::*;

verus! {

/// The sum `f(0) + f(1) + ... + f(k - 1)`; zero where `k` is not positive.
pub open spec fn sum_to(f: spec_fn(int) -> int, k: int) -> int
    decreases k,
{
    if k <= 0 {
        0
    } else {
        sum_to(f, k - 1) + f(k - 1)
    }
}

/// Two functions that agree below `k` have the same sum up to `k`.
pub proof fn lemma_sum_agree(f: spec_fn(int) -> int, g: spec_fn(int) -> int, k: int)
    requires
        forall|i: int| 0 <= i < k ==> #[trigger] f(i) == g(i),
    ensures
        sum_to(f, k) == sum_to(g, k),
    decreases k,
{
    if k > 0 {
        lemma_sum_agree(f, g, k - 1);
    }
}

/// Where `g` differs from `f` at the one place `j` below `k`, the sums differ
/// by `g(j) - f(j)`.
pub proof fn lemma_sum_change_one(f: spec_fn(int) -> int, g: spec_fn(int) -> int, k: int, j: int)
    requires
        0 <= j < k,
        forall|i: int| 0 <= i < k && i != j ==> #[trigger] f(i) == g(i),
    ensures
        sum_to(g, k) == sum_to(f, k) + g(j) - f(j),
    decreases k,
{
    if k - 1 == j {
        lemma_sum_agree(f, g, k - 1);
    } else {
        lemma_sum_change_one(f, g, k - 1, j);
    }
}

/// A sum of terms that all lie between `lo` and `hi` lies between `k * lo`
/// and `k * hi`.
pub proof fn lemma_sum_bounds(f: spec_fn(int) -> int, k: int, lo: int, hi: int)
    requires
        0 <= k,
        forall|i: int| 0 <= i < k ==> lo <= #[trigger] f(i) <= hi,
    ensures
        k * lo <= sum_to(f, k) <= k * hi,
    decreases k,
{
    if k > 0 {
        lemma_sum_bounds(f, k - 1, lo, hi);
        assert(k * lo == (k - 1) * lo + lo) by (nonlinear_arith);
        assert(k * hi == (k - 1) * hi + hi) by (nonlinear_arith);
    } else {
        assert(k * lo == 0) by (nonlinear_arith)
            requires
                k == 0,
        ;
        assert(k * hi == 0) by (nonlinear_arith)
            requires
                k == 0,
        ;
    }
}

/// Where `h` is the pointwise sum of `f` and `g` below `k`, its sum is the
/// sum of theirs.
pub proof fn lemma_sum_pointwise_add(
    f: spec_fn(int) -> int,
    g: spec_fn(int) -> int,
    h: spec_fn(int) -> int,
    k: int,
)
    requires
        forall|i: int| 0 <= i < k ==> #[trigger] h(i) == f(i) + g(i),
    ensures
        sum_to(h, k) == sum_to(f, k) + sum_to(g, k),
    decreases k,
{
    if k > 0 {
        lemma_sum_pointwise_add(f, g, h, k - 1);
    }
}

/// A sum of terms that are all zero is zero.
pub proof fn lemma_sum_zero(f: spec_fn(int) -> int, k: int)
    requires
        forall|i: int| 0 <= i < k ==> #[trigger] f(i) == 0,
    ensures
        sum_to(f, k) == 0,
    decreases k,
{
    if k > 0 {
        lemma_sum_zero(f, k - 1);
    }
}

/// With non-negative terms the sum grows with its upper end.
pub proof fn lemma_sum_monotone(f: spec_fn(int) -> int, j: int, k: int)
    requires
        j <= k,
        forall|i: int| 0 <= i < k ==> 0 <= #[trigger] f(i),
    ensures
        sum_to(f, j) <= sum_to(f, k),
        0 <= sum_to(f, k),
    decreases k,
{
    if k > 0 {
        if j < k {
            lemma_sum_monotone(f, j, k - 1);
        } else {
            lemma_sum_monotone(f, k - 1, k - 1);
        }
    }
}

/// Where a sum of non-negative terms is zero, every term is zero.
pub proof fn lemma_sum_zero_terms(f: spec_fn(int) -> int, k: int)
    requires
        sum_to(f, k) == 0,
        forall|i: int| 0 <= i < k ==> 0 <= #[trigger] f(i),
    ensures
        forall|i: int| 0 <= i < k ==> #[trigger] f(i) == 0,
    decreases k,
{
    if k > 0 {
        lemma_sum_monotone(f, k - 1, k - 1);
        assert(f(k - 1) >= 0);
        lemma_sum_zero_terms(f, k - 1);
        assert forall|i: int| 0 <= i < k implies #[trigger] f(i) == 0 by {
            if i < k - 1 {
            }
        }
    }
}

/// A sum of `k` terms, each zero or one, is `k` just when every term is one.
pub proof fn lemma_sum_full(f: spec_fn(int) -> int, k: int)
    requires
        0 <= k,
        forall|i: int| 0 <= i < k ==> 0 <= #[trigger] f(i) <= 1,
    ensures
        sum_to(f, k) == k <==> forall|i: int| 0 <= i < k ==> #[trigger] f(i) == 1,
    decreases k,
{
    if k > 0 {
        lemma_sum_full(f, k - 1);
        lemma_sum_bounds(f, k - 1, 0, 1);
        if sum_to(f, k) == k {
            assert(f(k - 1) == 1);
            assert(sum_to(f, k - 1) == k - 1);
            assert forall|i: int| 0 <= i < k implies #[trigger] f(i) == 1 by {
                if i < k - 1 {
                }
            }
        }
        if forall|i: int| 0 <= i < k ==> #[trigger] f(i) == 1 {
            assert(f(k - 1) == 1);
        }
    }
}

} // verus!
