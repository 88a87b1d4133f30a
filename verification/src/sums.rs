//! Finite sums over integer ranges, and the rules used to compute them.
use vstd::prelude::*;

verus! {

/// `f(0) + f(1) + ... + f(k - 1)`.
pub open spec fn sum_to(f: spec_fn(int) -> int, k: int) -> int
    decreases k,
{
    if k <= 0 {
        0
    } else {
        sum_to(f, k - 1) + f(k - 1)
    }
}

/// `sum_j x[j]`.
pub open spec fn total(x: Seq<int>) -> int {
    sum_to(|j: int| x[j], x.len() as int)
}

/// `sum_j x[j]^2`.
pub open spec fn total_of_squares(x: Seq<int>) -> int {
    sum_to(|j: int| x[j] * x[j], x.len() as int)
}

/// Functions that agree on `0..k` have the same sum.
pub proof fn lemma_sum_congruent(f: spec_fn(int) -> int, g: spec_fn(int) -> int, k: int)
    requires
        forall|j: int| 0 <= j < k ==> #[trigger] f(j) == g(j),
    ensures
        sum_to(f, k) == sum_to(g, k),
    decreases k,
{
    if k > 0 {
        lemma_sum_congruent(f, g, k - 1);
    }
}

/// The sum of a pointwise sum is the sum of the sums.
pub proof fn lemma_sum_add(f: spec_fn(int) -> int, g: spec_fn(int) -> int, k: int)
    ensures
        sum_to(|j: int| f(j) + g(j), k) == sum_to(f, k) + sum_to(g, k),
    decreases k,
{
    if k > 0 {
        lemma_sum_add(f, g, k - 1);
    }
}

/// A constant factor comes out of a sum.
pub proof fn lemma_sum_scale(f: spec_fn(int) -> int, c: int, k: int)
    ensures
        sum_to(|j: int| c * f(j), k) == c * sum_to(f, k),
    decreases k,
{
    if k > 0 {
        lemma_sum_scale(f, c, k - 1);
        let a = sum_to(f, k - 1);
        let b = f(k - 1);
        assert(sum_to(f, k) == a + b);
        assert(c * (a + b) == c * a + c * b) by (nonlinear_arith);
    }
}

/// A function that is `c` on `0..k` sums to `c * k`.
pub proof fn lemma_sum_const(f: spec_fn(int) -> int, c: int, k: int)
    requires
        k >= 0,
        forall|j: int| 0 <= j < k ==> #[trigger] f(j) == c,
    ensures
        sum_to(f, k) == c * k,
    decreases k,
{
    if k > 0 {
        lemma_sum_const(f, c, k - 1);
        assert(c * k == c * (k - 1) + c) by (nonlinear_arith);
    } else {
        assert(c * 0 == 0);
    }
}

/// A function that is `v` at `p` and zero elsewhere sums to `v` if `p` is in range.
pub proof fn lemma_sum_point(f: spec_fn(int) -> int, p: int, v: int, k: int)
    requires
        k >= 0,
        forall|j: int| 0 <= j < k ==> #[trigger] f(j) == if j == p { v } else { 0 },
    ensures
        sum_to(f, k) == if 0 <= p < k { v } else { 0 },
    decreases k,
{
    if k > 0 {
        lemma_sum_point(f, p, v, k - 1);
    }
}

/// A function that is zero on `0..k` sums to zero.
pub proof fn lemma_sum_zero(f: spec_fn(int) -> int, k: int)
    requires
        forall|j: int| 0 <= j < k ==> #[trigger] f(j) == 0,
    ensures
        sum_to(f, k) == 0,
    decreases k,
{
    if k > 0 {
        lemma_sum_zero(f, k - 1);
    }
}

/// A function that is non-negative on `0..k` has a non-negative sum.
pub proof fn lemma_sum_nonneg(f: spec_fn(int) -> int, k: int)
    requires
        forall|j: int| 0 <= j < k ==> #[trigger] f(j) >= 0,
    ensures
        sum_to(f, k) >= 0,
    decreases k,
{
    if k > 0 {
        lemma_sum_nonneg(f, k - 1);
    }
}

/// Shifting the argument by one drops the first term and adds one at the end.
pub proof fn lemma_sum_shift(f: spec_fn(int) -> int, k: int)
    requires
        k >= 0,
    ensures
        sum_to(|j: int| f(j + 1), k) == sum_to(f, k + 1) - f(0),
    decreases k,
{
    let g = |j: int| f(j + 1);
    if k > 0 {
        lemma_sum_shift(f, k - 1);
        assert(g(k - 1) == f(k));
        assert(sum_to(f, k + 1) == sum_to(f, k) + f(k));
    } else {
        assert(sum_to(f, 1) == sum_to(f, 0) + f(0));
    }
}

/// A sum of at most three point masses, each counted when its point is in range.
pub proof fn lemma_sum_three_points(
    f: spec_fn(int) -> int,
    k: int,
    p1: int,
    v1: int,
    p2: int,
    v2: int,
    p3: int,
    v3: int,
)
    requires
        k >= 0,
        forall|j: int|
            0 <= j < k ==> #[trigger] f(j) == (if j == p1 { v1 } else { 0 }) + (if j == p2 { v2 } else { 0 })
                + (if j == p3 { v3 } else { 0 }),
    ensures
        sum_to(f, k) == (if 0 <= p1 < k { v1 } else { 0 }) + (if 0 <= p2 < k { v2 } else { 0 }) + (
        if 0 <= p3 < k {
            v3
        } else {
            0
        }),
{
    let g1 = |j: int| if j == p1 { v1 } else { 0 };
    let g2 = |j: int| if j == p2 { v2 } else { 0 };
    let g3 = |j: int| if j == p3 { v3 } else { 0 };
    let g12 = |j: int| g1(j) + g2(j);
    lemma_sum_congruent(f, |j: int| g12(j) + g3(j), k);
    lemma_sum_add(g12, g3, k);
    lemma_sum_add(g1, g2, k);
    lemma_sum_point(g1, p1, v1, k);
    lemma_sum_point(g2, p2, v2, k);
    lemma_sum_point(g3, p3, v3, k);
}

} // verus!
