//! Algebraic laws of the graph Laplacians: symmetry, zero row sums, the kernel
//! (constant vectors on a connected graph) and positive semidefiniteness.
use vstd::prelude::*;
use crate::matrix::Matrix;
use crate::laplacian::{
    cycle_entry, is_cycle_laplacian, complete_entry, is_complete_laplacian, apply_row, is_constant, is_harmonic, is_path_laplacian, is_positive_semidefinite,
    is_symmetric, kernel_is_constants, path_entry, quadratic_form, row_sum, rows_sum_to_zero,
};
use crate::sums::{
    lemma_sum_const, lemma_sum_point, lemma_sum_scale, lemma_sum_add, total, total_of_squares, lemma_sum_congruent, lemma_sum_nonneg, lemma_sum_shift, lemma_sum_three_points,
    sum_to,
};

verus! {

/// A square is never negative.
proof fn lemma_square_nonneg(a: int)
    ensures
        a * a >= 0,
{
    assert(a * a >= 0) by (nonlinear_arith);
}

// ------------------------------------------------------------------
// Path graph
// ------------------------------------------------------------------

/// `(m x)_i` for the path Laplacian, written out.
proof fn lemma_path_apply_row(m: Matrix<i64>, n: int, x: Seq<int>, i: int)
    requires
        is_path_laplacian(m, n),
        x.len() == n,
        0 <= i < n,
    ensures
        apply_row(m, x, i) == (if i > 0 { x[i] - x[i - 1] } else { 0 }) + (if i < n - 1 {
            x[i] - x[i + 1]
        } else {
            0
        }),
{
    let deg = path_entry(n, i, i);
    let v2 = if i > 0 { -x[i - 1] } else { 0 };
    let v3 = if i < n - 1 { -x[i + 1] } else { 0 };
    let f = |j: int| m.entry(i, j) * x[j];
    assert forall|j: int| 0 <= j < n implies #[trigger] f(j) == (if j == i { deg * x[i] } else {
        0
    }) + (if j == i - 1 { v2 } else { 0 }) + (if j == i + 1 { v3 } else { 0 }) by {
        let e = m.entry(i, j) as int;
        assert(e == path_entry(n, i, j));
        if j == i {
            assert(e * x[j] == deg * x[i]);
        } else if j == i - 1 || j == i + 1 {
            assert(e == -1);
            assert(e * x[j] == -x[j]) by (nonlinear_arith)
                requires
                    e == -1,
            ;
        } else {
            assert(e == 0);
            assert(e * x[j] == 0) by (nonlinear_arith)
                requires
                    e == 0,
            ;
        }
    }
    lemma_sum_three_points(f, n, i, deg * x[i], i - 1, v2, i + 1, v3);
    assert(deg * x[i] == (if i > 0 { x[i] } else { 0 }) + (if i < n - 1 { x[i] } else { 0 })) by (
    nonlinear_arith)
        requires
            deg == (if i > 0 { 1int } else { 0int }) + (if i < n - 1 { 1int } else { 0int }),
    ;
}

/// Every row of the path Laplacian sums to zero.
pub proof fn lemma_path_rows_sum_to_zero(m: Matrix<i64>, n: int)
    requires
        is_path_laplacian(m, n),
    ensures
        rows_sum_to_zero(m),
{
    assert forall|i: int| 0 <= i < m.rows implies #[trigger] row_sum(m, i) == 0 by {
        let deg = path_entry(n, i, i);
        let v2: int = if i > 0 { -1 } else { 0 };
        let v3: int = if i < n - 1 { -1 } else { 0 };
        let f = |j: int| m.entry(i, j) as int;
        assert forall|j: int| 0 <= j < n implies #[trigger] f(j) == (if j == i { deg } else { 0 }) + (
        if j == i - 1 {
            v2
        } else {
            0
        }) + (if j == i + 1 { v3 } else { 0 }) by {
            assert(m.entry(i, j) == path_entry(n, i, j));
        }
        lemma_sum_three_points(f, n, i, deg, i - 1, v2, i + 1, v3);
    }
}

/// The path Laplacian equals its transpose.
pub proof fn lemma_path_symmetric(m: Matrix<i64>, n: int)
    requires
        is_path_laplacian(m, n),
    ensures
        is_symmetric(m),
{
    assert forall|i: int, j: int| 0 <= i < m.rows && 0 <= j < m.rows implies #[trigger] m.entry(
        i,
        j,
    ) == m.entry(j, i) by {
        assert(m.entry(i, j) == path_entry(n, i, j));
        assert(m.entry(j, i) == path_entry(n, j, i));
    }
}

/// On a path, `m x = 0` forces neighbouring entries to agree, one step at a time.
proof fn lemma_path_harmonic_steps(m: Matrix<i64>, n: int, x: Seq<int>, k: int)
    requires
        is_path_laplacian(m, n),
        x.len() == n,
        is_harmonic(m, x),
        0 <= k < n,
    ensures
        forall|i: int| 0 <= i <= k ==> #[trigger] x[i] == x[0],
    decreases k,
{
    if k > 0 {
        lemma_path_harmonic_steps(m, n, x, k - 1);
        lemma_path_apply_row(m, n, x, k - 1);
        assert(apply_row(m, x, k - 1) == 0);
        if k - 1 > 0 {
            assert(x[k - 2] == x[0]);
        }
        assert forall|i: int| 0 <= i <= k implies #[trigger] x[i] == x[0] by {
            if i < k {
                assert(x[i] == x[0]);
            }
        }
    }
}

/// On the path, the harmonic vectors are exactly the constant vectors.
pub proof fn lemma_path_kernel_is_constants(m: Matrix<i64>, n: int)
    requires
        is_path_laplacian(m, n),
    ensures
        kernel_is_constants(m),
{
    assert forall|x: Seq<int>| x.len() == m.cols implies (#[trigger] is_harmonic(m, x)
        <==> is_constant(x)) by {
        if is_harmonic(m, x) && n > 0 {
            lemma_path_harmonic_steps(m, n, x, n - 1);
            assert forall|i: int, j: int|
                0 <= i < x.len() && 0 <= j < x.len() implies #[trigger] x[i] == #[trigger] x[j] by {
                assert(x[i] == x[0]);
                assert(x[j] == x[0]);
            }
        }
        if is_constant(x) {
            assert forall|i: int| 0 <= i < m.rows implies #[trigger] apply_row(m, x, i) == 0 by {
                lemma_path_apply_row(m, n, x, i);
                if i > 0 {
                    assert(x[i] == x[i - 1]);
                }
                if i < n - 1 {
                    assert(x[i] == x[i + 1]);
                }
            }
        }
    }
}

/// On the path, `x^T m x` is the sum of the squared differences across the edges,
/// hence never negative.
pub proof fn lemma_path_positive_semidefinite(m: Matrix<i64>, n: int)
    requires
        is_path_laplacian(m, n),
    ensures
        is_positive_semidefinite(m),
{
    assert forall|x: Seq<int>| x.len() == m.cols implies #[trigger] quadratic_form(m, x) >= 0 by {
        if n > 0 {
            lemma_path_quadratic_form(m, n, x);
            let sq = |e: int| (x[e + 1] - x[e]) * (x[e + 1] - x[e]);
            assert forall|e: int| 0 <= e < n - 1 implies #[trigger] sq(e) >= 0 by {
                lemma_square_nonneg(x[e + 1] - x[e]);
            }
            lemma_sum_nonneg(sq, n - 1);
        }
    }
}

/// `x^T m x` for the path Laplacian is the sum over edges `e - (e+1)` of `(x[e+1] - x[e])^2`.
pub proof fn lemma_path_quadratic_form(m: Matrix<i64>, n: int, x: Seq<int>)
    requires
        is_path_laplacian(m, n),
        x.len() == n,
        n > 0,
    ensures
        quadratic_form(m, x) == sum_to(|e: int| (x[e + 1] - x[e]) * (x[e + 1] - x[e]), n - 1),
{
    let q = |i: int| x[i] * apply_row(m, x, i);
    let g = |i: int| if i > 0 { x[i] * (x[i] - x[i - 1]) } else { 0 };
    let h = |i: int| if i < n - 1 { x[i] * (x[i] - x[i + 1]) } else { 0 };
    assert forall|i: int| 0 <= i < n implies #[trigger] q(i) == (|i: int| g(i) + h(i))(i) by {
        lemma_path_apply_row(m, n, x, i);
        let a = if i > 0 { x[i] - x[i - 1] } else { 0 };
        let b = if i < n - 1 { x[i] - x[i + 1] } else { 0 };
        assert(x[i] * (a + b) == x[i] * a + x[i] * b) by (nonlinear_arith);
    }
    lemma_sum_congruent(q, |i: int| g(i) + h(i), n);
    lemma_sum_add(g, h, n);
    // the left ends: g(0) = 0, so the sum of g over 0..n is the shifted sum over 0..n-1
    lemma_sum_shift(g, n - 1);
    // the right ends: h(n-1) = 0
    assert(sum_to(h, n) == sum_to(h, n - 1) + h(n - 1));
    let gs = |e: int| g(e + 1);
    let sq = |e: int| (x[e + 1] - x[e]) * (x[e + 1] - x[e]);
    assert forall|e: int| 0 <= e < n - 1 implies #[trigger] sq(e) == (|e: int| gs(e) + h(e))(e) by {
        let u = x[e + 1];
        let v = x[e];
        assert((u - v) * (u - v) == u * (u - v) + v * (v - u)) by (nonlinear_arith);
    }
    lemma_sum_congruent(sq, |e: int| gs(e) + h(e), n - 1);
    lemma_sum_add(gs, h, n - 1);
}

// ------------------------------------------------------------------
// Complete graph
// ------------------------------------------------------------------

/// `(m x)_i = n x[i] - sum_j x[j]` for the complete-graph Laplacian.
proof fn lemma_complete_apply_row(m: Matrix<i64>, n: int, x: Seq<int>, i: int)
    requires
        is_complete_laplacian(m, n),
        x.len() == n,
        0 <= i < n,
    ensures
        apply_row(m, x, i) == n * x[i] - total(x),
{
    let f = |j: int| m.entry(i, j) * x[j];
    let a = |j: int| -1 * x[j];
    let b = |j: int| if j == i { n * x[i] } else { 0 };
    assert forall|j: int| 0 <= j < n implies #[trigger] f(j) == (|j: int| a(j) + b(j))(j) by {
        let e = m.entry(i, j) as int;
        assert(e == complete_entry(n, i, j));
        if j == i {
            assert(e * x[j] == -1 * x[j] + n * x[i]) by (nonlinear_arith)
                requires
                    e == n - 1,
                    j == i,
            ;
        } else {
            assert(e * x[j] == -1 * x[j]) by (nonlinear_arith)
                requires
                    e == -1,
            ;
        }
    }
    lemma_sum_congruent(f, |j: int| a(j) + b(j), n);
    lemma_sum_add(a, b, n);
    lemma_sum_scale(|j: int| x[j], -1, n);
    lemma_sum_congruent(a, |j: int| -1 * (|j: int| x[j])(j), n);
    lemma_sum_point(b, i, n * x[i], n);
}

/// Every row of the complete-graph Laplacian sums to zero.
pub proof fn lemma_complete_rows_sum_to_zero(m: Matrix<i64>, n: int)
    requires
        is_complete_laplacian(m, n),
    ensures
        rows_sum_to_zero(m),
{
    assert forall|i: int| 0 <= i < m.rows implies #[trigger] row_sum(m, i) == 0 by {
        let f = |j: int| m.entry(i, j) as int;
        let a = |j: int| -1int;
        let b = |j: int| if j == i { n } else { 0 };
        assert forall|j: int| 0 <= j < n implies #[trigger] f(j) == (|j: int| a(j) + b(j))(j) by {
            assert(m.entry(i, j) == complete_entry(n, i, j));
        }
        lemma_sum_congruent(f, |j: int| a(j) + b(j), n);
        lemma_sum_add(a, b, n);
        lemma_sum_const(a, -1, n);
        lemma_sum_point(b, i, n, n);
    }
}

/// The complete-graph Laplacian equals its transpose.
pub proof fn lemma_complete_symmetric(m: Matrix<i64>, n: int)
    requires
        is_complete_laplacian(m, n),
    ensures
        is_symmetric(m),
{
    assert forall|i: int, j: int| 0 <= i < m.rows && 0 <= j < m.rows implies #[trigger] m.entry(
        i,
        j,
    ) == m.entry(j, i) by {
        assert(m.entry(i, j) == complete_entry(n, i, j));
        assert(m.entry(j, i) == complete_entry(n, j, i));
    }
}

/// On the complete graph, the harmonic vectors are exactly the constant vectors.
pub proof fn lemma_complete_kernel_is_constants(m: Matrix<i64>, n: int)
    requires
        is_complete_laplacian(m, n),
    ensures
        kernel_is_constants(m),
{
    assert forall|x: Seq<int>| x.len() == m.cols implies (#[trigger] is_harmonic(m, x)
        <==> is_constant(x)) by {
        if is_harmonic(m, x) {
            assert forall|i: int, j: int|
                0 <= i < x.len() && 0 <= j < x.len() implies #[trigger] x[i] == #[trigger] x[j] by {
                lemma_complete_apply_row(m, n, x, i);
                lemma_complete_apply_row(m, n, x, j);
                assert(apply_row(m, x, i) == 0);
                assert(apply_row(m, x, j) == 0);
                let a = x[i];
                let b = x[j];
                assert(a == b) by (nonlinear_arith)
                    requires
                        n * a == n * b,
                        n > 0,
                ;
            }
        }
        if is_constant(x) {
            assert forall|i: int| 0 <= i < m.rows implies #[trigger] apply_row(m, x, i) == 0 by {
                lemma_complete_apply_row(m, n, x, i);
                let c = x[i];
                let xf = |j: int| x[j];
                assert forall|j: int| 0 <= j < n implies #[trigger] xf(j) == c by {
                    assert(x[j] == x[i]);
                }
                lemma_sum_const(xf, c, n);
                assert(n * c == c * n) by (nonlinear_arith);
            }
        }
    }
}

/// `sum_j (a - x[j])^2 = n a^2 - 2 a sum_j x[j] + sum_j x[j]^2`.
proof fn lemma_sum_of_squared_differences(x: Seq<int>, a: int)
    ensures
        sum_to(|j: int| (a - x[j]) * (a - x[j]), x.len() as int) == x.len() * (a * a) - 2 * a
            * total(x) + total_of_squares(x),
{
    let n = x.len() as int;
    let f = |j: int| (a - x[j]) * (a - x[j]);
    let c1 = |j: int| a * a;
    let c2 = |j: int| (-2 * a) * (|j: int| x[j])(j);
    let c3 = |j: int| x[j] * x[j];
    let c12 = |j: int| c1(j) + c2(j);
    assert forall|j: int| 0 <= j < n implies #[trigger] f(j) == (|j: int| c12(j) + c3(j))(j) by {
        let v = x[j];
        assert((a - v) * (a - v) == a * a + (-2 * a) * v + v * v) by (nonlinear_arith);
    }
    lemma_sum_congruent(f, |j: int| c12(j) + c3(j), n);
    lemma_sum_add(c12, c3, n);
    lemma_sum_add(c1, c2, n);
    lemma_sum_const(c1, a * a, n);
    lemma_sum_scale(|j: int| x[j], -2 * a, n);
    assert((a * a) * n == n * (a * a)) by (nonlinear_arith);
    assert((-2 * a) * total(x) == -(2 * a * total(x))) by (nonlinear_arith);
}

/// `n sum_j x[j]^2 >= (sum_j x[j])^2`: the double sum of squared differences is
/// `2 n sum x^2 - 2 (sum x)^2` and is never negative.
pub proof fn lemma_sum_square_bound(x: Seq<int>)
    ensures
        x.len() * total_of_squares(x) >= total(x) * total(x),
{
    let n = x.len() as int;
    let s = total(x);
    let q = total_of_squares(x);
    let inner = |i: int| sum_to(|j: int| (x[i] - x[j]) * (x[i] - x[j]), n);
    let d1 = |i: int| n * (|i: int| x[i] * x[i])(i);
    let d2 = |i: int| (-2 * s) * (|i: int| x[i])(i);
    let d3 = |i: int| q;
    let d12 = |i: int| d1(i) + d2(i);
    assert forall|i: int| 0 <= i < n implies #[trigger] inner(i) == (|i: int| d12(i) + d3(i))(i) by {
        lemma_sum_of_squared_differences(x, x[i]);
        let a = x[i];
        assert(n * (a * a) - 2 * a * s == n * (a * a) + (-2 * s) * a) by (nonlinear_arith);
    }
    lemma_sum_congruent(inner, |i: int| d12(i) + d3(i), n);
    lemma_sum_add(d12, d3, n);
    lemma_sum_add(d1, d2, n);
    lemma_sum_scale(|i: int| x[i] * x[i], n, n);
    lemma_sum_scale(|i: int| x[i], -2 * s, n);
    lemma_sum_const(d3, q, n);
    assert forall|i: int| 0 <= i < n implies #[trigger] inner(i) >= 0 by {
        let g = |j: int| (x[i] - x[j]) * (x[i] - x[j]);
        assert forall|j: int| 0 <= j < n implies #[trigger] g(j) >= 0 by {
            lemma_square_nonneg(x[i] - x[j]);
        }
        lemma_sum_nonneg(g, n);
    }
    lemma_sum_nonneg(inner, n);
    assert(n * q >= s * s) by (nonlinear_arith)
        requires
            n * q + (-2 * s) * s + q * n >= 0,
    ;
}

/// `x^T m x = n sum x^2 - (sum x)^2` for the complete-graph Laplacian.
pub proof fn lemma_complete_quadratic_form(m: Matrix<i64>, n: int, x: Seq<int>)
    requires
        is_complete_laplacian(m, n),
        x.len() == n,
    ensures
        quadratic_form(m, x) == n * total_of_squares(x) - total(x) * total(x),
{
    let s = total(x);
    let qf = |i: int| x[i] * apply_row(m, x, i);
    let a = |i: int| n * (|i: int| x[i] * x[i])(i);
    let b = |i: int| (-s) * (|i: int| x[i])(i);
    assert forall|i: int| 0 <= i < n implies #[trigger] qf(i) == (|i: int| a(i) + b(i))(i) by {
        lemma_complete_apply_row(m, n, x, i);
        let v = x[i];
        assert(v * (n * v - s) == n * (v * v) + (-s) * v) by (nonlinear_arith);
    }
    lemma_sum_congruent(qf, |i: int| a(i) + b(i), n);
    lemma_sum_add(a, b, n);
    lemma_sum_scale(|i: int| x[i] * x[i], n, n);
    lemma_sum_scale(|i: int| x[i], -s, n);
    assert((-s) * s == -(s * s)) by (nonlinear_arith);
}

/// On the complete graph every vector whose entries sum to zero is an eigenvector
/// with eigenvalue `n`: `m x = n x`.
pub proof fn lemma_complete_zero_sum_eigenvectors(m: Matrix<i64>, n: int)
    requires
        is_complete_laplacian(m, n),
    ensures
        forall|x: Seq<int>, i: int|
            x.len() == n && total(x) == 0 && 0 <= i < n ==> #[trigger] apply_row(m, x, i) == n
                * x[i],
{
    assert forall|x: Seq<int>, i: int|
        x.len() == n && total(x) == 0 && 0 <= i < n implies #[trigger] apply_row(m, x, i) == n
        * x[i] by {
        lemma_complete_apply_row(m, n, x, i);
    }
}

/// The complete-graph Laplacian is positive semidefinite.
pub proof fn lemma_complete_positive_semidefinite(m: Matrix<i64>, n: int)
    requires
        is_complete_laplacian(m, n),
    ensures
        is_positive_semidefinite(m),
{
    assert forall|x: Seq<int>| x.len() == m.cols implies #[trigger] quadratic_form(m, x) >= 0 by {
        lemma_complete_quadratic_form(m, n, x);
        lemma_sum_square_bound(x);
    }
}

// ------------------------------------------------------------------
// Cycle graph
// ------------------------------------------------------------------

/// The successor of vertex `i` around a cycle of `n` vertices.
pub open spec fn succ(n: int, i: int) -> int {
    if i + 1 < n {
        i + 1
    } else {
        0
    }
}

/// The predecessor of vertex `i` around a cycle of `n` vertices.
pub open spec fn pred(n: int, i: int) -> int {
    if i > 0 {
        i - 1
    } else {
        n - 1
    }
}

/// The residues that the cycle builder computes are the successor and the predecessor.
pub proof fn lemma_cycle_neighbours(n: int, i: int)
    requires
        0 <= i < n,
    ensures
        (i + 1) % n == succ(n, i),
        (i + n - 1) % n == pred(n, i),
{
    if i + 1 < n {
        vstd::arithmetic::div_mod::lemma_small_mod((i + 1) as nat, n as nat);
    } else {
        vstd::arithmetic::div_mod::lemma_mod_self_0(n);
    }
    if i > 0 {
        vstd::arithmetic::div_mod::lemma_mod_add_multiples_vanish(i - 1, n);
        vstd::arithmetic::div_mod::lemma_small_mod((i - 1) as nat, n as nat);
    } else {
        vstd::arithmetic::div_mod::lemma_small_mod((n - 1) as nat, n as nat);
    }
}

/// For `n >= 3`, entry `(i, j)` of the cycle matrix, in terms of neighbours.
proof fn lemma_cycle_entry(n: int, i: int, j: int)
    requires
        n >= 3,
        0 <= i < n,
        0 <= j < n,
    ensures
        cycle_entry(n, i, j) == (if j == i { 2int } else { 0int }) + (if j == pred(n, i) {
            -1int
        } else {
            0int
        }) + (if j == succ(n, i) { -1int } else { 0int }),
        pred(n, i) != i,
        succ(n, i) != i,
        pred(n, i) != succ(n, i),
        0 <= pred(n, i) < n,
        0 <= succ(n, i) < n,
        succ(n, pred(n, i)) == i,
        pred(n, succ(n, i)) == i,
{
    lemma_cycle_neighbours(n, i);
    lemma_cycle_neighbours(n, j);
}

/// On a cycle of one or two vertices, `(m x)_i` written out: `0`, or
/// `2 x[i] - 2 x[1 - i]` for the doubled edge.
proof fn lemma_small_cycle_apply_row(m: Matrix<i64>, n: int, x: Seq<int>, i: int)
    requires
        is_cycle_laplacian(m, n),
        n == 1 || n == 2,
        x.len() == n,
        0 <= i < n,
    ensures
        n == 1 ==> apply_row(m, x, i) == 0,
        n == 2 ==> apply_row(m, x, i) == 2 * x[i] - 2 * x[1 - i],
        n == 1 ==> row_sum(m, i) == 0,
        n == 2 ==> row_sum(m, i) == 0,
{
    let f = |j: int| m.entry(i, j) * x[j];
    let g = |j: int| m.entry(i, j) as int;
    assert(sum_to(f, 0) == 0);
    assert(sum_to(f, 1) == f(0));
    assert(sum_to(f, 2) == f(0) + f(1));
    assert(sum_to(g, 0) == 0);
    assert(sum_to(g, 1) == g(0));
    assert(sum_to(g, 2) == g(0) + g(1));
    if n == 1 {
        assert(m.entry(i, 0) == 0);
        assert(f(0) == 0) by (nonlinear_arith)
            requires
                f(0) == m.entry(i, 0) * x[0],
                m.entry(i, 0) == 0,
        ;
    } else {
        let e_same = m.entry(i, i) as int;
        let e_other = m.entry(i, 1 - i) as int;
        assert(e_same == 2 && e_other == -2);
        if i == 0 {
            assert(f(0) == e_same * x[i] && f(1) == e_other * x[1 - i]);
        } else {
            assert(f(1) == e_same * x[i] && f(0) == e_other * x[1 - i]);
        }
        assert(apply_row(m, x, i) == f(0) + f(1));
        assert(f(0) + f(1) == e_same * x[i] + e_other * x[1 - i]);
        let (u, w) = (x[i], x[1 - i]);
        assert(e_same * u + e_other * w == 2 * u - 2 * w) by (nonlinear_arith)
            requires
                e_same == 2,
                e_other == -2,
        ;
    }
}

/// The cycle Laplacian equals its transpose.
pub proof fn lemma_cycle_symmetric(m: Matrix<i64>, n: int)
    requires
        is_cycle_laplacian(m, n),
    ensures
        is_symmetric(m),
{
    assert forall|i: int, j: int| 0 <= i < m.rows && 0 <= j < m.rows implies #[trigger] m.entry(
        i,
        j,
    ) == m.entry(j, i) by {
        assert(m.entry(i, j) == cycle_entry(n, i, j));
        assert(m.entry(j, i) == cycle_entry(n, j, i));
    }
}

/// Every row of the cycle Laplacian sums to zero.
pub proof fn lemma_cycle_rows_sum_to_zero(m: Matrix<i64>, n: int)
    requires
        is_cycle_laplacian(m, n),
    ensures
        rows_sum_to_zero(m),
{
    assert forall|i: int| 0 <= i < m.rows implies #[trigger] row_sum(m, i) == 0 by {
        if n <= 2 {
            lemma_small_cycle_apply_row(m, n, Seq::new(n as nat, |j: int| 0int), i);
        } else {
            lemma_cycle_rows_sum_at_least_three(m, n, i);
        }
    }
}

/// Row `i` of the cycle Laplacian on at least three vertices sums to zero.
proof fn lemma_cycle_rows_sum_at_least_three(m: Matrix<i64>, n: int, i: int)
    requires
        is_cycle_laplacian(m, n),
        n >= 3,
        0 <= i < n,
    ensures
        row_sum(m, i) == 0,
{
    lemma_cycle_entry(n, i, i);
    let f = |j: int| m.entry(i, j) as int;
    assert forall|j: int| 0 <= j < n implies #[trigger] f(j) == (if j == i { 2int } else {
        0int
    }) + (if j == pred(n, i) { -1int } else { 0int }) + (if j == succ(n, i) {
        -1int
    } else {
        0int
    }) by {
        assert(m.entry(i, j) == cycle_entry(n, i, j));
        lemma_cycle_entry(n, i, j);
    }
    lemma_sum_three_points(f, n, i, 2, pred(n, i), -1, succ(n, i), -1);
}

/// `(m x)_i = 2 x[i] - x[pred i] - x[succ i]` on a cycle of at least three vertices.
proof fn lemma_cycle_apply_row(m: Matrix<i64>, n: int, x: Seq<int>, i: int)
    requires
        is_cycle_laplacian(m, n),
        n >= 3,
        x.len() == n,
        0 <= i < n,
    ensures
        apply_row(m, x, i) == 2 * x[i] - x[pred(n, i)] - x[succ(n, i)],
{
    lemma_cycle_entry(n, i, i);
    let f = |j: int| m.entry(i, j) * x[j];
    let p = pred(n, i);
    let q = succ(n, i);
    assert forall|j: int| 0 <= j < n implies #[trigger] f(j) == (if j == i { 2 * x[i] } else {
        0
    }) + (if j == p { -x[p] } else { 0 }) + (if j == q { -x[q] } else { 0 }) by {
        let e = m.entry(i, j) as int;
        assert(e == cycle_entry(n, i, j));
        lemma_cycle_entry(n, i, j);
        if j == i {
            assert(e * x[j] == 2 * x[i]) by (nonlinear_arith)
                requires
                    e == 2,
                    j == i,
            ;
        } else if j == p || j == q {
            assert(e * x[j] == -x[j]) by (nonlinear_arith)
                requires
                    e == -1,
            ;
        } else {
            assert(e * x[j] == 0) by (nonlinear_arith)
                requires
                    e == 0,
            ;
        }
    }
    lemma_sum_three_points(f, n, i, 2 * x[i], p, -x[p], q, -x[q]);
}

/// A harmonic vector on a cycle is an arithmetic progression along the cycle.
proof fn lemma_cycle_harmonic_progression(m: Matrix<i64>, n: int, x: Seq<int>, k: int)
    requires
        is_cycle_laplacian(m, n),
        n >= 3,
        x.len() == n,
        is_harmonic(m, x),
        1 <= k < n,
    ensures
        forall|t: int| 0 <= t <= k ==> #[trigger] x[t] == x[0] + t * (x[1] - x[0]),
    decreases k,
{
    let d = x[1] - x[0];
    if k == 1 {
        assert forall|t: int| 0 <= t <= k implies #[trigger] x[t] == x[0] + t * d by {
            if t == 0 {
                assert(t * d == 0) by (nonlinear_arith)
                    requires
                        t == 0,
                ;
            } else {
                assert(t * d == d) by (nonlinear_arith)
                    requires
                        t == 1,
                ;
            }
        }
    } else {
        lemma_cycle_harmonic_progression(m, n, x, k - 1);
        lemma_cycle_apply_row(m, n, x, k - 1);
        assert(apply_row(m, x, k - 1) == 0);
        let a = x[k - 1];
        let b = x[k - 2];
        assert(a == x[0] + (k - 1) * d);
        assert(b == x[0] + (k - 2) * d);
        assert(x[k] == x[0] + k * d) by (nonlinear_arith)
            requires
                2 * a - b - x[k] == 0,
                a == x[0] + (k - 1) * d,
                b == x[0] + (k - 2) * d,
        ;
        assert forall|t: int| 0 <= t <= k implies #[trigger] x[t] == x[0] + t * d by {
            if t < k {
                assert(x[t] == x[0] + t * d);
            }
        }
    }
}

/// On a cycle, the harmonic vectors are exactly the constant vectors.
pub proof fn lemma_cycle_kernel_is_constants(m: Matrix<i64>, n: int)
    requires
        is_cycle_laplacian(m, n),
    ensures
        kernel_is_constants(m),
{
    assert forall|x: Seq<int>| x.len() == m.cols implies (#[trigger] is_harmonic(m, x)
        <==> is_constant(x)) by {
        if n == 1 || n == 2 {
            lemma_small_cycle_kernel(m, n, x);
        } else if n >= 3 {
            lemma_cycle_kernel_at_least_three(m, n, x);
        }
    }
}

/// On a cycle of one or two vertices, the harmonic vectors are exactly the constant vectors.
proof fn lemma_small_cycle_kernel(m: Matrix<i64>, n: int, x: Seq<int>)
    requires
        is_cycle_laplacian(m, n),
        n == 1 || n == 2,
        x.len() == n,
    ensures
        is_harmonic(m, x) <==> is_constant(x),
{
    lemma_small_cycle_apply_row(m, n, x, 0);
    lemma_small_cycle_apply_row(m, n, x, n - 1);
    if is_harmonic(m, x) {
        assert(apply_row(m, x, 0) == 0);
        assert forall|i: int, j: int|
            0 <= i < x.len() && 0 <= j < x.len() implies #[trigger] x[i] == #[trigger] x[j] by {}
    }
    if is_constant(x) {
        assert forall|i: int| 0 <= i < m.rows implies #[trigger] apply_row(m, x, i) == 0 by {
            lemma_small_cycle_apply_row(m, n, x, i);
            assert(x[i] == x[n - 1 - i]);
        }
    }
}

/// On a cycle of at least three vertices, the harmonic vectors are exactly the constant vectors.
proof fn lemma_cycle_kernel_at_least_three(m: Matrix<i64>, n: int, x: Seq<int>)
    requires
        is_cycle_laplacian(m, n),
        n >= 3,
        x.len() == n,
    ensures
        is_harmonic(m, x) <==> is_constant(x),
{
    if is_harmonic(m, x) {
        let d = x[1] - x[0];
        lemma_cycle_harmonic_progression(m, n, x, n - 1);
        lemma_cycle_apply_row(m, n, x, n - 1);
        lemma_cycle_entry(n, n - 1, n - 1);
        assert(apply_row(m, x, n - 1) == 0);
        let a = x[n - 1];
        let b = x[n - 2];
        assert(a == x[0] + (n - 1) * d);
        assert(b == x[0] + (n - 2) * d);
        assert(d == 0) by (nonlinear_arith)
            requires
                2 * a - b - x[0] == 0,
                a == x[0] + (n - 1) * d,
                b == x[0] + (n - 2) * d,
                n >= 3,
        ;
        assert forall|i: int, j: int|
            0 <= i < x.len() && 0 <= j < x.len() implies #[trigger] x[i] == #[trigger] x[j] by {
            assert(x[i] == x[0] + i * d);
            assert(x[j] == x[0] + j * d);
            assert(i * d == 0 && j * d == 0) by (nonlinear_arith)
                requires
                    d == 0,
            ;
        }
    }
    if is_constant(x) {
        assert forall|i: int| 0 <= i < m.rows implies #[trigger] apply_row(m, x, i) == 0 by {
            lemma_cycle_apply_row(m, n, x, i);
            lemma_cycle_entry(n, i, i);
            assert(x[pred(n, i)] == x[i]);
            assert(x[succ(n, i)] == x[i]);
        }
    }
}

/// Summing `g` over the predecessors of `0..n` is summing `g` over `0..n`.
proof fn lemma_sum_over_pred(g: spec_fn(int) -> int, n: int)
    requires
        n >= 1,
    ensures
        sum_to(|i: int| g(pred(n, i)), n) == sum_to(g, n),
{
    let h = |i: int| g(pred(n, i));
    lemma_sum_shift(h, n - 1);
    let hs = |e: int| h(e + 1);
    assert forall|e: int| 0 <= e < n - 1 implies #[trigger] hs(e) == g(e) by {}
    lemma_sum_congruent(hs, g, n - 1);
    assert(sum_to(g, n) == sum_to(g, n - 1) + g(n - 1));
}

/// Summing `g` over the successors of `0..n` is summing `g` over `0..n`.
proof fn lemma_sum_over_succ(g: spec_fn(int) -> int, n: int)
    requires
        n >= 1,
    ensures
        sum_to(|i: int| g(succ(n, i)), n) == sum_to(g, n),
{
    let h = |i: int| g(succ(n, i));
    lemma_sum_shift(g, n - 1);
    let gs = |e: int| g(e + 1);
    assert forall|e: int| 0 <= e < n - 1 implies #[trigger] h(e) == gs(e) by {}
    lemma_sum_congruent(h, gs, n - 1);
    assert(sum_to(h, n) == sum_to(h, n - 1) + h(n - 1));
}

/// On a cycle of at least three vertices, `x^T m x` is the sum over the edges
/// `i - succ(i)` of `(x[i] - x[succ i])^2`.
pub proof fn lemma_cycle_quadratic_form(m: Matrix<i64>, n: int, x: Seq<int>)
    requires
        is_cycle_laplacian(m, n),
        n >= 3,
        x.len() == n,
    ensures
        quadratic_form(m, x) == sum_to(
            |i: int| (x[i] - x[succ(n, i)]) * (x[i] - x[succ(n, i)]),
            n,
        ),
{
    let sq = |i: int| x[i] * x[i];
    let link = |i: int| x[i] * x[succ(n, i)];
    let qf = |i: int| x[i] * apply_row(m, x, i);
    let t1 = |i: int| 2 * sq(i);
    let t2 = |i: int| -1 * (|i: int| link(pred(n, i)))(i);
    let t3 = |i: int| -1 * link(i);
    let t12 = |i: int| t1(i) + t2(i);
    assert forall|i: int| 0 <= i < n implies #[trigger] qf(i) == (|i: int| t12(i) + t3(i))(i) by {
        lemma_cycle_apply_row(m, n, x, i);
        lemma_cycle_entry(n, i, i);
        let p = pred(n, i);
        let v = x[i];
        assert(link(p) == x[p] * x[i]);
        assert(v * (2 * v - x[p] - x[succ(n, i)]) == 2 * (v * v) + -1 * (x[p] * v) + -1 * (v
            * x[succ(n, i)])) by (nonlinear_arith);
    }
    lemma_sum_congruent(qf, |i: int| t12(i) + t3(i), n);
    lemma_sum_add(t12, t3, n);
    lemma_sum_add(t1, t2, n);
    lemma_sum_scale(sq, 2, n);
    lemma_sum_scale(|i: int| link(pred(n, i)), -1, n);
    lemma_sum_scale(link, -1, n);
    lemma_sum_over_pred(link, n);
    let edge = |i: int| (x[i] - x[succ(n, i)]) * (x[i] - x[succ(n, i)]);
    let e1 = |i: int| sq(i);
    let e2 = |i: int| -2 * link(i);
    let e3 = |i: int| sq(succ(n, i));
    let e12 = |i: int| e1(i) + e2(i);
    assert forall|i: int| 0 <= i < n implies #[trigger] edge(i) == (|i: int| e12(i) + e3(i))(i) by {
        let u = x[i];
        let w = x[succ(n, i)];
        assert((u - w) * (u - w) == u * u + -2 * (u * w) + w * w) by (nonlinear_arith);
    }
    lemma_sum_congruent(edge, |i: int| e12(i) + e3(i), n);
    lemma_sum_add(e12, e3, n);
    lemma_sum_add(e1, e2, n);
    lemma_sum_congruent(e1, sq, n);
    lemma_sum_scale(link, -2, n);
    lemma_sum_over_succ(sq, n);
}

/// The cycle Laplacian is positive semidefinite.
pub proof fn lemma_cycle_positive_semidefinite(m: Matrix<i64>, n: int)
    requires
        is_cycle_laplacian(m, n),
    ensures
        is_positive_semidefinite(m),
{
    assert forall|x: Seq<int>| x.len() == m.cols implies #[trigger] quadratic_form(m, x) >= 0 by {
        if n >= 3 {
            lemma_cycle_quadratic_form(m, n, x);
            let edge = |i: int| (x[i] - x[succ(n, i)]) * (x[i] - x[succ(n, i)]);
            assert forall|i: int| 0 <= i < n implies #[trigger] edge(i) >= 0 by {
                lemma_square_nonneg(x[i] - x[succ(n, i)]);
            }
            lemma_sum_nonneg(edge, n);
        } else if n == 2 || n == 1 {
            lemma_small_cycle_apply_row(m, n, x, 0);
            lemma_small_cycle_apply_row(m, n, x, n - 1);
            let qf = |i: int| x[i] * apply_row(m, x, i);
            assert(sum_to(qf, 0) == 0);
            assert(sum_to(qf, 1) == qf(0));
            assert(sum_to(qf, 2) == qf(0) + qf(1));
            if n == 1 {
                assert(qf(0) == 0) by (nonlinear_arith)
                    requires
                        qf(0) == x[0] * apply_row(m, x, 0),
                        apply_row(m, x, 0) == 0,
                ;
            } else {
                let a = x[0];
                let b = x[1];
                assert(quadratic_form(m, x) == a * (2 * a - 2 * b) + b * (2 * b - 2 * a));
                assert(a * (2 * a - 2 * b) + b * (2 * b - 2 * a) >= 0) by (nonlinear_arith);
            }
        }
    }
}

} // verus!
