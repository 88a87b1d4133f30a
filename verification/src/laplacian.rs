//! Graph Laplacians of the path, the cycle and the complete graph on `n` vertices.
//!
//! Their entries are small integers, so they are built exactly over `i64`.
use vstd::prelude::*;
use crate::matrix::{lemma_cell_index_bounds, Matrix};
use crate::sums::{sum_to, total};
use crate::laplacian_laws::{
    lemma_complete_kernel_is_constants, lemma_complete_positive_semidefinite,
    lemma_complete_rows_sum_to_zero, lemma_complete_symmetric,
    lemma_complete_zero_sum_eigenvectors, lemma_cycle_kernel_is_constants, lemma_cycle_neighbours,
    lemma_cycle_positive_semidefinite, lemma_cycle_rows_sum_to_zero, lemma_cycle_symmetric,
    lemma_path_kernel_is_constants, lemma_path_positive_semidefinite, lemma_path_rows_sum_to_zero,
    lemma_path_symmetric,
};

verus! {

/// Entry `(i, j)` of the Laplacian of the path `0 - 1 - ... - (n-1)`.
pub open spec fn path_entry(n: int, i: int, j: int) -> int {
    if i == j {
        (if i > 0 { 1int } else { 0int }) + (if i < n - 1 { 1int } else { 0int })
    } else if j == i - 1 || j == i + 1 {
        -1
    } else {
        0
    }
}

/// Entry `(i, j)` of the Laplacian of the cycle `0 - 1 - ... - (n-1) - 0`.
///
/// The cycle has the `n` edges `{i, (i + 1) mod n}`.  With two vertices both
/// edges join `0` and `1`, so the edge counts twice; with one vertex the only
/// edge is a loop, which leaves the Laplacian at zero.
pub open spec fn cycle_entry(n: int, i: int, j: int) -> int {
    if n <= 1 {
        0
    } else if n == 2 {
        if i == j {
            2
        } else {
            -2
        }
    } else if i == j {
        2
    } else if j == (i + 1) % n || i == (j + 1) % n {
        -1
    } else {
        0
    }
}

/// Entry `(i, j)` of the Laplacian of the complete graph on `n` vertices.
pub open spec fn complete_entry(n: int, i: int, j: int) -> int {
    if i == j {
        n - 1
    } else {
        -1
    }
}

/// `m` is the `n x n` matrix whose entries are given by `f`.
pub open spec fn has_entries(m: Matrix<i64>, n: int, f: spec_fn(int, int) -> int) -> bool {
    &&& m.rows == n
    &&& m.cols == n
    &&& m.well_formed()
    &&& forall|i: int, j: int| 0 <= i < n && 0 <= j < n ==> #[trigger] m.entry(i, j) == f(i, j)
}

/// `m` is the path Laplacian on `n` vertices.
pub open spec fn is_path_laplacian(m: Matrix<i64>, n: int) -> bool {
    has_entries(m, n, |i: int, j: int| path_entry(n, i, j))
}

/// `m` is the cycle Laplacian on `n` vertices.
pub open spec fn is_cycle_laplacian(m: Matrix<i64>, n: int) -> bool {
    has_entries(m, n, |i: int, j: int| cycle_entry(n, i, j))
}

/// `m` is the complete-graph Laplacian on `n` vertices.
pub open spec fn is_complete_laplacian(m: Matrix<i64>, n: int) -> bool {
    has_entries(m, n, |i: int, j: int| complete_entry(n, i, j))
}

/// The sum of row `i`.
pub open spec fn row_sum(m: Matrix<i64>, i: int) -> int {
    sum_to(|j: int| m.entry(i, j) as int, m.cols as int)
}

/// Every row sums to zero.
pub open spec fn rows_sum_to_zero(m: Matrix<i64>) -> bool {
    forall|i: int| 0 <= i < m.rows ==> #[trigger] row_sum(m, i) == 0
}

/// The matrix is square and equal to its transpose.
pub open spec fn is_symmetric(m: Matrix<i64>) -> bool {
    &&& m.rows == m.cols
    &&& forall|i: int, j: int|
        0 <= i < m.rows && 0 <= j < m.rows ==> #[trigger] m.entry(i, j) == m.entry(j, i)
}

/// Entry `i` of the product of `m` with the column vector `x`.
pub open spec fn apply_row(m: Matrix<i64>, x: Seq<int>, i: int) -> int {
    sum_to(|j: int| m.entry(i, j) * x[j], m.cols as int)
}

/// `x` lies in the kernel of `m`: `m x = 0`.
pub open spec fn is_harmonic(m: Matrix<i64>, x: Seq<int>) -> bool {
    forall|i: int| 0 <= i < m.rows ==> #[trigger] apply_row(m, x, i) == 0
}

/// All entries of `x` are equal.
pub open spec fn is_constant(x: Seq<int>) -> bool {
    forall|i: int, j: int| 0 <= i < x.len() && 0 <= j < x.len() ==> #[trigger] x[i] == #[trigger] x[j]
}

/// The quadratic form `x^T m x`.
pub open spec fn quadratic_form(m: Matrix<i64>, x: Seq<int>) -> int {
    sum_to(|i: int| x[i] * apply_row(m, x, i), m.rows as int)
}

/// The harmonic vectors of `m` (of the right length) are exactly the constant vectors.
pub open spec fn kernel_is_constants(m: Matrix<i64>) -> bool {
    forall|x: Seq<int>| x.len() == m.cols ==> (#[trigger] is_harmonic(m, x) <==> is_constant(x))
}

/// `x^T m x >= 0` for every integer vector `x` of the right length.
pub open spec fn is_positive_semidefinite(m: Matrix<i64>) -> bool {
    forall|x: Seq<int>| x.len() == m.cols ==> #[trigger] quadratic_form(m, x) >= 0
}

/// Build a path graph Laplacian.
pub fn path_laplacian(n: usize) -> (l: Matrix<i64>)
    requires
        n * n <= usize::MAX,
    ensures
        is_path_laplacian(l, n as int),
        is_symmetric(l),
        rows_sum_to_zero(l),
        kernel_is_constants(l),
        is_positive_semidefinite(l),
{
    let mut l = Matrix::zeros(n, n, 0i64);
    let mut i: usize = 0;
    while i < n
        invariant
            i <= n,
            n * n <= usize::MAX,
            l.rows == n,
            l.cols == n,
            l.well_formed(),
            forall|r: int, c: int|
                0 <= r < n && 0 <= c < n ==> #[trigger] l.entry(r, c) == if r < i {
                    path_entry(n as int, r, c)
                } else {
                    0
                },
        decreases n - i,
    {
        proof {
            lemma_cell_index_bounds(n as int, n as int, i as int, i as int);
        }
        let ghost start = l;
        if i > 0 {
            proof {
                lemma_cell_index_bounds(
                    n as int,
                    n as int,
                    i as int,
                    (i - 1) as int,
                );
            }
            let d = l.get(i, i);
            assert(d == start.entry(i as int, i as int));
            l.set(i, i, d + 1);
            l.set(i, i - 1, -1);
        }
        let ghost middle = l;
        if i < n - 1 {
            proof {
                lemma_cell_index_bounds(
                    n as int,
                    n as int,
                    i as int,
                    (i + 1) as int,
                );
            }
            let d = l.get(i, i);
            assert(d == middle.entry(i as int, i as int));
            l.set(i, i, d + 1);
            l.set(i, i + 1, -1);
        }
        proof {
            assert forall|r: int, c: int| 0 <= r < n && 0 <= c < n implies #[trigger] l.entry(r, c)
                == if r < i + 1 {
                path_entry(n as int, r, c)
            } else {
                0
            } by {
                assert(start.entry(r, c) == if r < i {
                    path_entry(n as int, r, c)
                } else {
                    0
                });
                assert(middle.entry(r, c) == l.entry(r, c) || r == i);
            }
        }
        i = i + 1;
    }
    proof {
        lemma_path_symmetric(l, n as int);
        lemma_path_rows_sum_to_zero(l, n as int);
        lemma_path_kernel_is_constants(l, n as int);
        lemma_path_positive_semidefinite(l, n as int);
    }
    l
}

/// Build a cycle graph Laplacian.
pub fn cycle_laplacian(n: usize) -> (l: Matrix<i64>)
    requires
        n * n <= usize::MAX,
    ensures
        is_cycle_laplacian(l, n as int),
        is_symmetric(l),
        rows_sum_to_zero(l),
        kernel_is_constants(l),
        is_positive_semidefinite(l),
{
    let mut l = Matrix::zeros(n, n, 0i64);
    let mut i: usize = 0;
    while i < n
        invariant
            i <= n,
            n * n <= usize::MAX,
            l.rows == n,
            l.cols == n,
            l.well_formed(),
            forall|r: int, c: int|
                0 <= r < n && 0 <= c < n ==> #[trigger] l.entry(r, c) == if r < i {
                    cycle_entry(n as int, r, c)
                } else {
                    0
                },
        decreases n - i,
    {
        let ghost start = l;
        if n >= 2 {
            // vertex `i` has degree two; each of its two edges subtracts one
            // from the entry of the vertex at its other end
            proof {
                assert(n + n <= n * n) by (nonlinear_arith)
                    requires
                        n >= 2,
                ;
            }
            let next = (i + 1) % n;
            let prev = (i + n - 1) % n;
            proof {
                lemma_cycle_neighbours(n as int, i as int);
                lemma_cell_index_bounds(n as int, n as int, i as int, i as int);
                lemma_cell_index_bounds(n as int, n as int, i as int, next as int);
                lemma_cell_index_bounds(n as int, n as int, i as int, prev as int);
            }
            assert(start.entry(i as int, next as int) == 0);
            l.set(i, i, 2);
            assert(l.entry(i as int, next as int) == 0);
            let to_next = l.get(i, next);
            l.set(i, next, to_next - 1);
            let ghost middle = l;
            let to_prev = l.get(i, prev);
            assert(to_prev == middle.entry(i as int, prev as int));
            assert(to_prev >= -1);
            l.set(i, prev, to_prev - 1);
        }
        proof {
            assert forall|r: int, c: int| 0 <= r < n && 0 <= c < n implies #[trigger] l.entry(r, c)
                == if r < i + 1 {
                cycle_entry(n as int, r, c)
            } else {
                0
            } by {
                assert(start.entry(r, c) == if r < i {
                    cycle_entry(n as int, r, c)
                } else {
                    0
                });
                if n >= 2 && r == i {
                    lemma_cycle_neighbours(n as int, i as int);
                    lemma_cycle_neighbours(n as int, c);
                }
            }
        }
        i = i + 1;
    }
    proof {
        lemma_cycle_symmetric(l, n as int);
        lemma_cycle_rows_sum_to_zero(l, n as int);
        lemma_cycle_kernel_is_constants(l, n as int);
        lemma_cycle_positive_semidefinite(l, n as int);
    }
    l
}

/// Build a complete graph Laplacian.
pub fn complete_laplacian(n: usize) -> (l: Matrix<i64>)
    requires
        n * n <= usize::MAX,
    ensures
        is_complete_laplacian(l, n as int),
        is_symmetric(l),
        rows_sum_to_zero(l),
        kernel_is_constants(l),
        is_positive_semidefinite(l),
        forall|x: Seq<int>, i: int|
            x.len() == n && total(x) == 0 && 0 <= i < n ==> #[trigger] apply_row(l, x, i) == n
                * x[i],
{
    let mut l = Matrix::zeros(n, n, 0i64);
    proof {
        if n > 0x1_0000_0000 {
            assert(n * n > 0x1_0000_0000 * 0x1_0000_0000) by (nonlinear_arith)
                requires
                    n > 0x1_0000_0000,
            ;
        }
    }
    let mut i: usize = 0;
    while i < n
        invariant
            i <= n,
            n <= 0x1_0000_0000,
            l.rows == n,
            l.cols == n,
            l.well_formed(),
            forall|r: int, c: int|
                0 <= r < n && 0 <= c < n ==> #[trigger] l.entry(r, c) == if r < i {
                    complete_entry(n as int, r, c)
                } else {
                    0
                },
        decreases n - i,
    {
        proof {
            lemma_cell_index_bounds(n as int, n as int, i as int, i as int);
        }
        let degree = (n - 1) as i64;
        l.set(i, i, degree);
        let mut j: usize = 0;
        while j < n
            invariant
                i < n,
                j <= n,
                n <= 0x1_0000_0000,
                degree == n - 1,
                l.rows == n,
                l.cols == n,
                l.well_formed(),
                forall|r: int, c: int|
                    0 <= r < n && 0 <= c < n ==> #[trigger] l.entry(r, c) == if r < i || (r == i
                        && (c < j || c == i)) {
                        complete_entry(n as int, r, c)
                    } else {
                        0
                    },
            decreases n - j,
        {
            if i != j {
                proof {
                    lemma_cell_index_bounds(n as int, n as int, i as int, j as int);
                }
                l.set(i, j, -1);
            }
            j = j + 1;
        }
        i = i + 1;
    }
    proof {
        lemma_complete_symmetric(l, n as int);
        lemma_complete_rows_sum_to_zero(l, n as int);
        lemma_complete_kernel_is_constants(l, n as int);
        lemma_complete_positive_semidefinite(l, n as int);
        lemma_complete_zero_sum_eigenvectors(l, n as int);
    }
    l
}

} // verus!
