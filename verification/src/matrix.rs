//! Dense matrices stored row by row.
//!
//! The entry in row `i` and column `j` of a `rows x cols` matrix sits at
//! position `i * cols + j` of `data`.  Everything here moves entries around and
//! never computes with them, so it holds for any entry type.
use vstd::prelude::*;

verus! {

/// A dense matrix in row-major order.
#[derive(Debug, Clone, PartialEq)]
pub struct Matrix<T> {
    pub rows: usize,
    pub cols: usize,
    pub data: Vec<T>,
}

/// The element of a row-major sequence `s` with `cols` columns at row `r`, column `c`.
pub open spec fn cell<T>(s: Seq<T>, cols: int, r: int, c: int) -> T {
    s[r * cols + c]
}

/// Row `r`, column `c` lies inside a `rows x cols` grid, and its position is inside the data.
pub proof fn lemma_cell_index_bounds(rows: int, cols: int, r: int, c: int)
    requires
        0 <= r < rows,
        0 <= c < cols,
    ensures
        0 <= r * cols + c < rows * cols,
        r * cols + c + 1 <= rows * cols,
        r * cols <= r * cols + c,
{
    assert(0 <= r * cols + c < rows * cols) by (nonlinear_arith)
        requires
            0 <= r < rows,
            0 <= c < cols,
    ;
}

/// Two different cells of a grid sit at different positions.
pub proof fn lemma_cell_index_distinct(cols: int, r1: int, c1: int, r2: int, c2: int)
    requires
        0 <= r1,
        0 <= r2,
        0 <= c1 < cols,
        0 <= c2 < cols,
        r1 != r2 || c1 != c2,
    ensures
        r1 * cols + c1 != r2 * cols + c2,
{
    if r1 == r2 {
    } else if r1 < r2 {
        assert(r1 * cols + c1 < r2 * cols + c2) by (nonlinear_arith)
            requires
                0 <= r1 < r2,
                0 <= c1 < cols,
                0 <= c2,
        ;
    } else {
        assert(r2 * cols + c2 < r1 * cols + c1) by (nonlinear_arith)
            requires
                0 <= r2 < r1,
                0 <= c2 < cols,
                0 <= c1,
        ;
    }
}

/// Writing one position of a row-major grid changes that cell and no other.
pub proof fn lemma_cell_update<T>(s: Seq<T>, rows: int, cols: int, i: int, j: int, v: T)
    requires
        s.len() == rows * cols,
        0 <= i < rows,
        0 <= j < cols,
    ensures
        forall|r: int, c: int|
            0 <= r < rows && 0 <= c < cols ==> #[trigger] cell(s.update(i * cols + j, v), cols, r, c)
                == if r == i && c == j {
                v
            } else {
                cell(s, cols, r, c)
            },
{
    lemma_cell_index_bounds(rows, cols, i, j);
    assert forall|r: int, c: int| 0 <= r < rows && 0 <= c < cols implies #[trigger] cell(
        s.update(i * cols + j, v),
        cols,
        r,
        c,
    ) == if r == i && c == j {
        v
    } else {
        cell(s, cols, r, c)
    } by {
        lemma_cell_index_bounds(rows, cols, r, c);
        if r != i || c != j {
            lemma_cell_index_distinct(cols, r, c, i, j);
        }
    }
}

impl<T> Matrix<T> {
    /// The data holds exactly one entry per cell.
    pub open spec fn well_formed(&self) -> bool {
        self.data@.len() == self.rows * self.cols
    }

    /// The entry in row `r` and column `c`.
    pub open spec fn entry(&self, r: int, c: int) -> T {
        cell(self.data@, self.cols as int, r, c)
    }

    /// Every entry is `value`.
    pub open spec fn is_filled_with(&self, value: T) -> bool {
        forall|k: int| 0 <= k < self.data@.len() ==> #[trigger] self.data@[k] == value
    }
}

/// `t` is the transpose of `m`: entry `(j, i)` of `t` is entry `(i, j)` of `m`.
pub open spec fn is_transpose_of<T>(t: Matrix<T>, m: Matrix<T>) -> bool {
    &&& t.rows == m.cols
    &&& t.cols == m.rows
    &&& t.well_formed()
    &&& forall|i: int, j: int|
        0 <= i < m.rows && 0 <= j < m.cols ==> #[trigger] t.entry(j, i) == m.entry(i, j)
}

/// Transposing a well-formed matrix twice gives it back.
pub proof fn lemma_transpose_twice<T>(m: Matrix<T>, t: Matrix<T>, tt: Matrix<T>)
    requires
        m.well_formed(),
        is_transpose_of(t, m),
        is_transpose_of(tt, t),
    ensures
        tt.rows == m.rows,
        tt.cols == m.cols,
        tt.data@ == m.data@,
{
    let cols = m.cols as int;
    assert forall|k: int| 0 <= k < m.data@.len() implies #[trigger] tt.data@[k] == m.data@[k] by {
        let r = k / cols;
        let c = k % cols;
        assert(cols > 0) by (nonlinear_arith)
            requires
                0 <= k < m.rows * cols,
        ;
        vstd::arithmetic::div_mod::lemma_fundamental_div_mod(k, cols);
        assert(0 <= c < cols);
        assert(0 <= r < m.rows) by (nonlinear_arith)
            requires
                r * cols + c == k,
                0 <= c < cols,
                0 <= k < m.rows * cols,
                cols > 0,
        ;
        assert(r * cols + c == k) by (nonlinear_arith)
            requires
                k == cols * (k / cols) + k % cols,
                r == k / cols,
                c == k % cols,
        ;
        assert(tt.entry(r, c) == t.entry(c, r));
        assert(t.entry(c, r) == m.entry(r, c));
    }
    assert(tt.data@ =~= m.data@);
}

impl<T: Copy> Matrix<T> {
    /// A `rows x cols` matrix all of whose entries are `zero`.
    pub fn zeros(rows: usize, cols: usize, zero: T) -> (m: Self)
        requires
            rows * cols <= usize::MAX,
        ensures
            m.rows == rows,
            m.cols == cols,
            m.well_formed(),
            m.is_filled_with(zero),
            forall|i: int, j: int|
                0 <= i < rows && 0 <= j < cols ==> #[trigger] m.entry(i, j) == zero,
    {
        let len: usize = rows * cols;
        let mut data: Vec<T> = Vec::new();
        let mut k: usize = 0;
        while k < len
            invariant
                k <= len,
                data@.len() == k,
                forall|t: int| 0 <= t < k ==> #[trigger] data@[t] == zero,
            decreases len - k,
        {
            data.push(zero);
            k = k + 1;
        }
        proof {
            assert forall|i: int, j: int| 0 <= i < rows && 0 <= j < cols implies #[trigger] cell(
                data@,
                cols as int,
                i,
                j,
            ) == zero by {
                lemma_cell_index_bounds(rows as int, cols as int, i, j);
            }
        }
        Matrix { rows, cols, data }
    }

    /// The `n x n` identity matrix: `one` on the diagonal, `zero` elsewhere.
    pub fn identity(n: usize, zero: T, one: T) -> (m: Self)
        requires
            n * n <= usize::MAX,
        ensures
            m.rows == n,
            m.cols == n,
            m.well_formed(),
            forall|i: int, j: int|
                0 <= i < n && 0 <= j < n ==> #[trigger] m.entry(i, j) == if i == j {
                    one
                } else {
                    zero
                },
    {
        let mut m = Self::zeros(n, n, zero);
        let mut i: usize = 0;
        while i < n
            invariant
                i <= n,
                m.rows == n,
                m.cols == n,
                m.well_formed(),
                forall|r: int, c: int|
                    0 <= r < n && 0 <= c < n ==> #[trigger] m.entry(r, c) == if r == c && r < i {
                        one
                    } else {
                        zero
                    },
            decreases n - i,
        {
            proof {
                lemma_cell_index_bounds(n as int, n as int, i as int, i as int);
            }
            m.set(i, i, one);
            i = i + 1;
        }
        m
    }

    /// A matrix with the given shape whose data is a copy of `data`.
    pub fn from_row_slice(rows: usize, cols: usize, data: &[T]) -> (m: Self)
        ensures
            m.rows == rows,
            m.cols == cols,
            m.data@ == data@,
    {
        Matrix { rows, cols, data: vstd::slice::slice_to_vec(data) }
    }

    /// The square matrix with `diag` on its diagonal and `zero` elsewhere.
    pub fn from_diag(diag: &[T], zero: T) -> (m: Self)
        requires
            diag.len() * diag.len() <= usize::MAX,
        ensures
            m.rows == diag.len(),
            m.cols == diag.len(),
            m.well_formed(),
            forall|i: int, j: int|
                0 <= i < diag.len() && 0 <= j < diag.len() ==> #[trigger] m.entry(i, j) == if i
                    == j {
                    diag@[i]
                } else {
                    zero
                },
    {
        let n = diag.len();
        let mut m = Self::zeros(n, n, zero);
        let mut i: usize = 0;
        while i < n
            invariant
                n == diag.len(),
                i <= n,
                m.rows == n,
                m.cols == n,
                m.well_formed(),
                forall|r: int, c: int|
                    0 <= r < n && 0 <= c < n ==> #[trigger] m.entry(r, c) == if r == c && r < i {
                        diag@[r]
                    } else {
                        zero
                    },
            decreases n - i,
        {
            proof {
                lemma_cell_index_bounds(n as int, n as int, i as int, i as int);
            }
            m.set(i, i, diag[i]);
            i = i + 1;
        }
        m
    }

    /// The value at row `i`, column `j`.
    pub fn get(&self, i: usize, j: usize) -> (v: T)
        requires
            i * self.cols + j < self.data.len(),
        ensures
            v == self.data@[i * self.cols + j],
    {
        self.data[i * self.cols + j]
    }

    /// Replaces the value at row `i`, column `j`.
    pub fn set(&mut self, i: usize, j: usize, val: T)
        requires
            i * old(self).cols + j < old(self).data.len(),
        ensures
            final(self).rows == old(self).rows,
            final(self).cols == old(self).cols,
            final(self).data@ == old(self).data@.update(i * old(self).cols + j, val),
            old(self).well_formed() ==> final(self).well_formed(),
            old(self).well_formed() && i < old(self).rows && j < old(self).cols ==> forall|
                r: int,
                c: int,
            |
                0 <= r < old(self).rows && 0 <= c < old(self).cols ==> #[trigger] final(self).entry(
                    r,
                    c,
                ) == if r == i && c == j {
                    val
                } else {
                    old(self).entry(r, c)
                },
    {
        let k = i * self.cols + j;
        let ghost before = self.data@;
        self.data.set(k, val);
        proof {
            if old(self).well_formed() && i < old(self).rows && j < old(self).cols {
                lemma_cell_update(
                    before,
                    old(self).rows as int,
                    old(self).cols as int,
                    i as int,
                    j as int,
                    val,
                );
            }
        }
    }

    /// The transposed matrix: row `j`, column `i` of the result is row `i`, column `j` of `self`.
    pub fn transpose(&self) -> (t: Self)
        requires
            self.rows * self.cols <= self.data.len(),
        ensures
            is_transpose_of(t, *self),
    {
        let rows = self.rows;
        let cols = self.cols;
        let mut data: Vec<T> = Vec::new();
        let mut j: usize = 0;
        while j < cols
            invariant
                rows == self.rows,
                cols == self.cols,
                rows * cols <= self.data.len(),
                j <= cols,
                data@.len() == j * rows,
                forall|c: int, r: int|
                    0 <= c < j && 0 <= r < rows ==> #[trigger] cell(data@, rows as int, c, r)
                        == self.entry(r, c),
            decreases cols - j,
        {
            let mut i: usize = 0;
            while i < rows
                invariant
                    rows == self.rows,
                    cols == self.cols,
                    rows * cols <= self.data.len(),
                    j < cols,
                    i <= rows,
                    data@.len() == j * rows + i,
                    forall|c: int, r: int|
                        0 <= c < j && 0 <= r < rows ==> #[trigger] cell(data@, rows as int, c, r)
                            == self.entry(r, c),
                    forall|r: int|
                        0 <= r < i ==> #[trigger] cell(data@, rows as int, j as int, r)
                            == self.entry(r, j as int),
                decreases rows - i,
            {
                proof {
                    lemma_cell_index_bounds(rows as int, cols as int, i as int, j as int);
                }
                let v = self.data[i * cols + j];
                let ghost before = data@;
                data.push(v);
                proof {
                    assert forall|c: int, r: int|
                        0 <= c < j && 0 <= r < rows implies #[trigger] cell(
                        data@,
                        rows as int,
                        c,
                        r,
                    ) == self.entry(r, c) by {
                        lemma_cell_index_bounds(j as int, rows as int, c, r);
                        assert(cell(data@, rows as int, c, r) == cell(before, rows as int, c, r));
                    }
                    assert forall|r: int| 0 <= r < i + 1 implies #[trigger] cell(
                        data@,
                        rows as int,
                        j as int,
                        r,
                    ) == self.entry(r, j as int) by {
                        if r < i {
                            assert(cell(data@, rows as int, j as int, r) == cell(
                                before,
                                rows as int,
                                j as int,
                                r,
                            ));
                        }
                    }
                }
                i = i + 1;
            }
            proof {
                assert((j + 1) * rows == j * rows + rows) by (nonlinear_arith);
            }
            j = j + 1;
        }
        proof {
            assert(cols * rows == rows * cols) by (nonlinear_arith);
        }
        Matrix { rows: cols, cols: rows, data }
    }

    /// Column `j`, read from the top row down.
    pub fn column(&self, j: usize) -> (col: Vec<T>)
        requires
            self.rows == 0 || (self.rows - 1) * self.cols + j < self.data.len(),
        ensures
            col@.len() == self.rows,
            forall|i: int| 0 <= i < self.rows ==> #[trigger] col@[i] == self.entry(i, j as int),
    {
        let mut col: Vec<T> = Vec::new();
        let mut i: usize = 0;
        while i < self.rows
            invariant
                i <= self.rows,
                self.rows == 0 || (self.rows - 1) * self.cols + j < self.data.len(),
                col@.len() == i,
                forall|r: int| 0 <= r < i ==> #[trigger] col@[r] == self.entry(r, j as int),
            decreases self.rows - i,
        {
            proof {
                let last = self.rows - 1;
                assert(i * self.cols <= last * self.cols) by (nonlinear_arith)
                    requires
                        i <= last,
                ;
            }
            col.push(self.data[i * self.cols + j]);
            i = i + 1;
        }
        col
    }
    /// The diagonal entries `(i, i)` for `i` below both the row and the column count.
    pub fn diagonal(&self) -> (d: Vec<T>)
        requires
            self.well_formed(),
        ensures
            d@.len() == if self.rows < self.cols {
                self.rows
            } else {
                self.cols
            },
            forall|i: int| 0 <= i < d@.len() ==> #[trigger] d@[i] == self.entry(i, i),
    {
        let n = if self.rows < self.cols {
            self.rows
        } else {
            self.cols
        };
        let mut d: Vec<T> = Vec::new();
        let mut i: usize = 0;
        while i < n
            invariant
                self.well_formed(),
                n <= self.rows,
                n <= self.cols,
                i <= n,
                d@.len() == i,
                forall|k: int| 0 <= k < i ==> #[trigger] d@[k] == self.entry(k, k),
            decreases n - i,
        {
            proof {
                lemma_cell_index_bounds(self.rows as int, self.cols as int, i as int, i as int);
                assert(self.data@.len() == self.data.len());
            }
            d.push(self.data[i * self.cols + i]);
            i = i + 1;
        }
        d
    }

    /// The matrix whose column `c` is column `order[c]` of `self`.
    pub fn select_columns(&self, order: &[usize]) -> (m: Self)
        requires
            self.well_formed(),
            forall|c: int| 0 <= c < order@.len() ==> #[trigger] order@[c] < self.cols,
        ensures
            m.rows == self.rows,
            m.cols == order@.len(),
            m.well_formed(),
            forall|r: int, c: int|
                0 <= r < m.rows && 0 <= c < m.cols ==> #[trigger] m.entry(r, c) == self.entry(
                    r,
                    order@[c] as int,
                ),
    {
        let rows = self.rows;
        let cols = order.len();
        let mut data: Vec<T> = Vec::new();
        let mut r: usize = 0;
        while r < rows
            invariant
                self.well_formed(),
                rows == self.rows,
                cols == order@.len(),
                forall|c: int| 0 <= c < order@.len() ==> #[trigger] order@[c] < self.cols,
                r <= rows,
                data@.len() == r * cols,
                forall|i: int, c: int|
                    0 <= i < r && 0 <= c < cols ==> #[trigger] cell(data@, cols as int, i, c)
                        == self.entry(i, order@[c] as int),
            decreases rows - r,
        {
            let mut c: usize = 0;
            while c < cols
                invariant
                    self.well_formed(),
                    rows == self.rows,
                    cols == order@.len(),
                    forall|k: int| 0 <= k < order@.len() ==> #[trigger] order@[k] < self.cols,
                    r < rows,
                    c <= cols,
                    data@.len() == r * cols + c,
                    forall|i: int, k: int|
                        0 <= i < r && 0 <= k < cols ==> #[trigger] cell(data@, cols as int, i, k)
                            == self.entry(i, order@[k] as int),
                    forall|k: int|
                        0 <= k < c ==> #[trigger] cell(data@, cols as int, r as int, k)
                            == self.entry(r as int, order@[k] as int),
                decreases cols - c,
            {
                let src = order[c];
                proof {
                    lemma_cell_index_bounds(rows as int, self.cols as int, r as int, src as int);
                    assert(self.data@.len() == self.data.len());
                }
                let v = self.data[r * self.cols + src];
                let ghost before = data@;
                data.push(v);
                proof {
                    assert forall|i: int, k: int|
                        0 <= i < r && 0 <= k < cols implies #[trigger] cell(
                        data@,
                        cols as int,
                        i,
                        k,
                    ) == self.entry(i, order@[k] as int) by {
                        lemma_cell_index_bounds(r as int, cols as int, i, k);
                        assert(cell(data@, cols as int, i, k) == cell(before, cols as int, i, k));
                    }
                    assert forall|k: int| 0 <= k < c + 1 implies #[trigger] cell(
                        data@,
                        cols as int,
                        r as int,
                        k,
                    ) == self.entry(r as int, order@[k] as int) by {
                        if k < c {
                            assert(cell(data@, cols as int, r as int, k) == cell(
                                before,
                                cols as int,
                                r as int,
                                k,
                            ));
                        }
                    }
                }
                c = c + 1;
            }
            proof {
                assert((r + 1) * cols == r * cols + cols) by (nonlinear_arith);
            }
            r = r + 1;
        }
        Matrix { rows, cols: order.len(), data }
    }
}

/// The sequence whose element `k` is `values[order[k]]`.
pub fn select<T: Copy>(values: &[T], order: &[usize]) -> (out: Vec<T>)
    requires
        forall|k: int| 0 <= k < order@.len() ==> #[trigger] order@[k] < values@.len(),
    ensures
        out@.len() == order@.len(),
        forall|k: int| 0 <= k < order@.len() ==> #[trigger] out@[k] == values@[order@[k] as int],
{
    let mut out: Vec<T> = Vec::new();
    let mut k: usize = 0;
    while k < order.len()
        invariant
            forall|t: int| 0 <= t < order@.len() ==> #[trigger] order@[t] < values@.len(),
            k <= order@.len(),
            out@.len() == k,
            forall|t: int| 0 <= t < k ==> #[trigger] out@[t] == values@[order@[t] as int],
        decreases order@.len() - k,
    {
        out.push(values[order[k]]);
        k = k + 1;
    }
    out
}

} // verus!
