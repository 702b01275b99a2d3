//! Dense row-major matrices over a `Scalar` element type.
//!
//! A matrix owns its rows as dense vectors of scalars.  The elimination
//! family (`row_echelon`, `determinant`, `inverse`, `rank`, `row_space`,
//! `col_space`) is specified against spec-level functional versions of the
//! same algorithms, so each executable function's contract pins its result
//! exactly, for real and complex scalars alike.

use crate::complex::{c_mul, c_neg, c_sub, lemma_c_mul_comm, lemma_c_sub_swap, Complex};
use crate::rat::{elim_exact, lemma_int_frac_wf, lemma_rat_eliminate_zero, lemma_rat_inv_one,
    lemma_rat_mul_comm, lemma_rat_mul_inv, lemma_rat_mul_one, lemma_rat_norm, lemma_rat_ops_wf,
    lemma_rat_sub_swap, lemma_rat_wf_zero, rat_mul, rat_neg, rat_one, rat_sub, rat_zero, Rat};
use crate::scalar::{Lerp, Scalar};
use crate::vector::Vector;
use vstd::prelude::*;

verus! {

/// A dense, rectangular, row-major array of scalars.
#[derive(Clone)]
pub struct Matrix<K> {
    pub data: Vec<Vec<K>>,
    pub rows: usize,
    pub cols: usize,
}

/// The rows of a matrix as a sequence of sequences.
pub open spec fn grid<K>(data: Seq<Vec<K>>) -> Seq<Seq<K>> {
    Seq::new(data.len(), |i: int| data[i]@)
}

/// A `rows` by `cols` grid of well-formed scalars.
pub open spec fn grid_wf<K: Scalar>(m: Seq<Seq<K>>, rows: int, cols: int) -> bool {
    &&& m.len() == rows
    &&& forall|i: int| 0 <= i < rows ==> (#[trigger] m[i]).len() == cols
    &&& forall|i: int, j: int| 0 <= i < rows && 0 <= j < cols ==> (#[trigger] m[i][j]).swf()
}

/// Left fold of the first `k` products of row `i` of `m` with `v`.
pub open spec fn mv_sum<K: Scalar>(m: Seq<Seq<K>>, v: Seq<K>, i: int, k: int) -> K
    decreases k,
{
    if k <= 0 {
        K::szero()
    } else {
        mv_sum(m, v, i, k - 1).sadd(m[i][k - 1].smul(v[k - 1]))
    }
}

/// Left fold of the first `k` products pairing row `i` of `a` with column
/// `j` of `b`.
pub open spec fn mm_sum<K: Scalar>(a: Seq<Seq<K>>, b: Seq<Seq<K>>, i: int, j: int, k: int) -> K
    decreases k,
{
    if k <= 0 {
        K::szero()
    } else {
        mm_sum(a, b, i, j, k - 1).sadd(a[i][k - 1].smul(b[k - 1][j]))
    }
}

/// Left fold of the first `i` diagonal entries.
pub open spec fn diag_sum<K: Scalar>(m: Seq<Seq<K>>, i: int) -> K
    decreases i,
{
    if i <= 0 {
        K::szero()
    } else {
        diag_sum(m, i - 1).sadd(m[i - 1][i - 1])
    }
}


/// The first row at or below `r` whose entry in column `j` is nonzero.
pub open spec fn pivot_row_in_col<K: Scalar>(m: Seq<Seq<K>>, r: int, j: int) -> Option<int>
    decreases m.len() - r,
{
    if r < 0 || r >= m.len() {
        None
    } else if m[r][j] != K::szero() {
        Some(r)
    } else {
        pivot_row_in_col(m, r + 1, j)
    }
}

/// The first pivot found scanning columns `j..cols` left to right, and
/// within each column rows `r` downward: the tie-break rule of the
/// elimination (first nonzero, no magnitude pivoting).
pub open spec fn find_pivot<K: Scalar>(m: Seq<Seq<K>>, cols: int, r: int, j: int) -> Option<(
    int,
    int,
)>
    decreases cols - j,
{
    if j < 0 || j >= cols {
        None
    } else {
        match pivot_row_in_col(m, r, j) {
            Some(i) => Some((i, j)),
            None => find_pivot(m, cols, r, j + 1),
        }
    }
}

/// Rows `r1` and `r2` exchanged from column `j0` onward (earlier columns
/// of both rows are already zero when the elimination swaps).
pub open spec fn swap_rows_tail<K>(m: Seq<Seq<K>>, r1: int, r2: int, j0: int) -> Seq<Seq<K>> {
    Seq::new(
        m.len(),
        |i: int|
            Seq::new(
                m[i].len(),
                |j: int|
                    if j >= j0 {
                        if i == r1 {
                            m[r2][j]
                        } else if i == r2 {
                            m[r1][j]
                        } else {
                            m[i][j]
                        }
                    } else {
                        m[i][j]
                    },
            ),
    )
}

/// One elimination sweep: for every row `i` other than `r` whose entry in
/// the pivot column `j0` is nonzero, `-m[i][j0] / p` times the pivot row
/// is added into row `i` from column `j0` onward.
pub open spec fn eliminate_col<K: Scalar>(m: Seq<Seq<K>>, r: int, j0: int) -> Seq<Seq<K>> {
    Seq::new(
        m.len(),
        |i: int|
            Seq::new(
                m[i].len(),
                |j: int|
                    if i != r && j >= j0 && m[i][j0] != K::szero() {
                        m[i][j].sadd(m[r][j].smul(m[i][j0].sneg().sdiv(m[r][j0])))
                    } else {
                        m[i][j]
                    },
            ),
    )
}

/// Row `r` scaled by `pinv` from column `j0` onward.
pub open spec fn scale_row_tail<K: Scalar>(m: Seq<Seq<K>>, r: int, j0: int, pinv: K) -> Seq<
    Seq<K>,
> {
    Seq::new(
        m.len(),
        |i: int|
            Seq::new(
                m[i].len(),
                |j: int|
                    if i == r && j >= j0 {
                        m[i][j].smul(pinv)
                    } else {
                        m[i][j]
                    },
            ),
    )
}

/// Reduced row echelon form by Gauss-Jordan elimination, from target row
/// `r` and column `j0` on: find the pivot, swap it into place, eliminate
/// its column from every other row, normalize the pivot row, then advance
/// past the pivot column.  Stops when no pivot remains.
pub open spec fn rref_from<K: Scalar>(m: Seq<Seq<K>>, cols: int, r: int, j0: int) -> Seq<Seq<K>>
    decreases m.len() - r,
{
    if r < 0 || r >= m.len() {
        m
    } else {
        match find_pivot(m, cols, r, j0) {
            None => m,
            Some(pv) => {
                let m1 = if pv.0 != r {
                    swap_rows_tail(m, r, pv.0, pv.1)
                } else {
                    m
                };
                let m2 = eliminate_col(m1, r, pv.1);
                let m3 = scale_row_tail(m2, r, pv.1, m1[r][pv.1].sinv());
                rref_from(m3, cols, r + 1, pv.1 + 1)
            },
        }
    }
}

/// The reduced row echelon form of `m`.
pub open spec fn rref<K: Scalar>(m: Seq<Seq<K>>, cols: int) -> Seq<Seq<K>> {
    rref_from(m, cols, 0, 0)
}


/// The first column at or after `cur` in which `row` has a nonzero entry.
pub open spec fn row_pivot_col<K: Scalar>(row: Seq<K>, cur: int) -> Option<int>
    decreases row.len() - cur,
{
    if cur < 0 || cur >= row.len() {
        None
    } else if row[cur] != K::szero() {
        Some(cur)
    } else {
        row_pivot_col(row, cur + 1)
    }
}

/// The (row, pivot column) pairs found scanning rows from `i` downward
/// with column cursor `cur`: each row's pivot must lie strictly to the
/// right of the previous row's pivot.
pub open spec fn pivot_list<K: Scalar>(m: Seq<Seq<K>>, i: int, cur: int) -> Seq<(int, int)>
    decreases m.len() - i,
{
    if i < 0 || i >= m.len() {
        Seq::empty()
    } else {
        match row_pivot_col(m[i], cur) {
            Some(j) => seq![(i, j)] + pivot_list(m, i + 1, j + 1),
            None => pivot_list(m, i + 1, cur),
        }
    }
}

/// The number of pivots in the reduced row echelon form of `m`.
pub open spec fn rank_of<K: Scalar>(m: Seq<Seq<K>>, cols: int) -> nat {
    pivot_list(rref(m, cols), 0, 0).len()
}


/// The minor of a grid: the first row and column `col` removed.
pub open spec fn minor_grid<K>(m: Seq<Seq<K>>, col: int) -> Seq<Seq<K>> {
    Seq::new((m.len() - 1) as nat, |i: int| m[i + 1].remove(col))
}

/// Cofactor expansion along the first row, accumulating terms left to
/// right; terms at odd column positions are negated.
pub open spec fn cof_sum<K: Scalar>(m: Seq<Seq<K>>, n: int, j: int, acc: K) -> K
    decreases n, 0int, n - j,
{
    if j < 0 || j >= n || n <= 0 {
        acc
    } else {
        let term = m[0][j].smul(det_n(minor_grid(m, j), n - 1));
        let acc2 = if j % 2 == 1 {
            acc.sadd(term.sneg())
        } else {
            acc.sadd(term)
        };
        cof_sum(m, n, j + 1, acc2)
    }
}

/// The determinant of an `n` by `n` grid by recursive cofactor (Laplace)
/// expansion along the first row, with the empty matrix defined as zero
/// and direct formulas for the 1-by-1 and 2-by-2 cases.
pub open spec fn det_n<K: Scalar>(m: Seq<Seq<K>>, n: int) -> K
    decreases n, 1int, 0int,
{
    if n <= 0 {
        K::szero()
    } else if n == 1 {
        m[0][0]
    } else if n == 2 {
        m[0][0].smul(m[1][1]).ssub(m[0][1].smul(m[1][0]))
    } else {
        cof_sum(m, n, 0, K::szero())
    }
}


/// The augmented grid `[m | I]` for an `n` by `n` matrix `m`.
pub open spec fn augmented_grid<K: Scalar>(m: Seq<Seq<K>>, n: int) -> Seq<Seq<K>> {
    Seq::new(
        m.len(),
        |i: int|
            Seq::new(
                (2 * n) as nat,
                |j: int|
                    if j < n {
                        m[i][j]
                    } else if j == n + i {
                        K::sone()
                    } else {
                        K::szero()
                    },
            ),
    )
}

/// The right half of the reduced augmented grid: the inverse candidate
/// that Gauss-Jordan elimination of `[m | I]` produces.
pub open spec fn inv_candidate<K: Scalar>(m: Seq<Seq<K>>, n: int) -> Seq<Seq<K>> {
    Seq::new(m.len(), |i: int| Seq::new(n as nat, |j: int| rref(augmented_grid(m, n), 2 * n)[i][j + n]))
}

/// Whether `b * a == I` for `n` by `n` grids.
pub open spec fn product_is_identity<K: Scalar>(b: Seq<Seq<K>>, a: Seq<Seq<K>>, n: int) -> bool {
    forall|i: int, j: int|
        0 <= i < n && 0 <= j < n ==> mm_sum(b, a, i, j, n) == (if i == j {
            K::sone()
        } else {
            K::szero()
        })
}


/// Law: when `inverse` accepts a candidate, the candidate times the
/// original matrix is the identity: every entry of the product, as
/// `mul_mat` computes it, is the corresponding identity entry.
pub proof fn lemma_inverse_product<K: Scalar>(b: Matrix<K>, a: Matrix<K>)
    requires
        a.rows == a.cols,
        b.rows == a.rows,
        b.cols == a.cols,
        product_is_identity(b.view_grid(), a.view_grid(), a.rows as int),
    ensures
        forall|i: int, j: int|
            0 <= i < a.rows && 0 <= j < a.rows ==> mm_sum(
                b.view_grid(),
                a.view_grid(),
                i,
                j,
                a.cols as int,
            ) == (if i == j {
                K::sone()
            } else {
                K::szero()
            }),
{
}

/// Law: swapping the two rows of a 2-by-2 rational matrix negates its
/// determinant.
pub proof fn lemma_det_swap_rat(m: Seq<Seq<Rat>>)
    requires
        grid_wf(m, 2, 2),
    ensures
        det_n(swap_rows_tail(m, 0, 1, 0), 2) == rat_neg(det_n(m, 2)),
{
    let sw = swap_rows_tail(m, 0, 1, 0);
    assert(sw[0] =~= m[1]);
    assert(sw[1] =~= m[0]);
    let a = m[0][0];
    let b = m[0][1];
    let c = m[1][0];
    let d = m[1][1];
    lemma_rat_mul_comm(c, b);
    lemma_rat_mul_comm(d, a);
    assert(a.den * d.den >= 1) by (nonlinear_arith)
        requires
            a.den >= 1,
            d.den >= 1,
    ;
    assert(b.den * c.den >= 1) by (nonlinear_arith)
        requires
            b.den >= 1,
            c.den >= 1,
    ;
    lemma_rat_norm(a.num * d.num, a.den * d.den);
    lemma_rat_norm(b.num * c.num, b.den * c.den);
    lemma_rat_sub_swap(rat_mul(a, d), rat_mul(b, c));
}

/// Law: swapping the two rows of a 2-by-2 complex matrix negates its
/// determinant.
pub proof fn lemma_det_swap_complex(m: Seq<Seq<Complex>>)
    requires
        grid_wf(m, 2, 2),
    ensures
        det_n(swap_rows_tail(m, 0, 1, 0), 2) == c_neg(det_n(m, 2)),
{
    let sw = swap_rows_tail(m, 0, 1, 0);
    assert(sw[0] =~= m[1]);
    assert(sw[1] =~= m[0]);
    let a = m[0][0];
    let b = m[0][1];
    let c = m[1][0];
    let d = m[1][1];
    lemma_c_mul_comm(c, b);
    lemma_c_mul_comm(d, a);
    crate::complex::lemma_c_ops_wf(a, d);
    crate::complex::lemma_c_ops_wf(b, c);
    lemma_c_sub_swap(c_mul(a, d), c_mul(b, c));
}


/// A pivot found by the scan lies in the scanned region.
pub proof fn lemma_pivot_row_in_range<K: Scalar>(m: Seq<Seq<K>>, r: int, j: int)
    requires
        pivot_row_in_col(m, r, j) is Some,
    ensures
        r <= pivot_row_in_col(m, r, j)->Some_0 < m.len(),
        m[pivot_row_in_col(m, r, j)->Some_0][j] != K::szero(),
    decreases m.len() - r,
{
    if r < 0 || r >= m.len() {
    } else if m[r][j] != K::szero() {
    } else {
        lemma_pivot_row_in_range(m, r + 1, j);
    }
}

/// A pivot found by the column scan lies in the scanned region.
pub proof fn lemma_find_pivot_in_range<K: Scalar>(m: Seq<Seq<K>>, cols: int, r: int, j: int)
    requires
        find_pivot(m, cols, r, j) is Some,
    ensures
        r <= find_pivot(m, cols, r, j)->Some_0.0 < m.len(),
        j <= find_pivot(m, cols, r, j)->Some_0.1 < cols,
        m[find_pivot(m, cols, r, j)->Some_0.0][find_pivot(m, cols, r, j)->Some_0.1]
            != K::szero(),
    decreases cols - j,
{
    if j < 0 || j >= cols {
    } else {
        match pivot_row_in_col(m, r, j) {
            Some(i) => {
                lemma_pivot_row_in_range(m, r, j);
            },
            None => {
                lemma_find_pivot_in_range(m, cols, r, j + 1);
            },
        }
    }
}

/// A rational grid the elimination leaves unchanged: from target row `r`
/// and column `col` on, each pivot is already in its target row with
/// value one, and its column is zero in every other row.
pub open spec fn rref_fixed(m: Seq<Seq<Rat>>, cols: int, r: int, col: int) -> bool
    decreases m.len() - r,
{
    if r < 0 || r >= m.len() {
        true
    } else {
        match find_pivot(m, cols, r, col) {
            None => true,
            Some(pv) => {
                &&& pv.0 == r
                &&& m[r][pv.1] == rat_one()
                &&& (forall|i: int| 0 <= i < m.len() && i != r ==> m[i][pv.1] == rat_zero())
                &&& rref_fixed(m, cols, r + 1, pv.1 + 1)
            },
        }
    }
}

/// Law (one direction of idempotence): a rational grid already in
/// reduced form is a fixed point of the elimination, so running
/// `row_echelon` on such a grid gives it back unchanged.  Whether a
/// given grid is in reduced form is exactly `rref_fixed`; saturated
/// arithmetic can leave a reduction outside that form, so nothing is
/// claimed here about the output of a first pass.
pub proof fn lemma_rref_fixed_point(m: Seq<Seq<Rat>>, rows: int, cols: int, r: int, col: int)
    requires
        grid_wf(m, rows, cols),
        rref_fixed(m, cols, r, col),
        0 <= r,
    ensures
        rref_from(m, cols, r, col) == m,
    decreases m.len() - r,
{
    if r >= m.len() {
    } else {
        match find_pivot(m, cols, r, col) {
            None => {},
            Some(pv) => {
                lemma_find_pivot_in_range(m, cols, r, col);
                let j0 = pv.1;
                // No swap: the pivot is already in row r.
                assert(pv.0 == r);
                // Elimination is a no-op: every other row is already zero
                // in the pivot column.
                let elim = eliminate_col(m, r, j0);
                assert forall|i: int| 0 <= i < m.len() implies elim[i] =~= m[i] by {
                    assert(m[i].len() == cols);
                    if i != r {
                        assert(m[i][j0] == rat_zero());
                        assert(m[i][j0] == <Rat as Scalar>::szero());
                    }
                }
                assert(elim =~~= m);
                // Normalization is a no-op: the pivot is already one, and
                // the inverse of one is one.
                lemma_rat_inv_one();
                assert(m[r][j0].sinv() == rat_one());
                let sc = scale_row_tail(m, r, j0, rat_one());
                assert forall|i: int| 0 <= i < m.len() implies sc[i] =~= m[i] by {
                    assert(m[i].len() == cols);
                    if i == r {
                        assert forall|j: int| 0 <= j < cols implies sc[i][j] == m[i][j] by {
                            if j >= j0 {
                                lemma_rat_mul_one(m[r][j]);
                            }
                        }
                    }
                }
                assert(sc =~~= m);
                lemma_rref_fixed_point(m, rows, cols, r + 1, j0 + 1);
            },
        }
    }
}


/// A pivot found in a row lies between the cursor and the row's end.
pub proof fn lemma_row_pivot_col_range<K: Scalar>(row: Seq<K>, cur: int)
    requires
        0 <= cur,
        row_pivot_col(row, cur) is Some,
    ensures
        cur <= row_pivot_col(row, cur)->Some_0 < row.len(),
    decreases row.len() - cur,
{
    if cur >= row.len() {
    } else if row[cur] != K::szero() {
    } else {
        lemma_row_pivot_col_range(row, cur + 1);
    }
}

/// Rows of a grid keep their length through the elimination.
pub proof fn lemma_rref_shape<K: Scalar>(m: Seq<Seq<K>>, cols: int, r: int, j0: int)
    requires
        forall|t: int| 0 <= t < m.len() ==> (#[trigger] m[t]).len() == cols,
    ensures
        rref_from(m, cols, r, j0).len() == m.len(),
        forall|t: int|
            0 <= t < m.len() ==> (#[trigger] rref_from(m, cols, r, j0)[t]).len() == cols,
    decreases m.len() - r,
{
    if r < 0 || r >= m.len() {
    } else {
        match find_pivot(m, cols, r, j0) {
            None => {},
            Some(pv) => {
                let m1 = if pv.0 != r {
                    swap_rows_tail(m, r, pv.0, pv.1)
                } else {
                    m
                };
                assert(forall|t: int| 0 <= t < m1.len() ==> (#[trigger] m1[t]).len() == cols);
                let m2 = eliminate_col(m1, r, pv.1);
                assert(forall|t: int| 0 <= t < m2.len() ==> (#[trigger] m2[t]).len() == cols);
                let m3 = scale_row_tail(m2, r, pv.1, m1[r][pv.1].sinv());
                assert(forall|t: int| 0 <= t < m3.len() ==> (#[trigger] m3[t]).len() == cols);
                lemma_rref_shape(m3, cols, r + 1, pv.1 + 1);
            },
        }
    }
}

/// Each pivot consumes one row and strictly advances the column cursor.
pub proof fn lemma_pivot_list_bounds<K: Scalar>(m: Seq<Seq<K>>, cols: int, i: int, cur: int)
    requires
        0 <= i <= m.len(),
        0 <= cur <= cols,
        forall|t: int| 0 <= t < m.len() ==> (#[trigger] m[t]).len() == cols,
    ensures
        pivot_list(m, i, cur).len() <= m.len() - i,
        pivot_list(m, i, cur).len() <= cols - cur,
    decreases m.len() - i,
{
    if i >= m.len() {
    } else {
        match row_pivot_col(m[i], cur) {
            Some(j) => {
                lemma_row_pivot_col_range(m[i], cur);
                lemma_pivot_list_bounds(m, cols, i + 1, j + 1);
            },
            None => {
                lemma_pivot_list_bounds(m, cols, i + 1, cur);
            },
        }
    }
}

/// Law: the rank never exceeds the row count or the column count.
pub proof fn lemma_rank_bounds<K: Scalar>(m: Seq<Seq<K>>, rows: int, cols: int)
    requires
        m.len() == rows,
        0 <= cols,
        forall|t: int| 0 <= t < m.len() ==> (#[trigger] m[t]).len() == cols,
    ensures
        rank_of(m, cols) <= rows,
        rank_of(m, cols) <= cols,
{
    lemma_rref_shape(m, cols, 0, 0);
    lemma_pivot_list_bounds(rref(m, cols), cols, 0, 0);
}


/// The elimination never touches columns left of its starting column,
/// nor changes the shape of the grid.
pub proof fn lemma_rref_from_preserves<K: Scalar>(m: Seq<Seq<K>>, cols: int, r: int, col: int)
    requires
        0 <= col,
    ensures
        rref_from(m, cols, r, col).len() == m.len(),
        forall|i: int|
            0 <= i < m.len() ==> (#[trigger] rref_from(m, cols, r, col)[i]).len() == m[i].len(),
        forall|i: int, j: int|
            0 <= i < m.len() && 0 <= j < col && j < m[i].len() ==> rref_from(m, cols, r, col)[i][j]
                == m[i][j],
    decreases m.len() - r,
{
    if r < 0 || r >= m.len() {
    } else {
        match find_pivot(m, cols, r, col) {
            None => {},
            Some(pv) => {
                lemma_find_pivot_in_range(m, cols, r, col);
                let m1 = if pv.0 != r {
                    swap_rows_tail(m, r, pv.0, pv.1)
                } else {
                    m
                };
                let m2 = eliminate_col(m1, r, pv.1);
                let m3 = scale_row_tail(m2, r, pv.1, m1[r][pv.1].sinv());
                assert(forall|i: int| 0 <= i < m.len() ==> (#[trigger] m3[i]).len() == m[i].len());
                assert(forall|i: int, j: int|
                    0 <= i < m.len() && 0 <= j < pv.1 && j < m[i].len() ==> m3[i][j] == m[i][j]);
                lemma_rref_from_preserves(m3, cols, r + 1, pv.1 + 1);
            },
        }
    }
}

/// A column scan that finds nothing means every scanned entry is zero,
/// and conversely.
pub proof fn lemma_pivot_row_none<K: Scalar>(m: Seq<Seq<K>>, r: int, j: int)
    requires
        0 <= r,
    ensures
        pivot_row_in_col(m, r, j) is None <==> (forall|i: int|
            r <= i < m.len() ==> m[i][j] == K::szero()),
    decreases m.len() - r,
{
    if r >= m.len() {
    } else if m[r][j] != K::szero() {
    } else {
        lemma_pivot_row_none(m, r + 1, j);
    }
}

/// Scanning past columns in which the rows at or below `r` are all zero
/// does not change which pivot is found.
pub proof fn lemma_find_pivot_skip<K: Scalar>(m: Seq<Seq<K>>, cols: int, r: int, col: int, j: int)
    requires
        0 <= col <= j <= cols,
        forall|j2: int| col <= j2 < j ==> pivot_row_in_col(m, r, j2) is None,
    ensures
        find_pivot(m, cols, r, col) == find_pivot(m, cols, r, j),
    decreases j - col,
{
    if col < j {
        lemma_find_pivot_skip(m, cols, r, col + 1, j);
    }
}

/// The columns the pivot search skipped hold no nonzero entry at or
/// below the target row.
pub proof fn lemma_find_pivot_prefix<K: Scalar>(m: Seq<Seq<K>>, cols: int, r: int, col: int, j2: int)
    requires
        0 <= col <= j2,
        find_pivot(m, cols, r, col) is Some,
        j2 < find_pivot(m, cols, r, col)->Some_0.1,
    ensures
        pivot_row_in_col(m, r, j2) is None,
    decreases j2 - col,
{
    lemma_find_pivot_in_range(m, cols, r, col);
    if col == j2 {
        assert(pivot_row_in_col(m, r, col) is None);
    } else {
        assert(pivot_row_in_col(m, r, col) is None);
        lemma_find_pivot_prefix(m, cols, r, col + 1, j2);
    }
}


/// Swapping row tails preserves well-formedness of a rational grid.
proof fn lemma_swap_wf(m: Seq<Seq<Rat>>, rows: int, cols: int, r1: int, r2: int, j0: int)
    requires
        grid_wf(m, rows, cols),
        0 <= r1 < rows,
        0 <= r2 < rows,
    ensures
        grid_wf(swap_rows_tail(m, r1, r2, j0), rows, cols),
{
    let sw = swap_rows_tail(m, r1, r2, j0);
    assert forall|i: int, j: int| 0 <= i < rows && 0 <= j < cols implies (#[trigger] sw[i][
        j
    ]).swf() by {
        assert(m[i].len() == cols);
        assert(m[r1].len() == cols);
        assert(m[r2].len() == cols);
    }
}

/// The elimination sweep preserves well-formedness of a rational grid.
proof fn lemma_elim_wf(m: Seq<Seq<Rat>>, rows: int, cols: int, r: int, j0: int)
    requires
        grid_wf(m, rows, cols),
        0 <= r < rows,
        0 <= j0 < cols,
    ensures
        grid_wf(eliminate_col(m, r, j0), rows, cols),
{
    let el = eliminate_col(m, r, j0);
    assert forall|i: int, j: int| 0 <= i < rows && 0 <= j < cols implies (#[trigger] el[i][
        j
    ]).swf() by {
        assert(m[i].len() == cols);
        assert(m[i][j].swf());
        assert(m[r][j].swf());
        assert(m[i][j0].swf());
        assert(m[r][j0].swf());
        lemma_rat_ops_wf(m[i][j0], m[r][j0]);
        lemma_rat_ops_wf(rat_neg(m[i][j0]), m[r][j0]);
        lemma_rat_ops_wf(m[r][j], crate::rat::rat_div(rat_neg(m[i][j0]), m[r][j0]));
        lemma_rat_ops_wf(
            m[i][j],
            rat_mul(m[r][j], crate::rat::rat_div(rat_neg(m[i][j0]), m[r][j0])),
        );
    }
}

/// Scaling a row tail preserves well-formedness of a rational grid.
proof fn lemma_scale_wf(m: Seq<Seq<Rat>>, rows: int, cols: int, r: int, j0: int, pinv: Rat)
    requires
        grid_wf(m, rows, cols),
        pinv.wf(),
    ensures
        grid_wf(scale_row_tail(m, r, j0, pinv), rows, cols),
{
    let sc = scale_row_tail(m, r, j0, pinv);
    assert forall|i: int, j: int| 0 <= i < rows && 0 <= j < cols implies (#[trigger] sc[i][
        j
    ]).swf() by {
        assert(m[i].len() == cols);
        assert(m[i][j].swf());
        lemma_rat_ops_wf(m[i][j], pinv);
    }
}

/// The grid after the swap phase of one elimination step.
pub open spec fn step_swapped<K: Scalar>(m: Seq<Seq<K>>, r: int, pv: (int, int)) -> Seq<Seq<K>> {
    if pv.0 != r {
        swap_rows_tail(m, r, pv.0, pv.1)
    } else {
        m
    }
}

/// The grid after one full elimination step (swap, eliminate, normalize).
pub open spec fn step_reduced<K: Scalar>(m: Seq<Seq<K>>, r: int, pv: (int, int)) -> Seq<Seq<K>> {
    scale_row_tail(
        eliminate_col(step_swapped(m, r, pv), r, pv.1),
        r,
        pv.1,
        step_swapped(m, r, pv)[r][pv.1].sinv(),
    )
}

/// Whether every elimination step the reduction performs on `m`, from
/// target row `r` and column `col` on, is exact (no saturation).
pub open spec fn rref_run_exact(m: Seq<Seq<Rat>>, cols: int, r: int, col: int) -> bool
    decreases m.len() - r,
{
    if r < 0 || r >= m.len() {
        true
    } else {
        match find_pivot(m, cols, r, col) {
            None => true,
            Some(pv) => {
                &&& (forall|i: int|
                    0 <= i < m.len() && i != r && step_swapped(m, r, pv)[i][pv.1] != rat_zero()
                        ==> elim_exact(
                        #[trigger] step_swapped(m, r, pv)[i][pv.1],
                        step_swapped(m, r, pv)[r][pv.1],
                    ))
                &&& rref_run_exact(step_reduced(m, r, pv), cols, r + 1, pv.1 + 1)
            },
        }
    }
}


/// An elimination run whose arithmetic is exact produces a grid in
/// reduced form: after each step the pivot entry is exactly one and its
/// column is exactly zero elsewhere, and later steps never touch the
/// columns already reduced.
#[verifier::rlimit(60)]
pub proof fn lemma_rref_from_fixed(m: Seq<Seq<Rat>>, rows: int, cols: int, r: int, col: int)
    requires
        grid_wf(m, rows, cols),
        rref_run_exact(m, cols, r, col),
        0 <= r,
        0 <= col <= cols,
    ensures
        rref_fixed(rref_from(m, cols, r, col), cols, r, col),
        grid_wf(rref_from(m, cols, r, col), rows, cols),
    decreases m.len() - r,
{
    if r >= m.len() {
    } else {
        match find_pivot(m, cols, r, col) {
            None => {},
            Some(pv) => {
                lemma_find_pivot_in_range(m, cols, r, col);
                let pi = pv.0;
                let j0 = pv.1;
                let m1 = if pi != r {
                    swap_rows_tail(m, r, pi, j0)
                } else {
                    m
                };
                if pi != r {
                    lemma_swap_wf(m, rows, cols, r, pi, j0);
                    assert(m1[r].len() == cols);
                    assert(m1[r][j0] == m[pi][j0]);
                }
                let p = m1[r][j0];
                assert(p.wf());
                assert(p != <Rat as Scalar>::szero());
                assert(p.num != 0) by {
                    if p.num == 0 {
                        lemma_rat_wf_zero(p);
                    }
                }
                let m2 = eliminate_col(m1, r, j0);
                lemma_elim_wf(m1, rows, cols, r, j0);
                let pinv = p.sinv();
                assert(pinv.wf()) by {
                    lemma_int_frac_wf(1);
                    lemma_rat_ops_wf(rat_one(), p);
                }
                let m3 = scale_row_tail(m2, r, j0, pinv);
                lemma_scale_wf(m2, rows, cols, r, j0, pinv);
                // Unpack the exactness hypothesis for this step.
                assert(m1 == step_swapped(m, r, pv));
                assert(m3 == step_reduced(m, r, pv));
                assert((forall|i: int|
                    0 <= i < m.len() && i != r && step_swapped(m, r, pv)[i][pv.1] != rat_zero()
                        ==> elim_exact(
                        #[trigger] step_swapped(m, r, pv)[i][pv.1],
                        step_swapped(m, r, pv)[r][pv.1],
                    )) && rref_run_exact(step_reduced(m, r, pv), cols, r + 1, pv.1 + 1));
                // The pivot column of m3 is the unit column e_r.
                assert(m2[r][j0] == p);
                assert(m3[r][j0] == rat_mul(p, crate::rat::rat_inv(p)));
                lemma_rat_mul_inv(p);
                assert(m3[r][j0] == rat_one());
                assert forall|i: int| 0 <= i < rows && i != r implies m3[i][j0] == rat_zero() by {
                    assert(m1[i].len() == cols);
                    assert(m3[i][j0] == m2[i][j0]);
                    if m1[i][j0] != rat_zero() {
                        assert(m1[i][j0] != <Rat as Scalar>::szero());
                        assert(m2[i][j0] == m1[i][j0].sadd(
                            m1[r][j0].smul(m1[i][j0].sneg().sdiv(m1[r][j0])),
                        ));
                        assert(elim_exact(m1[i][j0], p));
                        lemma_rat_eliminate_zero(m1[i][j0], p);
                    } else {
                        assert(m2[i][j0] == m1[i][j0]);
                    }
                }
                // The recursive run reduces the rest and leaves the
                // already-reduced columns alone.
                let fin = rref_from(m3, cols, r + 1, j0 + 1);
                lemma_rref_from_fixed(m3, rows, cols, r + 1, j0 + 1);
                lemma_rref_from_preserves(m3, cols, r + 1, j0 + 1);
                assert(fin.len() == rows);
                assert forall|i: int| 0 <= i < rows implies (#[trigger] fin[i]).len() == cols by {
                    assert(m3[i].len() == cols);
                }
                assert(fin[r][j0] == m3[r][j0]);
                assert forall|i: int| 0 <= i < rows && i != r implies fin[i][j0] == rat_zero() by {
                    assert(m3[i].len() == cols);
                    assert(fin[i][j0] == m3[i][j0]);
                }
                // The columns the pivot search skipped stay all zero, so
                // the search on the reduced grid finds the same pivot.
                assert forall|j2: int| col <= j2 < j0 implies pivot_row_in_col(fin, r, j2)
                    is None by {
                    lemma_find_pivot_prefix(m, cols, r, col, j2);
                    lemma_pivot_row_none(m, r, j2);
                    assert forall|i: int| r <= i < rows implies fin[i][j2]
                        == <Rat as Scalar>::szero() by {
                        assert(m[i].len() == cols);
                        assert(m[i][j2] == <Rat as Scalar>::szero());
                        assert(m1[i][j2] == m[i][j2]);
                        assert(m2[i][j2] == m1[i][j2]);
                        assert(m3[i][j2] == m2[i][j2]);
                        assert(fin[i][j2] == m3[i][j2]);
                    }
                    lemma_pivot_row_none(fin, r, j2);
                }
                lemma_find_pivot_skip(fin, cols, r, col, j0);
                assert(fin[r][j0] != <Rat as Scalar>::szero());
                assert(pivot_row_in_col(fin, r, j0) == Some(r));
                assert(find_pivot(fin, cols, r, j0) == Some((r, j0)));
                assert(find_pivot(fin, cols, r, col) == Some((r, j0)));
                assert(rref_fixed(fin, cols, r, col));
            },
        }
    }
}

/// Law: the reduction is idempotent whenever its arithmetic is exact.  A
/// run without saturation lands in reduced form, and a grid in reduced
/// form is a fixed point, so reducing a second time changes nothing.
pub proof fn lemma_rref_idempotent(m: Seq<Seq<Rat>>, rows: int, cols: int)
    requires
        grid_wf(m, rows, cols),
        rref_run_exact(m, cols, 0, 0),
        0 <= cols,
    ensures
        rref(rref(m, cols), cols) == rref(m, cols),
{
    lemma_rref_from_fixed(m, rows, cols, 0, 0);
    lemma_rref_fixed_point(rref(m, cols), rows, cols, 0, 0);
}

impl<K: Scalar> Matrix<K> {
    /// The buffer holds `rows` rows of `cols` well-formed elements each.
    pub open spec fn wf(self) -> bool {
        &&& self.data@.len() == self.rows
        &&& forall|i: int| 0 <= i < self.rows ==> (#[trigger] self.data@[i])@.len() == self.cols
        &&& forall|i: int, j: int|
            0 <= i < self.rows && 0 <= j < self.cols ==> (#[trigger] self.data@[i]@[j]).swf()
    }

    /// `wf` says exactly that the grid view is well-formed.
    pub proof fn lemma_wf_grid(self)
        requires
            self.wf(),
        ensures
            grid_wf(self.view_grid(), self.rows as int, self.cols as int),
    {
        assert forall|i: int, j: int|
            0 <= i < self.rows && 0 <= j < self.cols implies (#[trigger] self.view_grid()[i][j]).swf() by {
            assert(self.data@[i]@[j].swf());
        }
    }

    /// The matrix contents as a sequence of row sequences.
    pub open spec fn view_grid(self) -> Seq<Seq<K>> {
        grid(self.data@)
    }

    /// Entry `(i, j)` in spec.
    pub open spec fn at(self, i: int, j: int) -> K {
        self.data@[i]@[j]
    }

    /// A matrix built from nested rows; all rows must have equal length.
    pub fn from_rows(rows_in: Vec<Vec<K>>) -> (r: Matrix<K>)
        requires
            forall|i: int|
                0 <= i < rows_in@.len() ==> (#[trigger] rows_in@[i])@.len() == rows_in@[0]@.len(),
            forall|i: int, j: int|
                0 <= i < rows_in@.len() && 0 <= j < rows_in@[i]@.len() ==> rows_in@[i]@[j].swf(),
        ensures
            r.rows == rows_in@.len(),
            r.cols == if rows_in@.len() == 0 {
                0int
            } else {
                rows_in@[0]@.len() as int
            },
            r.view_grid() == grid(rows_in@),
            r.wf(),
    {
        let n = rows_in.len();
        if n == 0 {
            let empty: Vec<Vec<K>> = Vec::new();
            proof {
                assert(grid(empty@) =~= grid(rows_in@));
            }
            return Matrix { data: empty, rows: 0, cols: 0 };
        }
        let cols = rows_in[0].len();
        Matrix { data: rows_in, rows: n, cols }
    }

    /// An exact copy.
    pub fn clone_mat(&self) -> (r: Matrix<K>)
        requires
            self.wf(),
        ensures
            r.rows == self.rows,
            r.cols == self.cols,
            r.view_grid() == self.view_grid(),
            r.wf(),
    {
        let mut data: Vec<Vec<K>> = Vec::new();
        let n = self.data.len();
        let mut i: usize = 0;
        while i < n
            invariant
                i <= n,
                self.data@.len() == n,
                data@.len() == i,
                forall|p: int| 0 <= p < i ==> (#[trigger] data@[p])@ == self.data@[p]@,
            decreases n - i,
        {
            let m = self.data[i].len();
            let mut row: Vec<K> = Vec::new();
            let mut j: usize = 0;
            while j < m
                invariant
                    j <= m,
                    i < n,
                    self.data@.len() == n,
                    self.data@[i as int]@.len() == m,
                    row@.len() == j,
                    forall|q: int| 0 <= q < j ==> row@[q] == self.data@[i as int]@[q],
                decreases m - j,
            {
                row.push(self.data[i][j]);
                j = j + 1;
            }
            proof {
                assert(row@ =~= self.data@[i as int]@);
            }
            data.push(row);
            i = i + 1;
        }
        proof {
            assert(grid(data@) =~~= grid(self.data@));
        }
        Matrix { data, rows: self.rows, cols: self.cols }
    }

    /// The shape `(rows, cols)`.
    pub fn shape(&self) -> (r: (usize, usize))
        ensures
            r.0 == self.rows,
            r.1 == self.cols,
    {
        (self.rows, self.cols)
    }

    /// Whether the matrix is square.
    pub fn is_square(&self) -> (r: bool)
        ensures
            r == (self.rows == self.cols),
    {
        self.rows == self.cols
    }

    /// In-place element-wise addition.
    pub fn add(&mut self, v: &Matrix<K>)
        requires
            old(self).wf(),
            v.wf(),
            old(self).rows == v.rows,
            old(self).cols == v.cols,
        ensures
            final(self).rows == old(self).rows,
            final(self).cols == old(self).cols,
            forall|i: int, j: int|
                0 <= i < old(self).rows && 0 <= j < old(self).cols ==> final(self).at(i, j)
                    == old(self).at(i, j).sadd(v.at(i, j)),
            final(self).wf(),
    {
        let rows = self.rows;
        let cols = self.cols;
        let mut i: usize = 0;
        while i < rows
            invariant
                i <= rows,
                rows == self.rows == old(self).rows,
                cols == self.cols == old(self).cols,
                old(self).wf(),
                v.rows == rows,
                v.cols == cols,
                v.wf(),
                self.data@.len() == rows,
                forall|p: int| i <= p < rows ==> (#[trigger] self.data@[p])@ == old(self).data@[p]@,
                forall|p: int| 0 <= p < i ==> (#[trigger] self.data@[p])@.len() == cols,
                forall|p: int, q: int|
                    0 <= p < i && 0 <= q < cols ==> (#[trigger] self.data@[p]@[q]) == old(self).at(p, q).sadd(v.at(p, q)),
                forall|p: int, q: int|
                    0 <= p < i && 0 <= q < cols ==> (#[trigger] self.data@[p]@[q]).swf(),
            decreases rows - i,
        {
            let mut row: Vec<K> = Vec::new();
            let mut j: usize = 0;
            while j < cols
                invariant
                    j <= cols,
                    i < rows,
                    rows == self.rows == old(self).rows,
                    cols == self.cols == old(self).cols,
                    old(self).wf(),
                v.rows == rows,
                v.cols == cols,
                v.wf(),
                    self.data@.len() == rows,
                    self.data@[i as int]@ == old(self).data@[i as int]@,
                    old(self).data@[i as int]@.len() == cols,
                    row@.len() == j,
                    forall|q: int| 0 <= q < j ==> (#[trigger] row@[q]) == old(self).at(i as int, q).sadd(v.at(i as int, q)),
                    forall|q: int| 0 <= q < j ==> (#[trigger] row@[q]).swf(),
                decreases cols - j,
            {
                row.push(self.data[i][j].add(v.data[i][j]));
                j = j + 1;
            }
            self.data[i] = row;
            i = i + 1;
        }
    }

    /// In-place element-wise subtraction.
    pub fn sub(&mut self, v: &Matrix<K>)
        requires
            old(self).wf(),
            v.wf(),
            old(self).rows == v.rows,
            old(self).cols == v.cols,
        ensures
            final(self).rows == old(self).rows,
            final(self).cols == old(self).cols,
            forall|i: int, j: int|
                0 <= i < old(self).rows && 0 <= j < old(self).cols ==> final(self).at(i, j)
                    == old(self).at(i, j).ssub(v.at(i, j)),
            final(self).wf(),
    {
        let rows = self.rows;
        let cols = self.cols;
        let mut i: usize = 0;
        while i < rows
            invariant
                i <= rows,
                rows == self.rows == old(self).rows,
                cols == self.cols == old(self).cols,
                old(self).wf(),
                v.rows == rows,
                v.cols == cols,
                v.wf(),
                self.data@.len() == rows,
                forall|p: int| i <= p < rows ==> (#[trigger] self.data@[p])@ == old(self).data@[p]@,
                forall|p: int| 0 <= p < i ==> (#[trigger] self.data@[p])@.len() == cols,
                forall|p: int, q: int|
                    0 <= p < i && 0 <= q < cols ==> (#[trigger] self.data@[p]@[q]) == old(self).at(p, q).ssub(v.at(p, q)),
                forall|p: int, q: int|
                    0 <= p < i && 0 <= q < cols ==> (#[trigger] self.data@[p]@[q]).swf(),
            decreases rows - i,
        {
            let mut row: Vec<K> = Vec::new();
            let mut j: usize = 0;
            while j < cols
                invariant
                    j <= cols,
                    i < rows,
                    rows == self.rows == old(self).rows,
                    cols == self.cols == old(self).cols,
                    old(self).wf(),
                v.rows == rows,
                v.cols == cols,
                v.wf(),
                    self.data@.len() == rows,
                    self.data@[i as int]@ == old(self).data@[i as int]@,
                    old(self).data@[i as int]@.len() == cols,
                    row@.len() == j,
                    forall|q: int| 0 <= q < j ==> (#[trigger] row@[q]) == old(self).at(i as int, q).ssub(v.at(i as int, q)),
                    forall|q: int| 0 <= q < j ==> (#[trigger] row@[q]).swf(),
                decreases cols - j,
            {
                row.push(self.data[i][j].sub(v.data[i][j]));
                j = j + 1;
            }
            self.data[i] = row;
            i = i + 1;
        }
    }

    /// In-place scaling by `a`.
    pub fn scl(&mut self, a: K)
        requires
            old(self).wf(),
            a.swf(),
        ensures
            final(self).rows == old(self).rows,
            final(self).cols == old(self).cols,
            forall|i: int, j: int|
                0 <= i < old(self).rows && 0 <= j < old(self).cols ==> final(self).at(i, j)
                    == old(self).at(i, j).smul(a),
            final(self).wf(),
    {
        let rows = self.rows;
        let cols = self.cols;
        let mut i: usize = 0;
        while i < rows
            invariant
                i <= rows,
                rows == self.rows == old(self).rows,
                cols == self.cols == old(self).cols,
                old(self).wf(),
                a.swf(),
                self.data@.len() == rows,
                forall|p: int| i <= p < rows ==> (#[trigger] self.data@[p])@ == old(self).data@[p]@,
                forall|p: int| 0 <= p < i ==> (#[trigger] self.data@[p])@.len() == cols,
                forall|p: int, q: int|
                    0 <= p < i && 0 <= q < cols ==> (#[trigger] self.data@[p]@[q]) == old(self).at(p, q).smul(a),
                forall|p: int, q: int|
                    0 <= p < i && 0 <= q < cols ==> (#[trigger] self.data@[p]@[q]).swf(),
            decreases rows - i,
        {
            let mut row: Vec<K> = Vec::new();
            let mut j: usize = 0;
            while j < cols
                invariant
                    j <= cols,
                    i < rows,
                    rows == self.rows == old(self).rows,
                    cols == self.cols == old(self).cols,
                    old(self).wf(),
                a.swf(),
                    self.data@.len() == rows,
                    self.data@[i as int]@ == old(self).data@[i as int]@,
                    old(self).data@[i as int]@.len() == cols,
                    row@.len() == j,
                    forall|q: int| 0 <= q < j ==> (#[trigger] row@[q]) == old(self).at(i as int, q).smul(a),
                    forall|q: int| 0 <= q < j ==> (#[trigger] row@[q]).swf(),
                decreases cols - j,
            {
                row.push(self.data[i][j].mul(a));
                j = j + 1;
            }
            self.data[i] = row;
            i = i + 1;
        }
    }

    /// The matrix-vector product `M * v`, a genuine linear map: each entry
    /// is the plain (non-conjugated) product sum of a row with `v`, for
    /// real and complex scalars alike.
    pub fn mul_vec(&self, vec: &Vector<K>) -> (r: Vector<K>)
        requires
            self.wf(),
            vec.wf(),
            vec.data@.len() == self.cols,
        ensures
            r.data@.len() == self.rows,
            forall|i: int|
                0 <= i < self.rows ==> r.data@[i] == mv_sum(
                    self.view_grid(),
                    vec.data@,
                    i,
                    self.cols as int,
                ),
            r.wf(),
    {
        let mut data: Vec<K> = Vec::new();
        let mut i: usize = 0;
        proof {
            K::lemma_identities_wf();
        }
        while i < self.rows
            invariant
                i <= self.rows,
                self.wf(),
                vec.wf(),
                vec.data@.len() == self.cols,
                data@.len() == i,
                forall|p: int|
                    0 <= p < i ==> data@[p] == mv_sum(
                        self.view_grid(),
                        vec.data@,
                        p,
                        self.cols as int,
                    ),
                forall|p: int| 0 <= p < i ==> data@[p].swf(),
            decreases self.rows - i,
        {
            let mut sum = K::zero();
            let mut k: usize = 0;
            while k < self.cols
                invariant
                    k <= self.cols,
                    i < self.rows,
                    self.wf(),
                    vec.wf(),
                    vec.data@.len() == self.cols,
                    sum == mv_sum(self.view_grid(), vec.data@, i as int, k as int),
                    sum.swf(),
                decreases self.cols - k,
            {
                sum = sum.add(self.data[i][k].mul(vec.data[k]));
                k = k + 1;
            }
            data.push(sum);
            i = i + 1;
        }
        Vector { data }
    }

    /// The matrix product `self * mat`.
    pub fn mul_mat(&self, mat: &Matrix<K>) -> (r: Matrix<K>)
        requires
            self.wf(),
            mat.wf(),
            self.cols == mat.rows,
        ensures
            r.rows == self.rows,
            r.cols == mat.cols,
            forall|i: int, j: int|
                0 <= i < self.rows && 0 <= j < mat.cols ==> r.at(i, j) == mm_sum(
                    self.view_grid(),
                    mat.view_grid(),
                    i,
                    j,
                    self.cols as int,
                ),
            r.wf(),
    {
        let rows = self.rows;
        let cols = mat.cols;
        let mut data: Vec<Vec<K>> = Vec::new();
        let mut i: usize = 0;
        proof {
            K::lemma_identities_wf();
        }
        while i < rows
            invariant
                i <= rows,
                rows == self.rows,
                cols == mat.cols,
                self.wf(),
                mat.wf(),
                self.cols == mat.rows,
                data@.len() == i,
                forall|p: int| 0 <= p < i ==> (#[trigger] data@[p])@.len() == cols,
                forall|p: int, q: int|
                    0 <= p < i && 0 <= q < cols ==> data@[p]@[q] == mm_sum(
                        self.view_grid(),
                        mat.view_grid(),
                        p,
                        q,
                        self.cols as int,
                    ),
                forall|p: int, q: int|
                    0 <= p < i && 0 <= q < cols ==> (#[trigger] data@[p]@[q]).swf(),
            decreases rows - i,
        {
            let mut row: Vec<K> = Vec::new();
            let mut j: usize = 0;
            while j < cols
                invariant
                    j <= cols,
                    i < rows,
                    rows == self.rows,
                    cols == mat.cols,
                    self.wf(),
                    mat.wf(),
                    self.cols == mat.rows,
                    row@.len() == j,
                    forall|q: int|
                        0 <= q < j ==> row@[q] == mm_sum(
                            self.view_grid(),
                            mat.view_grid(),
                            i as int,
                            q,
                            self.cols as int,
                        ),
                    forall|q: int| 0 <= q < j ==> (#[trigger] row@[q]).swf(),
                decreases cols - j,
            {
                let mut sum = K::zero();
                let mut k: usize = 0;
                while k < self.cols
                    invariant
                        k <= self.cols,
                        i < rows,
                        j < cols,
                        rows == self.rows,
                        cols == mat.cols,
                        self.wf(),
                        mat.wf(),
                        self.cols == mat.rows,
                        sum == mm_sum(
                            self.view_grid(),
                            mat.view_grid(),
                            i as int,
                            j as int,
                            k as int,
                        ),
                        sum.swf(),
                    decreases self.cols - k,
                {
                    sum = sum.add(self.data[i][k].mul(mat.data[k][j]));
                    k = k + 1;
                }
                row.push(sum);
                j = j + 1;
            }
            data.push(row);
            i = i + 1;
        }
        Matrix { data, rows, cols }
    }

    /// The trace: the sum of the diagonal of a square matrix; `None` for a
    /// zero-row matrix.
    pub fn trace(&self) -> (r: Option<K>)
        requires
            self.wf(),
            self.rows == self.cols,
        ensures
            self.rows == 0 ==> r is None,
            self.rows > 0 ==> r == Some(diag_sum(self.view_grid(), self.rows as int)),
    {
        if self.rows == 0 {
            return None;
        }
        let mut sum = K::zero();
        let mut i: usize = 0;
        proof {
            K::lemma_identities_wf();
        }
        while i < self.rows
            invariant
                i <= self.rows,
                self.wf(),
                self.rows == self.cols,
                sum == diag_sum(self.view_grid(), i as int),
                sum.swf(),
            decreases self.rows - i,
        {
            sum = sum.add(self.data[i][i]);
            i = i + 1;
        }
        Some(sum)
    }

    /// Reduces the matrix to reduced row echelon form in place by
    /// Gauss-Jordan elimination: scan for the first nonzero pivot in the
    /// remaining columns, swap its row into place, eliminate its column
    /// from every other row (above and below), normalize the pivot row,
    /// and advance past the pivot column.
    pub fn row_echelon_mut(&mut self)
        requires
            old(self).wf(),
        ensures
            final(self).rows == old(self).rows,
            final(self).cols == old(self).cols,
            final(self).view_grid() == rref(old(self).view_grid(), old(self).cols as int),
            final(self).wf(),
    {
        let rows = self.rows;
        let cols = self.cols;
        let mut r: usize = 0;
        let mut col: usize = 0;
        let mut done: bool = false;
        while r < rows && !done
            invariant
                r <= rows,
                col <= cols,
                rows == self.rows == old(self).rows,
                cols == self.cols == old(self).cols,
                self.wf(),
                rref_from(self.view_grid(), cols as int, r as int, col as int) == rref(
                    old(self).view_grid(),
                    cols as int,
                ),
                done ==> self.view_grid() == rref(old(self).view_grid(), cols as int),
            decreases rows - r, (if done { 0int } else { 1 }),
        {
            let ghost g0 = self.view_grid();
            proof {
                assert(g0.len() == rows);
            }
            let mut found: bool = false;
            let mut pi: usize = 0;
            let mut pj: usize = 0;
            let mut j: usize = col;
            while j < cols && !found
                invariant
                    col <= j <= cols,
                    r < rows,
                    rows == self.rows,
                    cols == self.cols,
                    self.wf(),
                    self.view_grid() == g0,
                    g0.len() == rows,
                    !found ==> find_pivot(g0, cols as int, r as int, col as int) == find_pivot(
                        g0,
                        cols as int,
                        r as int,
                        j as int,
                    ),
                    found ==> r <= pi < rows && col <= pj < cols,
                    found ==> find_pivot(g0, cols as int, r as int, col as int) == Some(
                        (pi as int, pj as int),
                    ),
                decreases cols - j, (if found { 0int } else { 1 }),
            {
                let mut i: usize = r;
                let mut hit: bool = false;
                while i < rows && !hit
                    invariant
                        r <= i <= rows,
                        j < cols,
                        r < rows,
                        rows == self.rows,
                        cols == self.cols,
                        self.wf(),
                        self.view_grid() == g0,
                        g0.len() == rows,
                        !hit ==> pivot_row_in_col(g0, r as int, j as int) == pivot_row_in_col(
                            g0,
                            i as int,
                            j as int,
                        ),
                        hit ==> r <= i < rows && pivot_row_in_col(g0, r as int, j as int) == Some(
                            i as int,
                        ),
                    decreases rows - i, (if hit { 0int } else { 1 }),
                {
                    proof {
                        assert(g0[i as int] == self.data@[i as int]@);
                    }
                    if !self.data[i][j].is_zero() {
                        hit = true;
                    } else {
                        proof {
                            assert(pivot_row_in_col(g0, i as int, j as int) == pivot_row_in_col(
                                g0,
                                i as int + 1,
                                j as int,
                            ));
                        }
                        i = i + 1;
                    }
                }
                if hit {
                    found = true;
                    pi = i;
                    pj = j;
                    proof {
                        assert(find_pivot(g0, cols as int, r as int, j as int) == Some(
                            (i as int, j as int),
                        ));
                    }
                } else {
                    proof {
                        assert(pivot_row_in_col(g0, rows as int, j as int) is None);
                        assert(find_pivot(g0, cols as int, r as int, j as int) == find_pivot(
                            g0,
                            cols as int,
                            r as int,
                            j as int + 1,
                        ));
                    }
                    j = j + 1;
                }
            }
            if !found {
                proof {
                    assert(find_pivot(g0, cols as int, r as int, cols as int) is None);
                    assert(rref_from(g0, cols as int, r as int, col as int) == g0);
                }
                done = true;
            } else {
                // Swap the pivot row into position r, from the pivot
                // column onward.
                if pi != r {
                    let ghost gpre = self.view_grid();
                    let mut row_r: Vec<K> = Vec::new();
                    let mut row_p: Vec<K> = Vec::new();
                    let mut c: usize = 0;
                    while c < cols
                        invariant
                            c <= cols,
                            r < rows,
                            pi < rows,
                            pj < cols,
                            r != pi,
                            rows == self.rows,
                            cols == self.cols,
                            self.wf(),
                            self.view_grid() == gpre,
                            gpre.len() == rows,
                            row_r@.len() == c,
                            row_p@.len() == c,
                            forall|q: int|
                                0 <= q < c ==> row_r@[q] == (if q >= pj {
                                    gpre[pi as int][q]
                                } else {
                                    gpre[r as int][q]
                                }),
                            forall|q: int|
                                0 <= q < c ==> row_p@[q] == (if q >= pj {
                                    gpre[r as int][q]
                                } else {
                                    gpre[pi as int][q]
                                }),
                            forall|q: int| 0 <= q < c ==> (#[trigger] row_r@[q]).swf(),
                            forall|q: int| 0 <= q < c ==> (#[trigger] row_p@[q]).swf(),
                        decreases cols - c,
                    {
                        if c >= pj {
                            row_r.push(self.data[pi][c]);
                            row_p.push(self.data[r][c]);
                        } else {
                            row_r.push(self.data[r][c]);
                            row_p.push(self.data[pi][c]);
                        }
                        c = c + 1;
                    }
                    self.data[r] = row_r;
                    self.data[pi] = row_p;
                    proof {
                        let sw = swap_rows_tail(gpre, r as int, pi as int, pj as int);
                        assert forall|t: int| 0 <= t < rows implies self.view_grid()[t] =~= sw[t] by {
                            assert(gpre[t].len() == cols);
                        }
                        assert(self.view_grid() =~~= sw);
                    }
                }
                // Eliminate the pivot column from every other row.
                let ghost g1 = self.view_grid();
                let p = self.data[r][pj];
                proof {
                    assert(grid_wf(g1, rows as int, cols as int)) by {
                        assert forall|t: int, q: int|
                            0 <= t < rows && 0 <= q < cols implies (#[trigger] g1[t][q]).swf() by {
                            assert(self.data@[t]@[q].swf());
                        }
                    }
                }
                let mut i2: usize = 0;
                while i2 < rows
                    invariant
                        i2 <= rows,
                        r < rows,
                        pj < cols,
                        rows == self.rows,
                        cols == self.cols,
                        self.wf(),
                        grid_wf(g1, rows as int, cols as int),
                        p == g1[r as int][pj as int],
                        p.swf(),
                        forall|t: int| i2 <= t < rows ==> self.view_grid()[t] == g1[t],
                        self.view_grid()[r as int] == g1[r as int],
                        forall|t: int|
                            0 <= t < i2 ==> self.view_grid()[t] == eliminate_col(
                                g1,
                                r as int,
                                pj as int,
                            )[t],
                    decreases rows - i2,
                {
                    let ghost elim = eliminate_col(g1, r as int, pj as int);
                    let ghost gprev = self.view_grid();
                    if i2 != r {
                        let cur = self.data[i2][pj];
                        proof {
                            assert(self.view_grid()[i2 as int] == self.data@[i2 as int]@);
                            assert(cur == g1[i2 as int][pj as int]);
                        }
                        if !cur.is_zero() {
                            let a = cur.neg().div(p);
                            let mut row: Vec<K> = Vec::new();
                            let mut c2: usize = 0;
                            while c2 < cols
                                invariant
                                    c2 <= cols,
                                    i2 < rows,
                                    i2 != r,
                                    r < rows,
                                    pj < cols,
                                    rows == self.rows,
                                    cols == self.cols,
                                    self.wf(),
                                    grid_wf(g1, rows as int, cols as int),
                                    self.view_grid() == gprev,
                                    self.view_grid()[i2 as int] == g1[i2 as int],
                                    self.view_grid()[r as int] == g1[r as int],
                                    a == g1[i2 as int][pj as int].sneg().sdiv(
                                        g1[r as int][pj as int],
                                    ),
                                    a.swf(),
                                    g1[i2 as int][pj as int] != K::szero(),
                                    row@.len() == c2,
                                    forall|q: int|
                                        0 <= q < c2 ==> row@[q] == (if q >= pj {
                                            g1[i2 as int][q].sadd(
                                                g1[r as int][q].smul(
                                                    g1[i2 as int][pj as int].sneg().sdiv(
                                                        g1[r as int][pj as int],
                                                    ),
                                                ),
                                            )
                                        } else {
                                            g1[i2 as int][q]
                                        }),
                                    forall|q: int| 0 <= q < c2 ==> (#[trigger] row@[q]).swf(),
                                decreases cols - c2,
                            {
                                if c2 >= pj {
                                    row.push(self.data[i2][c2].add(self.data[r][c2].mul(a)));
                                } else {
                                    row.push(self.data[i2][c2]);
                                }
                                c2 = c2 + 1;
                            }
                            self.data[i2] = row;
                            proof {
                                assert(g1[i2 as int].len() == cols);
                                assert(self.view_grid()[i2 as int] == row@);
                                assert(self.view_grid()[i2 as int] =~= elim[i2 as int]);
                                assert(self.view_grid()[i2 as int] == elim[i2 as int]);
                            }
                        } else {
                            proof {
                                assert(g1[i2 as int].len() == cols);
                                assert(self.view_grid()[i2 as int] == g1[i2 as int]);
                                assert(self.view_grid()[i2 as int] =~= elim[i2 as int]);
                                assert(self.view_grid()[i2 as int] == elim[i2 as int]);
                            }
                        }
                    } else {
                        proof {
                            assert(g1[i2 as int].len() == cols);
                            assert(self.view_grid()[i2 as int] == g1[i2 as int]);
                            assert(self.view_grid()[i2 as int] =~= elim[i2 as int]);
                            assert(self.view_grid()[i2 as int] == elim[i2 as int]);
                        }
                    }
                    proof {
                        assert forall|t: int| 0 <= t < rows && t != i2 implies self.view_grid()[t]
                            == gprev[t] by {
                            assert(self.view_grid()[t] == self.data@[t]@);
                            assert(gprev[t] == self.data@[t]@);
                        }
                        assert forall|t: int| 0 <= t < i2 + 1 implies self.view_grid()[t]
                            == elim[t] by {
                            if t == i2 {
                                assert(self.view_grid()[t] == elim[t]);
                            } else {
                                assert(self.view_grid()[t] == gprev[t]);
                                assert(gprev[t] == elim[t]);
                            }
                        }
                    }
                    i2 = i2 + 1;
                }
                proof {
                    assert(self.view_grid() =~~= eliminate_col(g1, r as int, pj as int));
                }
                // Normalize the pivot row so the pivot becomes one.
                let ghost g2 = self.view_grid();
                let pinv = p.inv();
                let mut row_n: Vec<K> = Vec::new();
                let mut c3: usize = 0;
                while c3 < cols
                    invariant
                        c3 <= cols,
                        r < rows,
                        pj < cols,
                        rows == self.rows,
                        cols == self.cols,
                        self.wf(),
                        self.view_grid() == g2,
                        g2.len() == rows,
                        pinv.swf(),
                        row_n@.len() == c3,
                        forall|q: int|
                            0 <= q < c3 ==> row_n@[q] == (if q >= pj {
                                g2[r as int][q].smul(pinv)
                            } else {
                                g2[r as int][q]
                            }),
                        forall|q: int| 0 <= q < c3 ==> (#[trigger] row_n@[q]).swf(),
                    decreases cols - c3,
                {
                    if c3 >= pj {
                        row_n.push(self.data[r][c3].mul(pinv));
                    } else {
                        row_n.push(self.data[r][c3]);
                    }
                    c3 = c3 + 1;
                }
                self.data[r] = row_n;
                proof {
                    let sc = scale_row_tail(g2, r as int, pj as int, pinv);
                    assert forall|t: int| 0 <= t < rows implies self.view_grid()[t] =~= sc[t] by {
                        assert(g2[t].len() == cols);
                    }
                    assert(self.view_grid() =~~= sc);
                    // One unfolding of the functional elimination equals the
                    // three phases just performed.
                    let m1 = if pi != r {
                        swap_rows_tail(g0, r as int, pi as int, pj as int)
                    } else {
                        g0
                    };
                    assert(g1 == m1);
                    let m2 = eliminate_col(m1, r as int, pj as int);
                    assert(g2 == m2);
                    let m3 = scale_row_tail(m2, r as int, pj as int, m1[r as int][pj as int].sinv());
                    assert(self.view_grid() == m3);
                    assert(rref_from(g0, cols as int, r as int, col as int) == rref_from(
                        m3,
                        cols as int,
                        r as int + 1,
                        pj as int + 1,
                    ));
                }
                r = r + 1;
                col = pj + 1;
            }
        }
        proof {
            if !done {
                assert(self.view_grid().len() == rows);
                assert(rref_from(self.view_grid(), cols as int, rows as int, col as int)
                    == self.view_grid());
            }
        }
    }

    /// The reduced row echelon form, computed on a copy.
    pub fn row_echelon(&self) -> (r: Matrix<K>)
        requires
            self.wf(),
        ensures
            r.rows == self.rows,
            r.cols == self.cols,
            r.view_grid() == rref(self.view_grid(), self.cols as int),
            r.wf(),
    {
        let mut ret = self.clone_mat();
        ret.row_echelon_mut();
        ret
    }

    /// The rank: the number of pivot positions in the reduced row echelon
    /// form, scanned left to right with a strictly advancing column cursor.
    pub fn rank(&self) -> (r: usize)
        requires
            self.wf(),
        ensures
            r == rank_of(self.view_grid(), self.cols as int),
    {
        let mat = self.row_echelon();
        let ghost g = mat.view_grid();
        let rows = self.rows;
        let cols = self.cols;
        let mut rank: usize = 0;
        let mut cur: usize = 0;
        let mut i: usize = 0;
        proof {
            assert(g.len() == rows);
        }
        while i < rows
            invariant
                i <= rows,
                cur <= cols,
                rows == self.rows == mat.rows,
                cols == self.cols == mat.cols,
                mat.wf(),
                g == mat.view_grid(),
                g.len() == rows,
                rank + pivot_list(g, i as int, cur as int).len() == pivot_list(g, 0, 0).len(),
                rank <= i,
            decreases rows - i,
        {
            proof {
                assert(g[i as int] == mat.data@[i as int]@);
                assert(g[i as int].len() == cols);
            }
            let mut c: usize = cur;
            let mut hit: bool = false;
            while c < cols && !hit
                invariant
                    cur <= c <= cols,
                    i < rows,
                    cols == mat.cols,
                    mat.wf(),
                    g == mat.view_grid(),
                    g.len() == rows,
                    rows == mat.rows,
                    g[i as int].len() == cols,
                    !hit ==> row_pivot_col(g[i as int], cur as int) == row_pivot_col(
                        g[i as int],
                        c as int,
                    ),
                    hit ==> cur <= c < cols && row_pivot_col(g[i as int], cur as int) == Some(
                        c as int,
                    ),
                decreases cols - c, (if hit { 0int } else { 1 }),
            {
                proof {
                    assert(g[i as int] == mat.data@[i as int]@);
                }
                if !mat.data[i][c].is_zero() {
                    hit = true;
                } else {
                    proof {
                        assert(row_pivot_col(g[i as int], c as int) == row_pivot_col(
                            g[i as int],
                            c as int + 1,
                        ));
                    }
                    c = c + 1;
                }
            }
            if hit {
                proof {
                    assert(pivot_list(g, i as int, cur as int) == seq![(i as int, c as int)]
                        + pivot_list(g, i as int + 1, c as int + 1));
                }
                rank = rank + 1;
                cur = c + 1;
            } else {
                proof {
                    assert(row_pivot_col(g[i as int], cols as int) is None);
                    assert(pivot_list(g, i as int, cur as int) == pivot_list(
                        g,
                        i as int + 1,
                        cur as int,
                    ));
                }
            }
            i = i + 1;
        }
        rank
    }

    /// Whether the rows are linearly independent: the rank equals the row
    /// count.
    pub fn is_independent(&self) -> (r: bool)
        requires
            self.wf(),
        ensures
            r == (rank_of(self.view_grid(), self.cols as int) == self.rows),
    {
        self.rank() == self.rows
    }

    /// The row space: the pivot rows of the reduced row echelon form, in
    /// order.
    pub fn row_space(&self) -> (r: Matrix<K>)
        requires
            self.wf(),
        ensures
            r.rows == pivot_list(rref(self.view_grid(), self.cols as int), 0, 0).len(),
            r.cols == self.cols,
            forall|p: int|
                0 <= p < r.rows ==> r.view_grid()[p] == rref(self.view_grid(), self.cols as int)[
                    pivot_list(rref(self.view_grid(), self.cols as int), 0, 0)[p].0
                ],
            r.wf(),
    {
        let mat = self.row_echelon();
        let ghost g = mat.view_grid();
        let rows = self.rows;
        let cols = self.cols;
        let mut data: Vec<Vec<K>> = Vec::new();
        let ghost mut found_pairs: Seq<(int, int)> = Seq::empty();
        let mut cur: usize = 0;
        let mut i: usize = 0;
        proof {
            assert(g.len() == rows);
            assert(pivot_list(g, 0, 0) =~= found_pairs + pivot_list(g, 0, 0));
        }
        while i < rows
            invariant
                i <= rows,
                cur <= cols,
                rows == self.rows == mat.rows,
                cols == self.cols == mat.cols,
                mat.wf(),
                g == mat.view_grid(),
                g.len() == rows,
                pivot_list(g, 0, 0) == found_pairs + pivot_list(g, i as int, cur as int),
                data@.len() == found_pairs.len(),
                forall|p: int|
                    0 <= p < found_pairs.len() ==> 0 <= (#[trigger] found_pairs[p]).0 < rows,
                forall|p: int|
                    0 <= p < found_pairs.len() ==> (#[trigger] data@[p])@ == g[found_pairs[p].0],
            decreases rows - i,
        {
            proof {
                assert(g[i as int] == mat.data@[i as int]@);
                assert(g[i as int].len() == cols);
            }
            let mut c: usize = cur;
            let mut hit: bool = false;
            while c < cols && !hit
                invariant
                    cur <= c <= cols,
                    i < rows,
                    cols == mat.cols,
                    mat.wf(),
                    g == mat.view_grid(),
                    g.len() == rows,
                    rows == mat.rows,
                    g[i as int].len() == cols,
                    !hit ==> row_pivot_col(g[i as int], cur as int) == row_pivot_col(
                        g[i as int],
                        c as int,
                    ),
                    hit ==> cur <= c < cols && row_pivot_col(g[i as int], cur as int) == Some(
                        c as int,
                    ),
                decreases cols - c, (if hit { 0int } else { 1 }),
            {
                proof {
                    assert(g[i as int] == mat.data@[i as int]@);
                }
                if !mat.data[i][c].is_zero() {
                    hit = true;
                } else {
                    proof {
                        assert(row_pivot_col(g[i as int], c as int) == row_pivot_col(
                            g[i as int],
                            c as int + 1,
                        ));
                    }
                    c = c + 1;
                }
            }
            if hit {
                proof {
                    assert(pivot_list(g, i as int, cur as int) == seq![(i as int, c as int)]
                        + pivot_list(g, i as int + 1, c as int + 1));
                }
                let mut row: Vec<K> = Vec::new();
                let mut q: usize = 0;
                while q < cols
                    invariant
                        q <= cols,
                        i < rows,
                        cols == mat.cols,
                        rows == mat.rows,
                        mat.wf(),
                        g == mat.view_grid(),
                        g.len() == rows,
                        g[i as int].len() == cols,
                        row@.len() == q,
                        forall|t: int| 0 <= t < q ==> row@[t] == g[i as int][t],
                    decreases cols - q,
                {
                    row.push(mat.data[i][q]);
                    q = q + 1;
                }
                proof {
                    assert(row@ =~= g[i as int]);
                    assert(pivot_list(g, 0, 0) =~= (found_pairs + seq![(i as int, c as int)])
                        + pivot_list(g, i as int + 1, c as int + 1));
                }
                data.push(row);
                proof {
                    found_pairs = found_pairs + seq![(i as int, c as int)];
                }
                cur = c + 1;
            } else {
                proof {
                    assert(row_pivot_col(g[i as int], cols as int) is None);
                    assert(pivot_list(g, i as int, cur as int) == pivot_list(
                        g,
                        i as int + 1,
                        cur as int,
                    ));
                }
            }
            i = i + 1;
        }
        proof {
            assert(pivot_list(g, rows as int, cur as int) =~= Seq::<(int, int)>::empty());
            assert(pivot_list(g, 0, 0) =~= found_pairs);
        }
        let n = data.len();
        Matrix { data, rows: n, cols }
    }

    /// The column space: for each pivot found in the reduced row echelon
    /// form, the corresponding column of the original matrix, laid out as
    /// a row of the result.
    pub fn col_space(&self) -> (r: Matrix<K>)
        requires
            self.wf(),
        ensures
            r.rows == pivot_list(rref(self.view_grid(), self.cols as int), 0, 0).len(),
            r.cols == self.rows,
            forall|p: int, q: int|
                0 <= p < r.rows && 0 <= q < self.rows ==> r.at(p, q) == self.at(
                    q,
                    pivot_list(rref(self.view_grid(), self.cols as int), 0, 0)[p].1,
                ),
            r.wf(),
    {
        let mat = self.row_echelon();
        let ghost g = mat.view_grid();
        let rows = self.rows;
        let cols = self.cols;
        let mut data: Vec<Vec<K>> = Vec::new();
        let ghost mut found_pairs: Seq<(int, int)> = Seq::empty();
        let mut cur: usize = 0;
        let mut i: usize = 0;
        proof {
            assert(g.len() == rows);
            assert(pivot_list(g, 0, 0) =~= found_pairs + pivot_list(g, 0, 0));
        }
        while i < rows
            invariant
                i <= rows,
                cur <= cols,
                rows == self.rows == mat.rows,
                cols == self.cols == mat.cols,
                self.wf(),
                mat.wf(),
                g == mat.view_grid(),
                g.len() == rows,
                pivot_list(g, 0, 0) == found_pairs + pivot_list(g, i as int, cur as int),
                data@.len() == found_pairs.len(),
                forall|p: int|
                    0 <= p < found_pairs.len() ==> 0 <= (#[trigger] found_pairs[p]).1 < cols,
                forall|p: int|
                    0 <= p < found_pairs.len() ==> (#[trigger] data@[p])@.len() == rows,
                forall|p: int, q: int|
                    0 <= p < found_pairs.len() && 0 <= q < rows ==> data@[p]@[q] == self.at(
                        q,
                        found_pairs[p].1,
                    ),
                forall|p: int, q: int|
                    0 <= p < found_pairs.len() && 0 <= q < rows ==> (#[trigger] data@[p]@[
                        q
                    ]).swf(),
            decreases rows - i,
        {
            proof {
                assert(g[i as int] == mat.data@[i as int]@);
                assert(g[i as int].len() == cols);
            }
            let mut c: usize = cur;
            let mut hit: bool = false;
            while c < cols && !hit
                invariant
                    cur <= c <= cols,
                    i < rows,
                    cols == mat.cols,
                    mat.wf(),
                    g == mat.view_grid(),
                    g.len() == rows,
                    rows == mat.rows,
                    g[i as int].len() == cols,
                    !hit ==> row_pivot_col(g[i as int], cur as int) == row_pivot_col(
                        g[i as int],
                        c as int,
                    ),
                    hit ==> cur <= c < cols && row_pivot_col(g[i as int], cur as int) == Some(
                        c as int,
                    ),
                decreases cols - c, (if hit { 0int } else { 1 }),
            {
                proof {
                    assert(g[i as int] == mat.data@[i as int]@);
                }
                if !mat.data[i][c].is_zero() {
                    hit = true;
                } else {
                    proof {
                        assert(row_pivot_col(g[i as int], c as int) == row_pivot_col(
                            g[i as int],
                            c as int + 1,
                        ));
                    }
                    c = c + 1;
                }
            }
            if hit {
                proof {
                    assert(pivot_list(g, i as int, cur as int) == seq![(i as int, c as int)]
                        + pivot_list(g, i as int + 1, c as int + 1));
                }
                let mut row: Vec<K> = Vec::new();
                let mut q: usize = 0;
                while q < rows
                    invariant
                        q <= rows,
                        i < rows,
                        c < cols,
                        cols == self.cols,
                        rows == self.rows,
                        self.wf(),
                        row@.len() == q,
                        forall|t: int| 0 <= t < q ==> row@[t] == self.at(t, c as int),
                        forall|t: int| 0 <= t < q ==> (#[trigger] row@[t]).swf(),
                    decreases rows - q,
                {
                    row.push(self.data[q][c]);
                    q = q + 1;
                }
                proof {
                    assert(pivot_list(g, 0, 0) =~= (found_pairs + seq![(i as int, c as int)])
                        + pivot_list(g, i as int + 1, c as int + 1));
                }
                data.push(row);
                proof {
                    found_pairs = found_pairs + seq![(i as int, c as int)];
                }
                cur = c + 1;
            } else {
                proof {
                    assert(row_pivot_col(g[i as int], cols as int) is None);
                    assert(pivot_list(g, i as int, cur as int) == pivot_list(
                        g,
                        i as int + 1,
                        cur as int,
                    ));
                }
            }
            i = i + 1;
        }
        proof {
            assert(pivot_list(g, rows as int, cur as int) =~= Seq::<(int, int)>::empty());
            assert(pivot_list(g, 0, 0) =~= found_pairs);
        }
        let n = data.len();
        Matrix { data, rows: n, cols: rows }
    }

    /// The determinant of a square matrix, by recursive cofactor
    /// expansion along the first row.
    pub fn determinant(&self) -> (r: K)
        requires
            self.wf(),
            self.rows == self.cols,
        ensures
            r == det_n(self.view_grid(), self.rows as int),
            r.swf(),
        decreases self.rows,
    {
        let n = self.rows;
        if n == 0 {
            proof {
                K::lemma_identities_wf();
            }
            K::zero()
        } else if n == 1 {
            self.data[0][0]
        } else if n == 2 {
            self.data[0][0].mul(self.data[1][1]).sub(self.data[0][1].mul(self.data[1][0]))
        } else {
            let ghost g = self.view_grid();
            let mut acc = K::zero();
            let mut j: usize = 0;
            proof {
                K::lemma_identities_wf();
                assert(g.len() == n);
            }
            while j < n
                invariant
                    j <= n,
                    n == self.rows == self.cols,
                    n >= 3,
                    self.wf(),
                    g == self.view_grid(),
                    g.len() == n,
                    acc.swf(),
                    cof_sum(g, n as int, j as int, acc) == cof_sum(g, n as int, 0, K::szero()),
                decreases n - j,
            {
                // Build the minor: rows 1.. with column j removed.
                let mut mdata: Vec<Vec<K>> = Vec::new();
                let mut i: usize = 1;
                while i < n
                    invariant
                        1 <= i <= n,
                        j < n,
                        n == self.rows == self.cols,
                        self.wf(),
                        g == self.view_grid(),
                        g.len() == n,
                        mdata@.len() == i - 1,
                        forall|p: int|
                            0 <= p < i - 1 ==> (#[trigger] mdata@[p])@.len() == n - 1,
                        forall|p: int, q: int|
                            0 <= p < i - 1 && 0 <= q < n - 1 ==> mdata@[p]@[q] == (if q < j {
                                g[p + 1][q]
                            } else {
                                g[p + 1][q + 1]
                            }),
                        forall|p: int, q: int|
                            0 <= p < i - 1 && 0 <= q < n - 1 ==> (#[trigger] mdata@[p]@[
                                q
                            ]).swf(),
                    decreases n - i,
                {
                    let mut row: Vec<K> = Vec::new();
                    let mut q: usize = 0;
                    while q < n
                        invariant
                            q <= n,
                            1 <= i < n,
                            j < n,
                            n == self.rows == self.cols,
                            self.wf(),
                            g == self.view_grid(),
                            g.len() == n,
                            row@.len() == (if q <= j { q as int } else { q - 1 }),
                            forall|t: int|
                                0 <= t < row@.len() ==> row@[t] == (if t < j {
                                    g[i as int][t]
                                } else {
                                    g[i as int][t + 1]
                                }),
                            forall|t: int| 0 <= t < row@.len() ==> (#[trigger] row@[t]).swf(),
                        decreases n - q,
                    {
                        if q != j {
                            row.push(self.data[i][q]);
                        }
                        q = q + 1;
                    }
                    mdata.push(row);
                    i = i + 1;
                }
                let minor = Matrix { data: mdata, rows: n - 1, cols: n - 1 };
                proof {
                    assert forall|p: int| 0 <= p < n - 1 implies minor.view_grid()[p]
                        =~= minor_grid(g, j as int)[p] by {
                        assert(g[p + 1].len() == n);
                        assert(minor.view_grid()[p] == minor.data@[p]@);
                        assert(minor_grid(g, j as int)[p] == g[p + 1].remove(j as int));
                    }
                    assert(minor.view_grid() =~~= minor_grid(g, j as int));
                }
                let sub_det = minor.determinant();
                let term = self.data[0][j].mul(sub_det);
                if j % 2 == 1 {
                    acc = acc.add(term.neg());
                } else {
                    acc = acc.add(term);
                }
                proof {
                    assert(cof_sum(g, n as int, j as int + 1, acc) == cof_sum(
                        g,
                        n as int,
                        0,
                        K::szero(),
                    ));
                }
                j = j + 1;
            }
            acc
        }
    }

    /// The inverse of a square matrix, computed by reducing the augmented
    /// matrix `[A | I]` and taking the right half.  The candidate is then
    /// checked by multiplication: `Ok` is returned exactly when the
    /// candidate times `A` is the identity, and a singular matrix is
    /// reported as an error.
    pub fn inverse(&self) -> (r: Result<Matrix<K>, &'static str>)
        requires
            self.wf(),
            self.rows == self.cols,
            2 * self.rows <= usize::MAX,
        ensures
            r is Ok <==> product_is_identity(
                inv_candidate(self.view_grid(), self.rows as int),
                self.view_grid(),
                self.rows as int,
            ),
            r matches Ok(b) ==> b.rows == self.rows && b.cols == self.cols && b.wf()
                && b.view_grid() == inv_candidate(self.view_grid(), self.rows as int),
    {
        let n = self.rows;
        let ghost g = self.view_grid();
        // Build the augmented matrix [A | I].
        let mut adata: Vec<Vec<K>> = Vec::new();
        let mut i: usize = 0;
        proof {
            K::lemma_identities_wf();
            assert(g.len() == n);
        }
        while i < n
            invariant
                i <= n,
                n == self.rows == self.cols,
                self.wf(),
                g == self.view_grid(),
                g.len() == n,
                n + n <= usize::MAX,
                adata@.len() == i,
                forall|p: int| 0 <= p < i ==> (#[trigger] adata@[p])@.len() == 2 * n,
                forall|p: int, q: int|
                    0 <= p < i && 0 <= q < 2 * n ==> (#[trigger] adata@[p]@[q]) == (if q < n {
                        g[p][q]
                    } else if q == n + p {
                        K::sone()
                    } else {
                        K::szero()
                    }),
                forall|p: int, q: int|
                    0 <= p < i && 0 <= q < 2 * n ==> (#[trigger] adata@[p]@[q]).swf(),
            decreases n - i,
        {
            let mut row: Vec<K> = Vec::new();
            let mut q: usize = 0;
            let w = n + n;
            while q < w
                invariant
                    q <= w,
                    i < n,
                    w == n + n,
                    n == self.rows == self.cols,
                    self.wf(),
                    g == self.view_grid(),
                    g.len() == n,
                    row@.len() == q,
                    forall|t: int|
                        0 <= t < q ==> (#[trigger] row@[t]) == (if t < n {
                            g[i as int][t]
                        } else if t == n + i {
                            K::sone()
                        } else {
                            K::szero()
                        }),
                    forall|t: int| 0 <= t < q ==> (#[trigger] row@[t]).swf(),
                decreases w - q,
            {
                if q < n {
                    row.push(self.data[i][q]);
                } else if q == n + i {
                    row.push(K::one());
                } else {
                    row.push(K::zero());
                }
                q = q + 1;
            }
            adata.push(row);
            proof {
                assert forall|q: int| 0 <= q < 2 * n implies adata@[i as int]@[q] == (if q < n {
                    g[i as int][q]
                } else if q == n + i {
                    K::sone()
                } else {
                    K::szero()
                }) by {
                    assert(adata@[i as int]@ == row@);
                    assert(row@[q] == (if q < n {
                        g[i as int][q]
                    } else if q == n + i {
                        K::sone()
                    } else {
                        K::szero()
                    }));
                }
            }
            i = i + 1;
        }
        let mut aug = Matrix { data: adata, rows: n, cols: n + n };
        proof {
            assert forall|p: int| 0 <= p < n implies aug.view_grid()[p] =~= augmented_grid(
                g,
                n as int,
            )[p] by {
                assert(aug.view_grid()[p] == aug.data@[p]@);
                assert forall|q: int| 0 <= q < 2 * n implies aug.data@[p]@[q] == augmented_grid(
                    g,
                    n as int,
                )[p][q] by {
                    assert(aug.data@[p]@[q] == (if q < n {
                        g[p][q]
                    } else if q == n + p {
                        K::sone()
                    } else {
                        K::szero()
                    }));
                }
            }
            assert(aug.view_grid() =~~= augmented_grid(g, n as int));
        }
        aug.row_echelon_mut();
        let ghost rg = aug.view_grid();
        proof {
            assert(rg == rref(augmented_grid(g, n as int), 2 * (n as int)));
        }
        // Extract the right half: the inverse candidate.
        let mut bdata: Vec<Vec<K>> = Vec::new();
        let mut i2: usize = 0;
        while i2 < n
            invariant
                i2 <= n,
                n == self.rows == self.cols,
                aug.wf(),
                aug.rows == n,
                aug.cols == n + n,
                rg == aug.view_grid(),
                rg.len() == n,
                bdata@.len() == i2,
                forall|p: int| 0 <= p < i2 ==> (#[trigger] bdata@[p])@.len() == n,
                forall|p: int, q: int|
                    0 <= p < i2 && 0 <= q < n ==> bdata@[p]@[q] == rg[p][q + n],
                forall|p: int, q: int|
                    0 <= p < i2 && 0 <= q < n ==> (#[trigger] bdata@[p]@[q]).swf(),
            decreases n - i2,
        {
            let mut row: Vec<K> = Vec::new();
            let mut q: usize = 0;
            proof {
                assert(rg[i2 as int] == aug.data@[i2 as int]@);
                assert(rg[i2 as int].len() == n + n);
            }
            while q < n
                invariant
                    q <= n,
                    i2 < n,
                    n == self.rows,
                    aug.wf(),
                    aug.rows == n,
                    aug.cols == n + n,
                    rg == aug.view_grid(),
                    rg.len() == n,
                    rg[i2 as int].len() == n + n,
                    row@.len() == q,
                    forall|t: int| 0 <= t < q ==> row@[t] == rg[i2 as int][t + n],
                    forall|t: int| 0 <= t < q ==> (#[trigger] row@[t]).swf(),
                decreases n - q,
            {
                row.push(aug.data[i2][q + n]);
                q = q + 1;
            }
            bdata.push(row);
            i2 = i2 + 1;
        }
        let b = Matrix { data: bdata, rows: n, cols: n };
        proof {
            assert forall|p: int| 0 <= p < n implies b.view_grid()[p] =~= inv_candidate(
                g,
                n as int,
            )[p] by {
                assert(b.view_grid()[p] == b.data@[p]@);
            }
            assert(b.view_grid() =~~= inv_candidate(g, n as int));
        }
        // Check the candidate: b * self must be the identity.
        let prod = b.mul_mat(self);
        let one = K::one();
        let zero = K::zero();
        let mut ok = true;
        let mut i3: usize = 0;
        while i3 < n
            invariant
                i3 <= n,
                n == self.rows == self.cols,
                prod.wf(),
                prod.rows == n,
                prod.cols == n,
                one == K::sone(),
                zero == K::szero(),
                one.swf(),
                zero.swf(),
                forall|p: int, q: int|
                    0 <= p < n && 0 <= q < n ==> prod.at(p, q) == mm_sum(
                        b.view_grid(),
                        self.view_grid(),
                        p,
                        q,
                        n as int,
                    ),
                b.view_grid() == inv_candidate(g, n as int),
                g == self.view_grid(),
                ok <==> (forall|p: int, q: int|
                    0 <= p < i3 && 0 <= q < n ==> mm_sum(b.view_grid(), self.view_grid(), p, q, n as int)
                        == (if p == q {
                        K::sone()
                    } else {
                        K::szero()
                    })),
            decreases n - i3,
        {
            let mut q3: usize = 0;
            while q3 < n
                invariant
                    q3 <= n,
                    i3 < n,
                    n == self.rows == self.cols,
                    prod.wf(),
                    prod.rows == n,
                    prod.cols == n,
                    one == K::sone(),
                    zero == K::szero(),
                    one.swf(),
                    zero.swf(),
                    forall|p: int, q: int|
                        0 <= p < n && 0 <= q < n ==> prod.at(p, q) == mm_sum(
                            b.view_grid(),
                            self.view_grid(),
                            p,
                            q,
                            n as int,
                        ),
                    b.view_grid() == inv_candidate(g, n as int),
                    g == self.view_grid(),
                    ok <==> ((forall|p: int, q: int|
                        0 <= p < i3 && 0 <= q < n ==> mm_sum(
                            b.view_grid(),
                            self.view_grid(),
                            p,
                            q,
                            n as int,
                        ) == (if p == q {
                        K::sone()
                    } else {
                        K::szero()
                    })) && (forall|q: int|
                        0 <= q < q3 ==> mm_sum(
                            b.view_grid(),
                            self.view_grid(),
                            i3 as int,
                            q,
                            n as int,
                        ) == (if i3 as int == q {
                        K::sone()
                    } else {
                        K::szero()
                    }))),
                decreases n - q3,
            {
                proof {
                    assert(prod.at(i3 as int, q3 as int) == prod.data@[i3 as int]@[q3 as int]);
                }
                let expect = if i3 == q3 {
                    &one
                } else {
                    &zero
                };
                if !prod.data[i3][q3].eq_val(expect) {
                    ok = false;
                }
                q3 = q3 + 1;
            }
            i3 = i3 + 1;
        }
        if ok {
            Ok(b)
        } else {
            Err("matrix must be singular")
        }
    }

    /// The conjugate transpose: indices swap and every element is
    /// conjugated, which is the plain transpose for real scalars and the
    /// Hermitian transpose for complex ones (deliberately, to match the
    /// Hermitian dot product).
    pub fn transpose(&self) -> (r: Matrix<K>)
        requires
            self.wf(),
        ensures
            r.rows == self.cols,
            r.cols == self.rows,
            forall|i: int, j: int|
                0 <= i < self.cols && 0 <= j < self.rows ==> r.at(i, j) == self.at(j, i).sconj(),
            r.wf(),
    {
        let rows = self.cols;
        let cols = self.rows;
        let mut data: Vec<Vec<K>> = Vec::new();
        let mut i: usize = 0;
        while i < rows
            invariant
                i <= rows,
                rows == self.cols,
                cols == self.rows,
                self.wf(),
                data@.len() == i,
                forall|p: int| 0 <= p < i ==> (#[trigger] data@[p])@.len() == cols,
                forall|p: int, q: int|
                    0 <= p < i && 0 <= q < cols ==> data@[p]@[q] == self.at(q, p).sconj(),
                forall|p: int, q: int|
                    0 <= p < i && 0 <= q < cols ==> (#[trigger] data@[p]@[q]).swf(),
            decreases rows - i,
        {
            let mut row: Vec<K> = Vec::new();
            let mut j: usize = 0;
            while j < cols
                invariant
                    j <= cols,
                    i < rows,
                    rows == self.cols,
                    cols == self.rows,
                    self.wf(),
                    row@.len() == j,
                    forall|q: int| 0 <= q < j ==> row@[q] == self.at(q, i as int).sconj(),
                    forall|q: int| 0 <= q < j ==> (#[trigger] row@[q]).swf(),
                decreases cols - j,
            {
                row.push(self.data[j][i].conj());
                j = j + 1;
            }
            data.push(row);
            i = i + 1;
        }
        Matrix { data, rows, cols }
    }
}

impl<K: Scalar> Lerp for Matrix<K> {
    open spec fn lerp_req(u: Matrix<K>, v: Matrix<K>) -> bool {
        u.wf() && v.wf() && u.rows == v.rows && u.cols == v.cols
    }

    open spec fn lerp_wf(r: Matrix<K>) -> bool {
        r.wf()
    }

    open spec fn lerp_post(u: Matrix<K>, v: Matrix<K>, t: Rat, r: Matrix<K>) -> bool {
        if t == rat_zero() {
            r == u
        } else if t == rat_one() {
            r == v
        } else {
            &&& r.rows == u.rows
            &&& r.cols == u.cols
            &&& forall|i: int, j: int|
                0 <= i < u.rows && 0 <= j < u.cols ==> r.at(i, j) == v.at(i, j).ssub(
                    u.at(i, j),
                ).smul(K::sfrom_rat(t)).sadd(u.at(i, j))
        }
    }

    fn lerp(u: Matrix<K>, v: Matrix<K>, t: Rat) -> (r: Matrix<K>) {
        if t.is_zero_val() {
            u
        } else if t.num == 1 && t.den == 1 {
            v
        } else {
            let p = K::from_rat(t);
            let rows = u.rows;
            let cols = u.cols;
            let mut data: Vec<Vec<K>> = Vec::new();
            let mut i: usize = 0;
            while i < rows
                invariant
                    i <= rows,
                    rows == u.rows,
                    cols == u.cols,
                    u.wf(),
                    v.wf(),
                    v.rows == rows,
                    v.cols == cols,
                    p == K::sfrom_rat(t),
                    p.swf(),
                    data@.len() == i,
                    forall|a: int| 0 <= a < i ==> (#[trigger] data@[a])@.len() == cols,
                    forall|a: int, b: int|
                        0 <= a < i && 0 <= b < cols ==> data@[a]@[b] == v.at(a, b).ssub(
                            u.at(a, b),
                        ).smul(K::sfrom_rat(t)).sadd(u.at(a, b)),
                    forall|a: int, b: int|
                        0 <= a < i && 0 <= b < cols ==> (#[trigger] data@[a]@[b]).swf(),
                decreases rows - i,
            {
                let mut row: Vec<K> = Vec::new();
                let mut j: usize = 0;
                while j < cols
                    invariant
                        j <= cols,
                        i < rows,
                        rows == u.rows,
                        cols == u.cols,
                        u.wf(),
                        v.wf(),
                        v.rows == rows,
                        v.cols == cols,
                        p == K::sfrom_rat(t),
                        p.swf(),
                        row@.len() == j,
                        forall|b: int|
                            0 <= b < j ==> row@[b] == v.at(i as int, b).ssub(
                                u.at(i as int, b),
                            ).smul(K::sfrom_rat(t)).sadd(u.at(i as int, b)),
                        forall|b: int| 0 <= b < j ==> (#[trigger] row@[b]).swf(),
                    decreases cols - j,
                {
                    row.push(v.data[i][j].sub(u.data[i][j]).mul(p).add(u.data[i][j]));
                    j = j + 1;
                }
                data.push(row);
                i = i + 1;
            }
            Matrix { data, rows, cols }
        }
    }
}

} // verus!
