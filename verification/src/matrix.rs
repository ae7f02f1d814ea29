//! Matrices over GF(2^8): building the coding matrix of a code, and
//! inverting a square selection of its rows.

use crate::coding_matrix::{
    coding_matrix, lemma_inverse_unique, lemma_vandermonde_invertible, valid_counts,
};
use crate::elimination::{copy_row, invert, lemma_row_lengths};
use crate::error::Error;
use crate::galois::{gf_pow, Gf256};
use crate::linalg::{
    column, dot_upto, grid, inverse_of, invertible, is_inverse, is_matrix, mat_mul, row_mat,
    select_rows, width,
};
use crate::vandermonde::{powers, vandermonde};
use vstd::prelude::*;

verus! {

/// A matrix of field elements, stored row by row. Every row has the
/// same number of entries.
pub struct Matrix {
    rows: usize,
    cols: usize,
    data: Vec<Vec<u8>>,
}

impl View for Matrix {
    type V = Seq<Seq<u8>>;

    closed spec fn view(&self) -> Seq<Seq<u8>> {
        grid(self.data)
    }
}

/// The row indices of a selection, as mathematical integers.
pub open spec fn indices(rows: Seq<usize>) -> Seq<int> {
    Seq::new(rows.len(), |k: int| rows[k] as int)
}

/// Whether `rows` names as many rows of `m` as `m` has columns.
pub open spec fn selection_fits(m: Seq<Seq<u8>>, cols: nat, rows: Seq<int>) -> bool {
    &&& rows.len() == cols
    &&& forall|k: int| 0 <= k < rows.len() ==> 0 <= #[trigger] rows[k] < m.len()
}

impl Matrix {
    #[verifier::type_invariant]
    spec fn wf(&self) -> bool {
        is_matrix(grid(self.data), self.rows as nat, self.cols as nat)
    }

    /// The number of rows.
    pub closed spec fn height(&self) -> nat {
        self.rows as nat
    }

    /// The number of columns.
    pub closed spec fn width(&self) -> nat {
        self.cols as nat
    }

    /// A matrix with the given rows, if they all have the same length.
    /// A matrix without rows has no columns.
    pub fn from_rows(rows: Vec<Vec<u8>>) -> (r: Option<Matrix>)
        ensures
            match r {
                Some(m) => m@ == grid(rows) && m.height() == rows.len() && m.width() == width(
                    grid(rows),
                ),
                None => !is_matrix(grid(rows), rows.len() as nat, width(grid(rows))),
            },
    {
        let n = rows.len();
        let cols = if n == 0 {
            0
        } else {
            rows[0].len()
        };
        let mut i: usize = 0;
        while i < n
            invariant
                i <= n,
                n == rows.len(),
                cols == width(grid(rows)),
                forall|k: int| 0 <= k < i ==> (#[trigger] grid(rows)[k]).len() == cols,
            decreases n - i,
        {
            if rows[i].len() != cols {
                assert(grid(rows)[i as int].len() != cols);
                return None;
            }
            assert(grid(rows)[i as int] == rows[i as int]@);
            i += 1;
        }
        Some(Matrix { rows: n, cols, data: rows })
    }

    /// The number of rows.
    pub fn row_count(&self) -> (r: usize)
        ensures
            r == self.height(),
            is_matrix(self@, self.height(), self.width()),
    {
        proof {
            use_type_invariant(self);
        }
        self.rows
    }

    /// The number of columns.
    pub fn col_count(&self) -> (r: usize)
        ensures
            r == self.width(),
            is_matrix(self@, self.height(), self.width()),
    {
        proof {
            use_type_invariant(self);
        }
        self.cols
    }

    /// The entry in row `r` and column `c`.
    pub fn get(&self, r: usize, c: usize) -> (v: u8)
        requires
            r < self.height(),
            c < self.width(),
        ensures
            v == self@[r as int][c as int],
    {
        proof {
            use_type_invariant(self);
            lemma_row_lengths(self.data, self.rows as nat, self.cols as nat);
        }
        self.data[r][c]
    }

    /// Row `r`.
    pub fn row(&self, r: usize) -> (v: &Vec<u8>)
        requires
            r < self.height(),
        ensures
            v@ == self@[r as int],
            v.len() == self.width(),
    {
        proof {
            use_type_invariant(self);
            lemma_row_lengths(self.data, self.rows as nat, self.cols as nat);
        }
        &self.data[r]
    }
}

fn power_row(field: &Gf256, x: u8, n: usize) -> (out: Vec<u8>)
    ensures
        out@ == powers(x, n as nat),
{
    let mut out: Vec<u8> = Vec::new();
    let mut c: usize = 0;
    while c < n
        invariant
            c <= n,
            out.len() == c,
            forall|j: int| 0 <= j < c ==> out[j] == gf_pow(x, j as nat),
        decreases n - c,
    {
        out.push(field.pow(x, c));
        c += 1;
    }
    assert(out@ =~= powers(x, n as nat));
    out
}

fn vandermonde_rows(field: &Gf256, rows: usize, cols: usize) -> (out: Vec<Vec<u8>>)
    requires
        rows <= 256,
    ensures
        out.len() == rows,
        grid(out) == vandermonde(rows as nat, cols as nat),
{
    let mut out: Vec<Vec<u8>> = Vec::new();
    let mut r: usize = 0;
    while r < rows
        invariant
            r <= rows,
            rows <= 256,
            out.len() == r,
            forall|k: int| 0 <= k < r ==> (#[trigger] out[k])@ == powers(k as u8, cols as nat),
        decreases rows - r,
    {
        out.push(power_row(field, r as u8, cols));
        r += 1;
    }
    assert(grid(out) =~= vandermonde(rows as nat, cols as nat));
    out
}

fn dot_column(field: &Gf256, row: &Vec<u8>, b: &Vec<Vec<u8>>, c: usize) -> (v: u8)
    requires
        row.len() == b.len(),
        forall|k: int| 0 <= k < b.len() ==> c < (#[trigger] b[k]).len(),
    ensures
        v == dot_upto(row@, column(grid(*b), c as int), row.len() as nat),
{
    let mut acc: u8 = 0;
    let mut k: usize = 0;
    while k < row.len()
        invariant
            k <= row.len(),
            row.len() == b.len(),
            forall|k: int| 0 <= k < b.len() ==> c < (#[trigger] b[k]).len(),
            acc == dot_upto(row@, column(grid(*b), c as int), k as nat),
        decreases row.len() - k,
    {
        let t = field.mul(row[k], b[k][c]);
        acc = field.add(acc, t);
        k += 1;
    }
    acc
}

/// The product of two matrices.
fn multiply(field: &Gf256, a: &Vec<Vec<u8>>, b: &Vec<Vec<u8>>, Ghost(cols): Ghost<nat>) -> (out:
    Vec<Vec<u8>>)
    requires
        b.len() > 0,
        is_matrix(grid(*a), a.len() as nat, b.len() as nat),
        is_matrix(grid(*b), b.len() as nat, cols),
    ensures
        grid(out) == mat_mul(grid(*a), grid(*b)),
{
    proof {
        lemma_row_lengths(*a, a.len() as nat, b.len() as nat);
        lemma_row_lengths(*b, b.len() as nat, cols);
    }
    let wide = b[0].len();
    let mut out: Vec<Vec<u8>> = Vec::new();
    let mut r: usize = 0;
    while r < a.len()
        invariant
            r <= a.len(),
            b.len() > 0,
            wide == cols,
            wide == width(grid(*b)),
            forall|i: int| 0 <= i < a.len() ==> (#[trigger] a[i]).len() == b.len(),
            forall|i: int| 0 <= i < b.len() ==> (#[trigger] b[i]).len() == cols,
            out.len() == r,
            forall|i: int| 0 <= i < r ==> (#[trigger] out[i])@ == row_mat(a[i]@, grid(*b)),
        decreases a.len() - r,
    {
        let mut row: Vec<u8> = Vec::new();
        let mut c: usize = 0;
        while c < wide
            invariant
                c <= wide,
                r < a.len(),
                wide == cols,
                a[r as int].len() == b.len(),
                forall|i: int| 0 <= i < b.len() ==> (#[trigger] b[i]).len() == cols,
                row.len() == c,
                forall|j: int|
                    0 <= j < c ==> row[j] == dot_upto(
                        a[r as int]@,
                        column(grid(*b), j),
                        a[r as int].len() as nat,
                    ),
            decreases wide - c,
        {
            row.push(dot_column(field, &a[r], b, c));
            c += 1;
        }
        assert(row@ =~= row_mat(a[r as int]@, grid(*b)));
        out.push(row);
        r += 1;
    }
    assert(grid(out) =~= mat_mul(grid(*a), grid(*b)));
    out
}

fn first_rows_of(a: &Vec<Vec<u8>>, n: usize) -> (out: Vec<Vec<u8>>)
    requires
        n <= a.len(),
    ensures
        out.len() == n,
        forall|k: int| 0 <= k < n ==> (#[trigger] grid(out)[k]) == grid(*a)[k],
{
    let mut out: Vec<Vec<u8>> = Vec::new();
    let mut i: usize = 0;
    while i < n
        invariant
            i <= n,
            n <= a.len(),
            out.len() == i,
            forall|k: int| 0 <= k < i ==> (#[trigger] out[k])@ == a[k]@,
        decreases n - i,
    {
        out.push(copy_row(&a[i]));
        i += 1;
    }
    out
}

/// The coding matrix for the given shard counts, computed with the tables of `field`.
pub(crate) fn build_with(field: &Gf256, data_count: usize, parity_count: usize) -> (m: Matrix)
    requires
        valid_counts(data_count as nat, parity_count as nat),
    ensures
        m@ == coding_matrix(data_count as nat, parity_count as nat),
        m.height() == data_count + parity_count,
        m.width() == data_count,
{
    let total = data_count + parity_count;
    let v = vandermonde_rows(field, total, data_count);
    let top = first_rows_of(&v, data_count);
    proof {
        assert(grid(top) =~~= vandermonde(data_count as nat, data_count as nat));
        lemma_vandermonde_invertible(data_count as nat);
    }
    let t = invert(field, &top).unwrap();
    proof {
        assert(grid(t).len() == t.len());
        assert(grid(v).len() == v.len());
        lemma_inverse_unique(
            grid(t),
            inverse_of(grid(top), data_count as nat),
            grid(top),
            data_count as nat,
        );
    }
    let data = multiply(field, &v, &t, Ghost(data_count as nat));
    Matrix { rows: total, cols: data_count, data }
}

/// The coding matrix for `data_count` data shards and `parity_count`
/// parity shards. Fails exactly when a count is zero or the counts
/// together exceed 256.
pub fn build_matrix(data_count: usize, parity_count: usize) -> (r: Result<Matrix, Error>)
    ensures
        match r {
            Ok(m) => valid_counts(data_count as nat, parity_count as nat) && m@ == coding_matrix(
                data_count as nat,
                parity_count as nat,
            ) && m.height() == data_count + parity_count && m.width() == data_count,
            Err(e) => e == Error::InvalidShardCount && !valid_counts(
                data_count as nat,
                parity_count as nat,
            ),
        },
{
    if data_count == 0 || parity_count == 0 || data_count > 256 || parity_count > 256 - data_count {
        return Err(Error::InvalidShardCount);
    }
    let field = Gf256::new();
    Ok(build_with(&field, data_count, parity_count))
}

/// The inverse of the rows of `matrix` that `selected_rows` names,
/// computed with the tables of `field`.
pub(crate) fn invert_with(field: &Gf256, matrix: &Matrix, selected_rows: &Vec<usize>) -> (r: Result<
    Matrix,
    Error,
>)
    ensures
        match r {
            Ok(inv) => selection_fits(matrix@, matrix.width(), indices(selected_rows@))
                && is_inverse(
                inv@,
                select_rows(matrix@, indices(selected_rows@)),
                matrix.width(),
            ) && inv.height() == matrix.width() && inv.width() == matrix.width(),
            Err(e) => e == Error::MatrixNotInvertible && !(selection_fits(
                matrix@,
                matrix.width(),
                indices(selected_rows@),
            ) && invertible(select_rows(matrix@, indices(selected_rows@)), matrix.width())),
        },
{
    proof {
        use_type_invariant(matrix);
        lemma_row_lengths(matrix.data, matrix.rows as nat, matrix.cols as nat);
    }
    let n = matrix.cols;
    let ghost sel = indices(selected_rows@);
    if selected_rows.len() != n {
        return Err(Error::MatrixNotInvertible);
    }
    let mut sub: Vec<Vec<u8>> = Vec::new();
    let mut k: usize = 0;
    while k < n
        invariant
            k <= n,
            n == selected_rows.len(),
            n == matrix.cols,
            sel == indices(selected_rows@),
            matrix.data.len() == matrix.rows,
            forall|i: int| 0 <= i < matrix.rows ==> (#[trigger] matrix.data[i]).len() == n,
            sub.len() == k,
            forall|j: int| 0 <= j < k ==> 0 <= #[trigger] sel[j] < matrix.rows,
            forall|j: int| 0 <= j < k ==> (#[trigger] sub[j])@ == matrix.data[sel[j]]@,
        decreases n - k,
    {
        let r = selected_rows[k];
        if r >= matrix.rows {
            assert(!(0 <= sel[k as int] < matrix@.len()));
            return Err(Error::MatrixNotInvertible);
        }
        assert(sel[k as int] == r);
        sub.push(copy_row(&matrix.data[r]));
        k += 1;
    }
    proof {
        assert(grid(sub) =~~= select_rows(matrix@, sel));
    }
    match invert(field, &sub) {
        Ok(b) => Ok(Matrix { rows: n, cols: n, data: b }),
        Err(e) => Err(e),
    }
}

/// The inverse of the square matrix formed by the rows of `matrix`
/// that `selected_rows` names, by Gauss-Jordan elimination. Succeeds
/// exactly when as many rows are named as the matrix has columns, each
/// of them is a row of the matrix, and they are linearly independent:
/// fewer independent rows than columns have no inverse.
pub fn invert_submatrix(matrix: &Matrix, selected_rows: &Vec<usize>) -> (r: Result<Matrix, Error>)
    ensures
        match r {
            Ok(inv) => selection_fits(matrix@, matrix.width(), indices(selected_rows@))
                && is_inverse(
                inv@,
                select_rows(matrix@, indices(selected_rows@)),
                matrix.width(),
            ) && inv.height() == matrix.width() && inv.width() == matrix.width(),
            Err(e) => e == Error::MatrixNotInvertible && !(selection_fits(
                matrix@,
                matrix.width(),
                indices(selected_rows@),
            ) && invertible(select_rows(matrix@, indices(selected_rows@)), matrix.width())),
        },
{
    let field = Gf256::new();
    invert_with(&field, matrix, selected_rows)
}

} // verus!
