//! The coding matrix of a Reed-Solomon code, and its defining
//! property: any `data` of its rows form an invertible matrix.

use crate::elimination_proofs::lemma_kernel_trivial_invertible;
use crate::linalg::{
    column, dot, identity, in_kernel, inverse_of, invertible, is_inverse, is_matrix,
    mat_mul, mat_vec, row_mat, select_rows, unit, zeros,
};
use crate::linalg_proofs::{
    lemma_apply_unit, lemma_apply_zero, lemma_inverse_applies, lemma_row_mat_dot,
};
use crate::vandermonde::{distinct_rows, lemma_vandermonde_kernel, vandermonde};
use vstd::prelude::*;

verus! {

/// The shard counts that a code can have: at least one data shard, at
/// least one parity shard, and no more shards than the field has elements.
pub open spec fn valid_counts(data: nat, parity: nat) -> bool {
    data > 0 && parity > 0 && data + parity <= 256
}

/// The coding matrix for `data` data shards and `parity` parity
/// shards: the Vandermonde matrix with `data + parity` rows, multiplied
/// by the inverse of its top square, so that the top square of the
/// product is the identity.
pub open spec fn coding_matrix(data: nat, parity: nat) -> Seq<Seq<u8>> {
    mat_mul(vandermonde(data + parity, data), inverse_of(vandermonde(data, data), data))
}

/// A matrix has at most one inverse.
pub proof fn lemma_inverse_unique(b1: Seq<Seq<u8>>, b2: Seq<Seq<u8>>, a: Seq<Seq<u8>>, n: nat)
    requires
        is_inverse(b1, a, n),
        is_inverse(b2, a, n),
    ensures
        b1 == b2,
{
    assert forall|i: int, j: int| 0 <= i < n && 0 <= j < n implies b1[i][j] == b2[i][j] by {
        let x = unit(n, j);
        let y = mat_vec(b2, x);
        lemma_inverse_applies(b2, a, n, x);
        lemma_inverse_applies(b1, a, n, y);
        assert(mat_vec(b1, x) == mat_vec(b2, x));
        lemma_apply_unit(b1, n, n, j);
        lemma_apply_unit(b2, n, n, j);
        assert(column(b1, j)[i] == column(b2, j)[i]);
    }
    assert(b1 =~~= b2);
}

/// The rows `0, 1, ..., n - 1`.
pub open spec fn first_rows(n: nat) -> Seq<int> {
    Seq::new(n, |k: int| k)
}

/// A square Vandermonde matrix over distinct field elements has an inverse.
pub proof fn lemma_vandermonde_invertible(n: nat)
    requires
        n <= 256,
    ensures
        invertible(vandermonde(n, n), n),
        is_inverse(inverse_of(vandermonde(n, n), n), vandermonde(n, n), n),
{
    let v = vandermonde(n, n);
    lemma_vandermonde_kernel(n, n, first_rows(n));
    assert(select_rows(v, first_rows(n)) =~~= v);
    lemma_kernel_trivial_invertible(v, n);
}

/// The coding matrix has a row for each shard and a column for each data shard.
pub proof fn lemma_coding_matrix_shape(data: nat, parity: nat)
    requires
        valid_counts(data, parity),
    ensures
        is_matrix(coding_matrix(data, parity), data + parity, data),
{
    lemma_vandermonde_invertible(data);
}

/// The top square of the coding matrix is the identity matrix: a data
/// shard is its own code word.
pub proof fn lemma_coding_matrix_top(data: nat, parity: nat, i: int)
    requires
        valid_counts(data, parity),
        0 <= i < data,
    ensures
        coding_matrix(data, parity)[i] == unit(data, i),
{
    lemma_vandermonde_invertible(data);
    let top = vandermonde(data, data);
    let t = inverse_of(top, data);
    let v = vandermonde(data + parity, data);
    assert(v[i] == top[i]);
    assert(mat_mul(top, t)[i] == row_mat(top[i], t));
    assert(identity(data)[i] == unit(data, i));
}

/// Any `data` different rows of the coding matrix form an invertible matrix.
pub proof fn lemma_any_rows_invertible(data: nat, parity: nat, rows: Seq<int>)
    requires
        valid_counts(data, parity),
        distinct_rows(rows, data, data + parity),
    ensures
        invertible(select_rows(coding_matrix(data, parity), rows), data),
{
    lemma_vandermonde_invertible(data);
    lemma_coding_matrix_shape(data, parity);
    let top = vandermonde(data, data);
    let t = inverse_of(top, data);
    let v = vandermonde(data + parity, data);
    let m = coding_matrix(data, parity);
    let sub = select_rows(m, rows);
    lemma_vandermonde_kernel(data + parity, data, rows);
    assert forall|x: Seq<u8>| #[trigger] in_kernel(sub, x, data) implies x == zeros(data) by {
        let y = mat_vec(t, x);
        assert forall|k: int| 0 <= k < data implies dot(#[trigger] select_rows(v, rows)[k], y)
            == 0 by {
            assert(dot(sub[k], x) == 0);
            assert(sub[k] == row_mat(v[rows[k]], t));
            lemma_row_mat_dot(v[rows[k]], t, data, data, x);
        }
        assert(in_kernel(select_rows(v, rows), y, data));
        assert(y == zeros(data));
        lemma_inverse_applies(t, top, data, x);
        lemma_apply_zero(top, data, data);
    }
    assert(is_matrix(sub, data, data));
    lemma_kernel_trivial_invertible(sub, data);
}

} // verus!
