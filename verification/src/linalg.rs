//! Vectors and matrices over GF(2^8) as mathematical sequences: the
//! vocabulary in which the contracts of this library are written.

use crate::galois::{gf_add, gf_mul};
use vstd::prelude::*;

verus! {

/// The sum of the products `u[k] * v[k]` over the first `n` positions.
pub open spec fn dot_upto(u: Seq<u8>, v: Seq<u8>, n: nat) -> u8
    decreases n,
{
    if n == 0 {
        0
    } else {
        gf_add(dot_upto(u, v, (n - 1) as nat), gf_mul(u[n - 1], v[n - 1]))
    }
}

/// The inner product of two vectors of equal length.
pub open spec fn dot(u: Seq<u8>, v: Seq<u8>) -> u8 {
    dot_upto(u, v, u.len())
}

/// The sum of two vectors, position by position.
pub open spec fn vec_add(u: Seq<u8>, w: Seq<u8>) -> Seq<u8> {
    Seq::new(u.len(), |k: int| gf_add(u[k], w[k]))
}

/// The vector `u` with every entry multiplied by `s`.
pub open spec fn vec_scale(s: u8, u: Seq<u8>) -> Seq<u8> {
    Seq::new(u.len(), |k: int| gf_mul(s, u[k]))
}

/// The zero vector of length `n`.
pub open spec fn zeros(n: nat) -> Seq<u8> {
    Seq::new(n, |k: int| 0u8)
}

/// The `j`-th unit vector of length `n`.
pub open spec fn unit(n: nat, j: int) -> Seq<u8> {
    Seq::new(n, |k: int| if k == j { 1u8 } else { 0u8 })
}

/// Whether `a` has `rows` rows of `cols` entries each.
pub open spec fn is_matrix(a: Seq<Seq<u8>>, rows: nat, cols: nat) -> bool {
    &&& a.len() == rows
    &&& forall|i: int| 0 <= i < rows ==> (#[trigger] a[i]).len() == cols
}

/// The number of columns of a matrix that has at least one row.
pub open spec fn width(a: Seq<Seq<u8>>) -> nat {
    if a.len() == 0 {
        0
    } else {
        a[0].len()
    }
}

/// The identity matrix of size `n`.
pub open spec fn identity(n: nat) -> Seq<Seq<u8>> {
    Seq::new(n, |i: int| unit(n, i))
}

/// Column `j` of a matrix.
pub open spec fn column(a: Seq<Seq<u8>>, j: int) -> Seq<u8> {
    Seq::new(a.len(), |i: int| a[i][j])
}

/// The product of a matrix and a column vector.
pub open spec fn mat_vec(a: Seq<Seq<u8>>, x: Seq<u8>) -> Seq<u8> {
    Seq::new(a.len(), |i: int| dot(a[i], x))
}

/// The product of a row vector and a matrix.
pub open spec fn row_mat(r: Seq<u8>, b: Seq<Seq<u8>>) -> Seq<u8> {
    Seq::new(width(b), |j: int| dot(r, column(b, j)))
}

/// The product of two matrices.
pub open spec fn mat_mul(a: Seq<Seq<u8>>, b: Seq<Seq<u8>>) -> Seq<Seq<u8>> {
    Seq::new(a.len(), |i: int| row_mat(a[i], b))
}

/// The rows of `a` named by `rows`, in that order.
pub open spec fn select_rows(a: Seq<Seq<u8>>, rows: Seq<int>) -> Seq<Seq<u8>> {
    Seq::new(rows.len(), |k: int| a[rows[k]])
}

/// Whether `b` is the inverse of the square matrix `a` of size `n`, on both sides.
pub open spec fn is_inverse(b: Seq<Seq<u8>>, a: Seq<Seq<u8>>, n: nat) -> bool {
    &&& is_matrix(a, n, n)
    &&& is_matrix(b, n, n)
    &&& mat_mul(b, a) == identity(n)
    &&& mat_mul(a, b) == identity(n)
}

/// Whether the square matrix `a` of size `n` has an inverse.
pub open spec fn invertible(a: Seq<Seq<u8>>, n: nat) -> bool {
    exists|b: Seq<Seq<u8>>| is_inverse(b, a, n)
}

/// The inverse of the square matrix `a` of size `n`. A matrix has at
/// most one inverse.
pub open spec fn inverse_of(a: Seq<Seq<u8>>, n: nat) -> Seq<Seq<u8>> {
    choose|b: Seq<Seq<u8>>| is_inverse(b, a, n)
}

/// Whether `x` is a vector of length `n` that `a` maps to zero.
pub open spec fn in_kernel(a: Seq<Seq<u8>>, x: Seq<u8>, n: nat) -> bool {
    &&& x.len() == n
    &&& forall|i: int| 0 <= i < a.len() ==> dot(#[trigger] a[i], x) == 0
}

/// Whether zero is the only vector of length `n` that `a` maps to zero.
pub open spec fn kernel_trivial(a: Seq<Seq<u8>>, n: nat) -> bool {
    forall|x: Seq<u8>| #[trigger] in_kernel(a, x, n) ==> x == zeros(n)
}

/// The rows of a vector of byte vectors, as a matrix.
pub open spec fn grid(v: Vec<Vec<u8>>) -> Seq<Seq<u8>> {
    Seq::new(v.len() as nat, |i: int| v[i]@)
}

/// The byte vectors that a vector of references points to, as a matrix.
pub open spec fn ref_grid(v: Vec<&Vec<u8>>) -> Seq<Seq<u8>> {
    Seq::new(v.len() as nat, |i: int| v[i]@)
}

} // verus!
