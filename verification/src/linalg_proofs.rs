//! Linearity of the inner product and what follows from it for
//! products of matrices.

use crate::galois::{gf_add, gf_mul};
use crate::galois_proofs::{
    lemma_add_laws, lemma_mul_add, lemma_mul_associates, lemma_mul_commutes, lemma_mul_identity,
};
use crate::linalg::{
    column, dot, dot_upto, identity, in_kernel, is_inverse, is_matrix, kernel_trivial, mat_mul,
    mat_vec, row_mat, unit, vec_add, vec_scale, width, zeros,
};
use vstd::prelude::*;

verus! {

/// `(a + b) + (c + d) == (a + c) + (b + d)`.
pub proof fn lemma_add_interchange(a: u8, b: u8, c: u8, d: u8)
    ensures
        gf_add(gf_add(a, b), gf_add(c, d)) == gf_add(gf_add(a, c), gf_add(b, d)),
{
    lemma_add_laws(a, b, gf_add(c, d));
    lemma_add_laws(b, c, d);
    lemma_add_laws(c, b, d);
    lemma_add_laws(a, c, gf_add(b, d));
}

/// An inner product depends only on the entries it reads.
pub proof fn lemma_dot_ext(u: Seq<u8>, v: Seq<u8>, u2: Seq<u8>, v2: Seq<u8>, n: nat)
    requires
        forall|k: int| 0 <= k < n ==> u[k] == u2[k] && v[k] == v2[k],
    ensures
        dot_upto(u, v, n) == dot_upto(u2, v2, n),
    decreases n,
{
    if n > 0 {
        lemma_dot_ext(u, v, u2, v2, (n - 1) as nat);
    }
}

/// The inner product is symmetric.
pub proof fn lemma_dot_commutes(u: Seq<u8>, v: Seq<u8>, n: nat)
    ensures
        dot_upto(u, v, n) == dot_upto(v, u, n),
    decreases n,
{
    if n > 0 {
        lemma_dot_commutes(u, v, (n - 1) as nat);
        lemma_mul_commutes(u[n - 1], v[n - 1]);
    }
}

/// The inner product is additive in its first argument.
pub proof fn lemma_dot_add(u: Seq<u8>, w: Seq<u8>, v: Seq<u8>, n: nat)
    requires
        n <= u.len(),
    ensures
        dot_upto(vec_add(u, w), v, n) == gf_add(dot_upto(u, v, n), dot_upto(w, v, n)),
    decreases n,
{
    if n == 0 {
        lemma_add_laws(0, 0, 0);
    } else {
        let m = (n - 1) as nat;
        lemma_dot_add(u, w, v, m);
        lemma_mul_add(v[n - 1], u[n - 1], w[n - 1]);
        lemma_add_interchange(
            dot_upto(u, v, m),
            dot_upto(w, v, m),
            gf_mul(u[n - 1], v[n - 1]),
            gf_mul(w[n - 1], v[n - 1]),
        );
    }
}

/// The inner product is homogeneous in its first argument.
pub proof fn lemma_dot_scale(s: u8, u: Seq<u8>, v: Seq<u8>, n: nat)
    requires
        n <= u.len(),
    ensures
        dot_upto(vec_scale(s, u), v, n) == gf_mul(s, dot_upto(u, v, n)),
    decreases n,
{
    if n == 0 {
        lemma_mul_identity(s);
    } else {
        let m = (n - 1) as nat;
        lemma_dot_scale(s, u, v, m);
        lemma_mul_associates(s, u[n - 1], v[n - 1]);
        lemma_mul_add(s, dot_upto(u, v, m), gf_mul(u[n - 1], v[n - 1]));
    }
}

/// The inner product is additive in its second argument.
pub proof fn lemma_dot_add_right(v: Seq<u8>, u: Seq<u8>, w: Seq<u8>, n: nat)
    requires
        n <= u.len(),
    ensures
        dot_upto(v, vec_add(u, w), n) == gf_add(dot_upto(v, u, n), dot_upto(v, w, n)),
{
    lemma_dot_commutes(v, vec_add(u, w), n);
    lemma_dot_add(u, w, v, n);
    lemma_dot_commutes(v, u, n);
    lemma_dot_commutes(v, w, n);
}

/// The inner product is homogeneous in its second argument.
pub proof fn lemma_dot_scale_right(v: Seq<u8>, s: u8, u: Seq<u8>, n: nat)
    requires
        n <= u.len(),
    ensures
        dot_upto(v, vec_scale(s, u), n) == gf_mul(s, dot_upto(v, u, n)),
{
    lemma_dot_commutes(v, vec_scale(s, u), n);
    lemma_dot_scale(s, u, v, n);
    lemma_dot_commutes(v, u, n);
}

/// Positions at which one argument is zero add nothing to an inner product.
pub proof fn lemma_dot_zero_tail(u: Seq<u8>, v: Seq<u8>, m: nat, n: nat)
    requires
        m <= n,
        forall|k: int| m <= k < n ==> u[k] == 0 || v[k] == 0,
    ensures
        dot_upto(u, v, n) == dot_upto(u, v, m),
    decreases n,
{
    if n > m {
        lemma_dot_zero_tail(u, v, m, (n - 1) as nat);
        lemma_mul_identity(u[n - 1]);
        lemma_mul_identity(v[n - 1]);
        lemma_add_laws(dot_upto(u, v, m), 0, 0);
    }
}

/// The inner product with a vector that is zero except for a one at
/// position `j` reads off entry `j`.
pub proof fn lemma_dot_indicator(e: Seq<u8>, v: Seq<u8>, j: int, n: nat)
    requires
        forall|k: int| 0 <= k < n ==> e[k] == (if k == j { 1u8 } else { 0u8 }),
    ensures
        dot_upto(e, v, n) == (if 0 <= j < n { v[j] } else { 0u8 }),
        dot_upto(v, e, n) == (if 0 <= j < n { v[j] } else { 0u8 }),
    decreases n,
{
    lemma_dot_commutes(v, e, n);
    if n > 0 {
        lemma_dot_indicator(e, v, j, (n - 1) as nat);
        lemma_mul_identity(v[n - 1]);
        lemma_add_laws(v[n - 1], 0, 0);
        lemma_add_laws(0, 0, 0);
        if 0 <= j < n - 1 {
            lemma_add_laws(v[j], 0, 0);
        }
    }
}

/// The inner product with a unit vector reads off one entry.
pub proof fn lemma_dot_unit(v: Seq<u8>, n: nat, j: int)
    requires
        0 <= j < n,
        v.len() == n,
    ensures
        dot(unit(n, j), v) == v[j],
        dot(v, unit(n, j)) == v[j],
{
    lemma_dot_indicator(unit(n, j), v, j, n);
}

/// The identity matrix maps every vector to itself.
pub proof fn lemma_identity_applies(x: Seq<u8>, n: nat)
    requires
        x.len() == n,
    ensures
        mat_vec(identity(n), x) == x,
{
    assert forall|i: int| 0 <= i < n implies mat_vec(identity(n), x)[i] == x[i] by {
        lemma_dot_unit(x, n, i);
    }
    assert(mat_vec(identity(n), x) =~= x);
}

/// Applying a matrix to a unit vector reads off a column.
pub proof fn lemma_apply_unit(a: Seq<Seq<u8>>, rows: nat, n: nat, j: int)
    requires
        is_matrix(a, rows, n),
        0 <= j < n,
    ensures
        mat_vec(a, unit(n, j)) == column(a, j),
{
    assert forall|i: int| 0 <= i < rows implies mat_vec(a, unit(n, j))[i] == column(a, j)[i] by {
        lemma_dot_unit(a[i], n, j);
    }
    assert(mat_vec(a, unit(n, j)) =~= column(a, j));
}

/// A matrix maps the sum of two vectors to the sum of their images.
pub proof fn lemma_apply_add(a: Seq<Seq<u8>>, rows: nat, n: nat, u: Seq<u8>, w: Seq<u8>)
    requires
        is_matrix(a, rows, n),
        u.len() == n,
        w.len() == n,
    ensures
        mat_vec(a, vec_add(u, w)) == vec_add(mat_vec(a, u), mat_vec(a, w)),
{
    assert forall|i: int| 0 <= i < rows implies mat_vec(a, vec_add(u, w))[i] == vec_add(
        mat_vec(a, u),
        mat_vec(a, w),
    )[i] by {
        lemma_dot_add_right(a[i], u, w, n);
    }
    assert(mat_vec(a, vec_add(u, w)) =~= vec_add(mat_vec(a, u), mat_vec(a, w)));
}

/// A matrix maps the zero vector to the zero vector.
pub proof fn lemma_apply_zero(a: Seq<Seq<u8>>, rows: nat, n: nat)
    requires
        is_matrix(a, rows, n),
    ensures
        mat_vec(a, zeros(n)) == zeros(rows),
{
    assert forall|i: int| 0 <= i < rows implies mat_vec(a, zeros(n))[i] == 0 by {
        lemma_dot_zero_tail(a[i], zeros(n), 0, n);
    }
    assert(mat_vec(a, zeros(n)) =~= zeros(rows));
}

/// The combination of the first `m` rows of `a` with the weights `b`.
pub open spec fn combine(b: Seq<u8>, a: Seq<Seq<u8>>, cols: nat, m: nat) -> Seq<u8>
    decreases m,
{
    if m == 0 {
        zeros(cols)
    } else {
        vec_add(combine(b, a, cols, (m - 1) as nat), vec_scale(b[m - 1], a[m - 1]))
    }
}

proof fn lemma_combine_entries(b: Seq<u8>, a: Seq<Seq<u8>>, rows: nat, cols: nat, m: nat)
    requires
        is_matrix(a, rows, cols),
        m <= rows,
    ensures
        combine(b, a, cols, m).len() == cols,
        forall|j: int|
            0 <= j < cols ==> #[trigger] combine(b, a, cols, m)[j] == dot_upto(b, column(a, j), m),
    decreases m,
{
    if m > 0 {
        lemma_combine_entries(b, a, rows, cols, (m - 1) as nat);
    }
}

proof fn lemma_combine_dot(
    b: Seq<u8>,
    a: Seq<Seq<u8>>,
    rows: nat,
    cols: nat,
    x: Seq<u8>,
    m: nat,
)
    requires
        is_matrix(a, rows, cols),
        m <= rows,
        x.len() == cols,
    ensures
        dot_upto(combine(b, a, cols, m), x, cols) == dot_upto(b, mat_vec(a, x), m),
    decreases m,
{
    if m == 0 {
        lemma_dot_zero_tail(zeros(cols), x, 0, cols);
    } else {
        let p = (m - 1) as nat;
        lemma_combine_dot(b, a, rows, cols, x, p);
        lemma_combine_entries(b, a, rows, cols, p);
        lemma_dot_add(combine(b, a, cols, p), vec_scale(b[m - 1], a[m - 1]), x, cols);
        lemma_dot_scale(b[m - 1], a[m - 1], x, cols);
    }
}

/// A row times a matrix, applied to a vector, is the row applied to
/// the image of the vector: `(r B) x == r (B x)`.
pub proof fn lemma_row_mat_dot(r: Seq<u8>, b: Seq<Seq<u8>>, rows: nat, cols: nat, x: Seq<u8>)
    requires
        is_matrix(b, rows, cols),
        rows > 0,
        r.len() == rows,
        x.len() == cols,
    ensures
        dot(row_mat(r, b), x) == dot(r, mat_vec(b, x)),
{
    lemma_combine_dot(r, b, rows, cols, x, rows);
    lemma_combine_entries(r, b, rows, cols, rows);
    assert(width(b) == cols);
    assert(combine(r, b, cols, rows) =~= row_mat(r, b));
}

/// A product of matrices acts as the composition of its factors:
/// `(A B) x == A (B x)`.
pub proof fn lemma_mat_mul_applies(
    a: Seq<Seq<u8>>,
    b: Seq<Seq<u8>>,
    rows: nat,
    mid: nat,
    cols: nat,
    x: Seq<u8>,
)
    requires
        is_matrix(a, rows, mid),
        is_matrix(b, mid, cols),
        mid > 0,
        x.len() == cols,
    ensures
        mat_vec(mat_mul(a, b), x) == mat_vec(a, mat_vec(b, x)),
{
    assert forall|i: int| 0 <= i < rows implies mat_vec(mat_mul(a, b), x)[i] == mat_vec(
        a,
        mat_vec(b, x),
    )[i] by {
        lemma_row_mat_dot(a[i], b, mid, cols, x);
    }
    assert(mat_vec(mat_mul(a, b), x) =~= mat_vec(a, mat_vec(b, x)));
}

/// An inverse undoes the matrix, and the matrix undoes its inverse, on every vector.
pub proof fn lemma_inverse_applies(b: Seq<Seq<u8>>, a: Seq<Seq<u8>>, n: nat, x: Seq<u8>)
    requires
        is_inverse(b, a, n),
        x.len() == n,
    ensures
        mat_vec(b, mat_vec(a, x)) == x,
        mat_vec(a, mat_vec(b, x)) == x,
{
    if n > 0 {
        lemma_mat_mul_applies(b, a, n, n, n, x);
        lemma_mat_mul_applies(a, b, n, n, n, x);
        lemma_identity_applies(x, n);
    } else {
        assert(mat_vec(b, mat_vec(a, x)) =~= x);
        assert(mat_vec(a, mat_vec(b, x)) =~= x);
    }
}

/// An invertible matrix maps no vector but zero to zero.
pub proof fn lemma_inverse_kernel(b: Seq<Seq<u8>>, a: Seq<Seq<u8>>, n: nat)
    requires
        is_inverse(b, a, n),
    ensures
        kernel_trivial(a, n),
{
    assert forall|x: Seq<u8>| #[trigger] in_kernel(a, x, n) implies x == zeros(n) by {
        assert(mat_vec(a, x) =~= zeros(n));
        lemma_inverse_applies(b, a, n, x);
        lemma_apply_zero(b, n, n);
    }
}

} // verus!
