//! Why Gauss-Jordan elimination is right: what each row operation
//! preserves, and that a square matrix has an inverse exactly when it
//! maps no vector but zero to zero.

use crate::galois::{gf_add, gf_div, gf_mul};
use crate::galois_proofs::{
    lemma_add_laws, lemma_div, lemma_mul_identity, lemma_no_zero_divisors,
};
use crate::linalg::{
    column, dot, dot_upto, identity, in_kernel, invertible, is_inverse, is_matrix, kernel_trivial,
    mat_mul, mat_vec, unit, vec_add, vec_scale, zeros,
};
use crate::linalg_proofs::{
    lemma_apply_add, lemma_apply_unit, lemma_dot_add, lemma_dot_indicator, lemma_dot_scale,
    lemma_dot_unit, lemma_dot_zero_tail, lemma_inverse_kernel,
};
use vstd::prelude::*;

verus! {

/// Whether row `w` is what the weights `e` make of the rows of `a`:
/// `w x == e (a x)` for every vector `x` of length `n`.
pub open spec fn row_tracks(w: Seq<u8>, e: Seq<u8>, a: Seq<Seq<u8>>, n: nat) -> bool {
    forall|x: Seq<u8>| x.len() == n ==> #[trigger] dot(w, x) == dot(e, mat_vec(a, x))
}

/// The state of an elimination on the square matrix `a`: the work
/// matrix `w` equals `e a`, and `e` maps no vector but zero to zero.
pub open spec fn tracks(w: Seq<Seq<u8>>, e: Seq<Seq<u8>>, a: Seq<Seq<u8>>, n: nat) -> bool {
    &&& is_matrix(a, n, n)
    &&& is_matrix(w, n, n)
    &&& is_matrix(e, n, n)
    &&& forall|i: int| 0 <= i < n ==> row_tracks(#[trigger] w[i], e[i], a, n)
    &&& kernel_trivial(e, n)
}

/// Whether the first `r` columns of `w` are those of the identity matrix.
pub open spec fn reduced(w: Seq<Seq<u8>>, n: nat, r: nat) -> bool {
    forall|i: int, c: int|
        0 <= i < n && 0 <= c < r ==> (#[trigger] w[i][c]) == (if i == c { 1u8 } else { 0u8 })
}

proof fn lemma_scale_tracks(w: Seq<u8>, e: Seq<u8>, a: Seq<Seq<u8>>, n: nat, s: u8)
    requires
        is_matrix(a, n, n),
        w.len() == n,
        e.len() == n,
        row_tracks(w, e, a, n),
    ensures
        row_tracks(vec_scale(s, w), vec_scale(s, e), a, n),
{
    let w2 = vec_scale(s, w);
    let e2 = vec_scale(s, e);
    assert forall|x: Seq<u8>| x.len() == n implies #[trigger] dot(w2, x) == dot(
        e2,
        mat_vec(a, x),
    ) by {
        assert(dot(w, x) == dot(e, mat_vec(a, x)));
        lemma_dot_scale(s, w, x, n);
        lemma_dot_scale(s, e, mat_vec(a, x), n);
    }
}

proof fn lemma_add_tracks(
    w: Seq<u8>,
    e: Seq<u8>,
    w2: Seq<u8>,
    e2: Seq<u8>,
    a: Seq<Seq<u8>>,
    n: nat,
)
    requires
        is_matrix(a, n, n),
        w.len() == n,
        e.len() == n,
        w2.len() == n,
        e2.len() == n,
        row_tracks(w, e, a, n),
        row_tracks(w2, e2, a, n),
    ensures
        row_tracks(vec_add(w, w2), vec_add(e, e2), a, n),
{
    let w3 = vec_add(w, w2);
    let e3 = vec_add(e, e2);
    assert forall|x: Seq<u8>| x.len() == n implies #[trigger] dot(w3, x) == dot(
        e3,
        mat_vec(a, x),
    ) by {
        assert(dot(w, x) == dot(e, mat_vec(a, x)));
        assert(dot(w2, x) == dot(e2, mat_vec(a, x)));
        lemma_dot_add(w, w2, x, n);
        lemma_dot_add(e, e2, mat_vec(a, x), n);
    }
}

proof fn lemma_kernel_swap(e: Seq<Seq<u8>>, n: nat, i: int, j: int)
    requires
        is_matrix(e, n, n),
        kernel_trivial(e, n),
        0 <= i < n,
        0 <= j < n,
    ensures
        kernel_trivial(e.update(i, e[j]).update(j, e[i]), n),
{
    let e2 = e.update(i, e[j]).update(j, e[i]);
    assert forall|y: Seq<u8>| #[trigger] in_kernel(e2, y, n) implies y == zeros(n) by {
        assert forall|k: int| 0 <= k < n implies dot(#[trigger] e[k], y) == 0 by {
            if k == i {
                assert(dot(e2[j], y) == 0);
            } else if k == j {
                assert(dot(e2[i], y) == 0);
            } else {
                assert(dot(e2[k], y) == 0);
            }
        }
        assert(in_kernel(e, y, n));
    }
}

proof fn lemma_kernel_scale(e: Seq<Seq<u8>>, n: nat, r: int, s: u8)
    requires
        is_matrix(e, n, n),
        kernel_trivial(e, n),
        0 <= r < n,
        s != 0,
    ensures
        kernel_trivial(e.update(r, vec_scale(s, e[r])), n),
{
    let e2 = e.update(r, vec_scale(s, e[r]));
    assert forall|y: Seq<u8>| #[trigger] in_kernel(e2, y, n) implies y == zeros(n) by {
        assert forall|k: int| 0 <= k < n implies dot(#[trigger] e[k], y) == 0 by {
            assert(dot(e2[k], y) == 0);
            if k == r {
                lemma_dot_scale(s, e[r], y, n);
                lemma_no_zero_divisors(s, dot(e[r], y));
            }
        }
        assert(in_kernel(e, y, n));
    }
}

proof fn lemma_kernel_add(e: Seq<Seq<u8>>, n: nat, i: int, r: int, f: u8)
    requires
        is_matrix(e, n, n),
        kernel_trivial(e, n),
        0 <= i < n,
        0 <= r < n,
        i != r,
    ensures
        kernel_trivial(e.update(i, vec_add(e[i], vec_scale(f, e[r]))), n),
{
    let e2 = e.update(i, vec_add(e[i], vec_scale(f, e[r])));
    assert forall|y: Seq<u8>| #[trigger] in_kernel(e2, y, n) implies y == zeros(n) by {
        assert(dot(e2[r], y) == 0);
        assert forall|k: int| 0 <= k < n implies dot(#[trigger] e[k], y) == 0 by {
            assert(dot(e2[k], y) == 0);
            if k == i {
                lemma_dot_add(e[i], vec_scale(f, e[r]), y, n);
                lemma_dot_scale(f, e[r], y, n);
                lemma_mul_identity(f);
                lemma_add_laws(dot(e[i], y), 0, 0);
            }
        }
        assert(in_kernel(e, y, n));
    }
}

/// A matrix that undoes `a` on every vector is a left inverse of `a`.
proof fn lemma_left_inverse(b: Seq<Seq<u8>>, a: Seq<Seq<u8>>, n: nat)
    requires
        is_matrix(a, n, n),
        is_matrix(b, n, n),
        forall|x: Seq<u8>| x.len() == n ==> #[trigger] mat_vec(b, mat_vec(a, x)) == x,
    ensures
        mat_mul(b, a) == identity(n),
{
    assert forall|i: int, j: int| 0 <= i < n && 0 <= j < n implies mat_mul(b, a)[i][j] == identity(
        n,
    )[i][j] by {
        lemma_apply_unit(a, n, n, j);
        assert(mat_vec(b, mat_vec(a, unit(n, j))) == unit(n, j));
        assert(mat_vec(b, column(a, j))[i] == unit(n, j)[i]);
    }
    assert(mat_mul(b, a) =~~= identity(n));
}

/// At the end of an elimination the weights are the inverse.
pub proof fn lemma_tracks_identity(e: Seq<Seq<u8>>, a: Seq<Seq<u8>>, n: nat)
    requires
        tracks(identity(n), e, a, n),
    ensures
        is_inverse(e, a, n),
{
    assert forall|x: Seq<u8>| x.len() == n implies #[trigger] mat_vec(e, mat_vec(a, x)) == x by {
        assert forall|i: int| 0 <= i < n implies mat_vec(e, mat_vec(a, x))[i] == x[i] by {
            assert(row_tracks(identity(n)[i], e[i], a, n));
            assert(dot(identity(n)[i], x) == dot(e[i], mat_vec(a, x)));
            lemma_dot_unit(x, n, i);
        }
        assert(mat_vec(e, mat_vec(a, x)) =~= x);
    }
    lemma_left_inverse(e, a, n);
    assert forall|y: Seq<u8>| y.len() == n implies #[trigger] mat_vec(a, mat_vec(e, y)) == y by {
        let u = mat_vec(a, mat_vec(e, y));
        let z = vec_add(u, y);
        lemma_apply_add(e, n, n, u, y);
        assert(mat_vec(e, mat_vec(a, mat_vec(e, y))) == mat_vec(e, y));
        assert forall|i: int| 0 <= i < n implies dot(#[trigger] e[i], z) == 0 by {
            assert(mat_vec(e, z)[i] == gf_add(mat_vec(e, y)[i], mat_vec(e, y)[i]));
            lemma_add_laws(mat_vec(e, y)[i], 0, 0);
        }
        assert(in_kernel(e, z, n));
        assert(z == zeros(n));
        assert forall|k: int| 0 <= k < n implies u[k] == y[k] by {
            assert(z[k] == 0);
            lemma_add_laws(u[k], y[k], 0);
        }
        assert(u =~= y);
    }
    lemma_left_inverse(a, e, n);
}

/// A square matrix that maps a nonzero vector to zero has no inverse.
pub proof fn lemma_singular(a: Seq<Seq<u8>>, x: Seq<u8>, n: nat)
    requires
        in_kernel(a, x, n),
        x != zeros(n),
    ensures
        !invertible(a, n),
{
    if invertible(a, n) {
        let b = choose|b: Seq<Seq<u8>>| is_inverse(b, a, n);
        lemma_inverse_kernel(b, a, n);
    }
}

/// When column `r` of a reduced work matrix is zero from row `r` down,
/// the matrix under elimination maps a nonzero vector to zero, and so
/// has no inverse.
pub proof fn lemma_no_pivot(w: Seq<Seq<u8>>, e: Seq<Seq<u8>>, a: Seq<Seq<u8>>, n: nat, r: nat)
    requires
        tracks(w, e, a, n),
        reduced(w, n, r),
        r < n,
        forall|i: int| r <= i < n ==> (#[trigger] w[i])[r as int] == 0,
    ensures
        !kernel_trivial(a, n),
        !invertible(a, n),
{
    let x = Seq::new(
        n,
        |k: int|
            if k < r {
                w[k][r as int]
            } else if k == r {
                1u8
            } else {
                0u8
            },
    );
    assert forall|i: int| 0 <= i < n implies dot(#[trigger] w[i], x) == 0 by {
        lemma_dot_zero_tail(w[i], x, r + 1, n);
        lemma_dot_indicator(w[i], x, i, r);
        lemma_mul_identity(w[i][r as int]);
        lemma_add_laws(w[i][r as int], 0, 0);
        lemma_add_laws(0, 0, 0);
        assert(dot_upto(w[i], x, r + 1) == gf_add(
            dot_upto(w[i], x, r),
            gf_mul(w[i][r as int], x[r as int]),
        ));
    }
    let y = mat_vec(a, x);
    assert forall|i: int| 0 <= i < n implies dot(#[trigger] e[i], y) == 0 by {
        assert(row_tracks(w[i], e[i], a, n));
        assert(dot(w[i], x) == dot(e[i], mat_vec(a, x)));
    }
    assert(in_kernel(e, y, n));
    assert(y == zeros(n));
    assert forall|i: int| 0 <= i < n implies dot(#[trigger] a[i], x) == 0 by {
        assert(y[i] == 0);
    }
    assert(in_kernel(a, x, n));
    assert(x[r as int] == 1);
    assert(zeros(n)[r as int] == 0);
    lemma_singular(a, x, n);
}

pub proof fn lemma_tracks_start(a: Seq<Seq<u8>>, n: nat)
    requires
        is_matrix(a, n, n),
    ensures
        tracks(a, identity(n), a, n),
{
    let e = identity(n);
    assert forall|i: int| 0 <= i < n implies row_tracks(#[trigger] a[i], e[i], a, n) by {
        assert forall|x: Seq<u8>| x.len() == n implies #[trigger] dot(a[i], x) == dot(
            e[i],
            mat_vec(a, x),
        ) by {
            lemma_dot_unit(mat_vec(a, x), n, i);
        }
    }
    assert forall|y: Seq<u8>| #[trigger] in_kernel(e, y, n) implies y == zeros(n) by {
        assert forall|k: int| 0 <= k < n implies y[k] == 0 by {
            assert(dot(e[k], y) == 0);
            lemma_dot_unit(y, n, k);
        }
        assert(y =~= zeros(n));
    }
}

/// The matrix `w` with rows `i` and `j` exchanged.
pub open spec fn swapped(w: Seq<Seq<u8>>, i: int, j: int) -> Seq<Seq<u8>> {
    w.update(i, w[j]).update(j, w[i])
}

/// The matrix `w` with row `r` multiplied by `s`.
pub open spec fn scaled(w: Seq<Seq<u8>>, r: int, s: u8) -> Seq<Seq<u8>> {
    w.update(r, vec_scale(s, w[r]))
}

/// The matrix `w` with `f` times row `r` added to row `i`.
pub open spec fn sheared(w: Seq<Seq<u8>>, i: int, r: int, f: u8) -> Seq<Seq<u8>> {
    w.update(i, vec_add(w[i], vec_scale(f, w[r])))
}

/// Exchanging a row with one below it keeps the state of an elimination.
pub proof fn lemma_step_swap(
    w: Seq<Seq<u8>>,
    e: Seq<Seq<u8>>,
    a: Seq<Seq<u8>>,
    n: nat,
    r: nat,
    p: int,
)
    requires
        tracks(w, e, a, n),
        reduced(w, n, r),
        r <= p < n,
    ensures
        tracks(swapped(w, r as int, p), swapped(e, r as int, p), a, n),
        reduced(swapped(w, r as int, p), n, r),
        swapped(w, r as int, p)[r as int] == w[p],
{
    let w1 = swapped(w, r as int, p);
    let e1 = swapped(e, r as int, p);
    lemma_kernel_swap(e, n, r as int, p);
    assert forall|i: int| 0 <= i < n implies row_tracks(#[trigger] w1[i], e1[i], a, n) by {
        if i == r {
            assert(row_tracks(w[p], e[p], a, n));
        } else if i == p {
            assert(row_tracks(w[r as int], e[r as int], a, n));
        } else {
            assert(row_tracks(w[i], e[i], a, n));
        }
    }
    assert forall|i: int, c: int| 0 <= i < n && 0 <= c < r implies (#[trigger] w1[i][c]) == (if i
        == c {
        1u8
    } else {
        0u8
    }) by {
        if i == r {
            assert(w[p][c] == 0);
        } else if i == p {
            assert(w[r as int][c] == 0);
        } else {
            assert(w[i][c] == (if i == c { 1u8 } else { 0u8 }));
        }
    }
}

/// Multiplying the pivot row by a nonzero factor keeps the state of an elimination.
pub proof fn lemma_step_scale(
    w: Seq<Seq<u8>>,
    e: Seq<Seq<u8>>,
    a: Seq<Seq<u8>>,
    n: nat,
    r: nat,
    s: u8,
)
    requires
        tracks(w, e, a, n),
        reduced(w, n, r),
        r < n,
        s != 0,
    ensures
        tracks(scaled(w, r as int, s), scaled(e, r as int, s), a, n),
        reduced(scaled(w, r as int, s), n, r),
        scaled(w, r as int, s)[r as int][r as int] == gf_mul(s, w[r as int][r as int]),
{
    let w1 = scaled(w, r as int, s);
    let e1 = scaled(e, r as int, s);
    lemma_mul_identity(s);
    lemma_kernel_scale(e, n, r as int, s);
    assert forall|i: int| 0 <= i < n implies row_tracks(#[trigger] w1[i], e1[i], a, n) by {
        assert(row_tracks(w[i], e[i], a, n));
        if i == r {
            lemma_scale_tracks(w[i], e[i], a, n, s);
        }
    }
    assert forall|i: int, c: int| 0 <= i < n && 0 <= c < r implies (#[trigger] w1[i][c]) == (if i
        == c {
        1u8
    } else {
        0u8
    }) by {
        assert(w[i][c] == (if i == c { 1u8 } else { 0u8 }));
    }
}

/// Adding a multiple of the pivot row to another row keeps the state of an elimination.
pub proof fn lemma_step_shear(
    w: Seq<Seq<u8>>,
    e: Seq<Seq<u8>>,
    a: Seq<Seq<u8>>,
    n: nat,
    r: nat,
    i: int,
    f: u8,
)
    requires
        tracks(w, e, a, n),
        reduced(w, n, r),
        r < n,
        0 <= i < n,
        i != r,
    ensures
        tracks(sheared(w, i, r as int, f), sheared(e, i, r as int, f), a, n),
        reduced(sheared(w, i, r as int, f), n, r),
        sheared(w, i, r as int, f)[i][r as int] == gf_add(
            w[i][r as int],
            gf_mul(f, w[r as int][r as int]),
        ),
{
    let w1 = sheared(w, i, r as int, f);
    let e1 = sheared(e, i, r as int, f);
    lemma_kernel_add(e, n, i, r as int, f);
    lemma_mul_identity(f);
    assert forall|k: int| 0 <= k < n implies row_tracks(#[trigger] w1[k], e1[k], a, n) by {
        assert(row_tracks(w[k], e[k], a, n));
        if k == i {
            assert(row_tracks(w[r as int], e[r as int], a, n));
            lemma_scale_tracks(w[r as int], e[r as int], a, n, f);
            lemma_add_tracks(
                w[k],
                e[k],
                vec_scale(f, w[r as int]),
                vec_scale(f, e[r as int]),
                a,
                n,
            );
        }
    }
    assert forall|k: int, c: int| 0 <= k < n && 0 <= c < r implies (#[trigger] w1[k][c]) == (if k
        == c {
        1u8
    } else {
        0u8
    }) by {
        assert(w[k][c] == (if k == c { 1u8 } else { 0u8 }));
        if k == i {
            assert(w[r as int][c] == 0);
            lemma_add_laws(w[k][c], 0, 0);
        }
    }
}

/// Once column `r` is zero off the diagonal and one on it, one more column is reduced.
pub proof fn lemma_column_done(w: Seq<Seq<u8>>, n: nat, r: nat)
    requires
        is_matrix(w, n, n),
        reduced(w, n, r),
        r < n,
        w[r as int][r as int] == 1,
        forall|k: int| 0 <= k < n && k != r ==> (#[trigger] w[k])[r as int] == 0,
    ensures
        reduced(w, n, r + 1),
{
    assert forall|k: int, c: int| 0 <= k < n && 0 <= c < r + 1 implies (#[trigger] w[k][c]) == (if k
        == c {
        1u8
    } else {
        0u8
    }) by {
        if c == r && k != r {
            assert(w[k][r as int] == 0);
        }
    }
}

proof fn lemma_clear_column(
    w: Seq<Seq<u8>>,
    e: Seq<Seq<u8>>,
    a: Seq<Seq<u8>>,
    n: nat,
    r: nat,
    i: nat,
) -> (res: (Seq<Seq<u8>>, Seq<Seq<u8>>))
    requires
        tracks(w, e, a, n),
        reduced(w, n, r),
        r < n,
        i <= n,
        w[r as int][r as int] == 1,
        forall|k: int| 0 <= k < i && k != r ==> (#[trigger] w[k])[r as int] == 0,
    ensures
        tracks(res.0, res.1, a, n),
        reduced(res.0, n, r + 1),
    decreases n - i,
{
    if i == n {
        lemma_column_done(w, n, r);
        (w, e)
    } else if i == r {
        lemma_clear_column(w, e, a, n, r, i + 1)
    } else {
        let f = w[i as int][r as int];
        lemma_step_shear(w, e, a, n, r, i as int, f);
        lemma_mul_identity(f);
        lemma_add_laws(f, 0, 0);
        let w1 = sheared(w, i as int, r as int, f);
        let e1 = sheared(e, i as int, r as int, f);
        assert forall|k: int| 0 <= k < i + 1 && k != r implies (#[trigger] w1[k])[r as int]
            == 0 by {
            if k != i {
                assert(w[k][r as int] == 0);
            }
        }
        lemma_clear_column(w1, e1, a, n, r, i + 1)
    }
}

proof fn lemma_reduce(w: Seq<Seq<u8>>, e: Seq<Seq<u8>>, a: Seq<Seq<u8>>, n: nat, r: nat) -> (b: Seq<
    Seq<u8>,
>)
    requires
        tracks(w, e, a, n),
        reduced(w, n, r),
        r <= n,
        kernel_trivial(a, n),
    ensures
        is_inverse(b, a, n),
    decreases n - r,
{
    if r == n {
        assert(w =~~= identity(n));
        lemma_tracks_identity(e, a, n);
        e
    } else if forall|i: int| r <= i < n ==> (#[trigger] w[i])[r as int] == 0 {
        lemma_no_pivot(w, e, a, n, r);
        e
    } else {
        let p = choose|p: int| r <= p < n && (#[trigger] w[p])[r as int] != 0;
        lemma_step_swap(w, e, a, n, r, p);
        let w1 = swapped(w, r as int, p);
        let e1 = swapped(e, r as int, p);
        let pivot = w1[r as int][r as int];
        let s = gf_div(1, pivot);
        lemma_div(1, pivot);
        lemma_mul_identity(pivot);
        lemma_step_scale(w1, e1, a, n, r, s);
        let w2 = scaled(w1, r as int, s);
        let e2 = scaled(e1, r as int, s);
        let (w3, e3) = lemma_clear_column(w2, e2, a, n, r, 0);
        lemma_reduce(w3, e3, a, n, r + 1)
    }
}

/// A square matrix that maps no vector but zero to zero has an inverse.
pub proof fn lemma_kernel_trivial_invertible(a: Seq<Seq<u8>>, n: nat)
    requires
        is_matrix(a, n, n),
        kernel_trivial(a, n),
    ensures
        invertible(a, n),
{
    lemma_tracks_start(a, n);
    assert(reduced(a, n, 0));
    let b = lemma_reduce(a, identity(n), a, n, 0);
}

} // verus!
