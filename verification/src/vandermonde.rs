//! Vandermonde matrices over GF(2^8), and why any square selection of
//! their rows maps no vector but zero to zero: a polynomial with as
//! many distinct roots as it has coefficients is zero.

use crate::galois::{gf_add, gf_mul, gf_pow};
use crate::galois_proofs::{
    lemma_add_laws, lemma_mul_add, lemma_mul_associates, lemma_mul_commutes, lemma_mul_identity,
    lemma_no_zero_divisors,
};
use crate::linalg::{dot, dot_upto, in_kernel, kernel_trivial, select_rows, zeros};
use vstd::prelude::*;

verus! {

/// The value at `x` of the polynomial with the coefficients `c[j]`,
/// `c[j + 1]`, ... for the powers zero, one, ... of `x`.
pub open spec fn horner(c: Seq<u8>, x: u8, j: nat) -> u8
    decreases c.len() - j,
{
    if j >= c.len() {
        0
    } else {
        gf_add(c[j as int], gf_mul(x, horner(c, x, j + 1)))
    }
}

/// The first `n` powers of `x`, from the power zero.
pub open spec fn powers(x: u8, n: nat) -> Seq<u8> {
    Seq::new(n, |c: int| gf_pow(x, c as nat))
}

/// The Vandermonde matrix whose row `r` holds the powers of the field element `r`.
pub open spec fn vandermonde(rows: nat, cols: nat) -> Seq<Seq<u8>> {
    Seq::new(rows, |r: int| powers(r as u8, cols))
}

/// Whether `rows` names `n` different rows of a matrix with `total` rows.
pub open spec fn distinct_rows(rows: Seq<int>, n: nat, total: nat) -> bool {
    &&& rows.len() == n
    &&& forall|k: int| 0 <= k < n ==> 0 <= #[trigger] rows[k] < total
    &&& forall|k: int, l: int| 0 <= k < l < n ==> rows[k] != rows[l]
}

proof fn lemma_regroup(c: u8, x: u8, p: u8, r: u8)
    by (bit_vector)
    ensures
        c ^ (x ^ p) == ((p ^ r) ^ x) ^ (c ^ r),
{
}

/// The inner product with the powers of `x` evaluates a polynomial at `x`.
proof fn lemma_powers_tail(x: u8, c: Seq<u8>, n: nat, m: nat)
    requires
        c.len() == n,
        m <= n,
    ensures
        dot_upto(powers(x, n), c, n) == gf_add(
            dot_upto(powers(x, n), c, m),
            gf_mul(gf_pow(x, m), horner(c, x, m)),
        ),
    decreases n - m,
{
    let pw = powers(x, n);
    if m == n {
        lemma_mul_identity(gf_pow(x, m));
        lemma_add_laws(dot_upto(pw, c, n), 0, 0);
    } else {
        lemma_powers_tail(x, c, n, m + 1);
        let d = dot_upto(pw, c, m);
        let xm = gf_pow(x, m);
        let h1 = horner(c, x, m + 1);
        let cm = c[m as int];
        assert(dot_upto(pw, c, m + 1) == gf_add(d, gf_mul(xm, cm)));
        assert(gf_pow(x, m + 1) == gf_mul(x, xm));
        assert(horner(c, x, m) == gf_add(cm, gf_mul(x, h1)));
        lemma_mul_add(xm, cm, gf_mul(x, h1));
        lemma_mul_associates(xm, x, h1);
        lemma_mul_commutes(xm, x);
        lemma_add_laws(d, gf_mul(xm, cm), gf_mul(gf_mul(x, xm), h1));
    }
}

/// The inner product of the powers of `x` with `c` is the polynomial `c` at `x`.
pub proof fn lemma_powers_dot(x: u8, c: Seq<u8>, n: nat)
    requires
        c.len() == n,
    ensures
        dot(powers(x, n), c) == horner(c, x, 0),
{
    lemma_powers_tail(x, c, n, 0);
    lemma_mul_identity(horner(c, x, 0));
    lemma_add_laws(horner(c, x, 0), 0, 0);
}

/// The quotient of the polynomial `c` by `x + r`: its coefficients are
/// the intermediate values of the evaluation of `c` at `r`.
pub open spec fn quotient(c: Seq<u8>, r: u8) -> Seq<u8> {
    Seq::new((c.len() - 1) as nat, |j: int| horner(c, r, (j + 1) as nat))
}

/// Division with remainder by a linear factor:
/// `c(x) == (x + r) q(x) + c(r)`.
proof fn lemma_factor(c: Seq<u8>, r: u8, x: u8, j: nat)
    requires
        c.len() > 0,
        j <= c.len(),
    ensures
        horner(c, x, j) == gf_add(
            gf_mul(gf_add(x, r), horner(quotient(c, r), x, j)),
            horner(c, r, j),
        ),
    decreases c.len() - j,
{
    let q = quotient(c, r);
    let s = gf_add(x, r);
    lemma_mul_identity(s);
    lemma_add_laws(0, 0, 0);
    if j == c.len() {
    } else if j == c.len() - 1 {
        assert(horner(c, x, j + 1) == 0);
        assert(horner(c, r, j + 1) == 0);
        lemma_mul_identity(x);
        lemma_mul_identity(r);
        lemma_add_laws(horner(c, r, j), 0, 0);
    } else {
        lemma_factor(c, r, x, j + 1);
        let a1 = horner(c, x, j + 1);
        let b1 = horner(q, x, j + 1);
        let c1 = horner(c, r, j + 1);
        let cj = c[j as int];
        assert(q[j as int] == c1);
        assert(horner(q, x, j) == gf_add(c1, gf_mul(x, b1)));
        assert(horner(c, x, j) == gf_add(cj, gf_mul(x, a1)));
        assert(horner(c, r, j) == gf_add(cj, gf_mul(r, c1)));
        // x (s b1 + c1) == x (s b1) + x c1
        lemma_mul_add(x, gf_mul(s, b1), c1);
        // s (c1 + x b1) == s c1 + s (x b1)
        lemma_mul_add(s, c1, gf_mul(x, b1));
        // s c1 == x c1 + r c1
        lemma_mul_add(c1, x, r);
        // s (x b1) == x (s b1)
        lemma_mul_associates(s, x, b1);
        lemma_mul_commutes(s, x);
        lemma_mul_associates(x, s, b1);
        lemma_regroup(cj, gf_mul(x, gf_mul(s, b1)), gf_mul(x, c1), gf_mul(r, c1));
    }
}

/// A polynomial that vanishes at as many distinct points as it has
/// coefficients has no coefficient but zero.
pub proof fn lemma_roots(c: Seq<u8>, xs: Seq<u8>)
    requires
        c.len() == xs.len(),
        forall|k: int, l: int| 0 <= k < l < xs.len() ==> xs[k] != xs[l],
        forall|k: int| 0 <= k < xs.len() ==> horner(c, #[trigger] xs[k], 0) == 0,
    ensures
        forall|j: int| 0 <= j < c.len() ==> #[trigger] c[j] == 0,
    decreases c.len(),
{
    let n = c.len();
    if n > 0 {
        let r = xs[n - 1];
        let q = quotient(c, r);
        let ys = xs.take(n - 1);
        assert(horner(c, r, 0) == 0);
        assert forall|k: int| 0 <= k < ys.len() implies horner(q, #[trigger] ys[k], 0) == 0 by {
            let x = xs[k];
            assert(ys[k] == x);
            assert(horner(c, x, 0) == 0);
            lemma_factor(c, r, x, 0);
            let t = gf_mul(gf_add(x, r), horner(q, x, 0));
            lemma_add_laws(t, 0, 0);
            lemma_add_laws(x, r, 0);
            lemma_no_zero_divisors(gf_add(x, r), horner(q, x, 0));
        }
        lemma_roots(q, ys);
        assert forall|j: int| 0 <= j < n implies #[trigger] c[j] == 0 by {
            let h0 = horner(c, r, j as nat);
            let h1 = horner(c, r, (j + 1) as nat);
            if j > 0 {
                assert(q[j - 1] == 0);
            }
            if j + 1 < n {
                assert(q[j] == 0);
            }
            assert(h0 == 0);
            assert(h1 == 0);
            lemma_mul_identity(r);
            lemma_add_laws(c[j], 0, 0);
        }
    }
}

/// Any square selection of different rows of a Vandermonde matrix
/// maps no vector but zero to zero.
pub proof fn lemma_vandermonde_kernel(total: nat, n: nat, rows: Seq<int>)
    requires
        total <= 256,
        distinct_rows(rows, n, total),
    ensures
        kernel_trivial(select_rows(vandermonde(total, n), rows), n),
{
    let v = vandermonde(total, n);
    let sub = select_rows(v, rows);
    assert forall|x: Seq<u8>| #[trigger] in_kernel(sub, x, n) implies x == zeros(n) by {
        let xs = Seq::new(n, |k: int| rows[k] as u8);
        assert forall|k: int| 0 <= k < xs.len() implies horner(x, #[trigger] xs[k], 0) == 0 by {
            assert(dot(sub[k], x) == 0);
            assert(sub[k] == powers(xs[k], n));
            lemma_powers_dot(xs[k], x, n);
        }
        lemma_roots(x, xs);
        assert(x =~= zeros(n));
    }
}

} // verus!
