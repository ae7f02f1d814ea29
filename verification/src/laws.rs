//! What holds of the code as a whole: an encoded shard set verifies,
//! a single changed byte is detected, and the shards lost from an
//! encoded set are recovered as they were.

use crate::code::{
    absent_count, chosen, completed, encoded, equal_lengths, is_code_word, parity_byte, parity_of,
    picked, reconstructed, recovered,
};
use crate::code_proofs::lemma_chosen;
use crate::coding_matrix::{
    coding_matrix, lemma_any_rows_invertible, lemma_coding_matrix_shape, lemma_coding_matrix_top,
    valid_counts,
};
use crate::engine::CodingEngine;
use crate::galois::{gf_add, gf_mul};
use crate::galois_proofs::{lemma_add_laws, lemma_mul_commutes, lemma_no_zero_divisors};
use crate::linalg::{
    column, dot, in_kernel, inverse_of, is_inverse, mat_vec,
    select_rows, unit, vec_add, vec_scale, width, zeros,
};
use crate::linalg_proofs::{
    lemma_dot_add_right, lemma_dot_ext, lemma_dot_scale_right, lemma_dot_unit,
    lemma_inverse_applies, lemma_inverse_kernel,
};
use vstd::prelude::*;

verus! {

/// Every entry of the parity rows of the coding matrix is different
/// from zero: each data byte takes part in each parity byte.
pub proof fn lemma_parity_coefficient_nonzero(d: nat, p: nat, q: int, c: int)
    requires
        valid_counts(d, p),
        0 <= q < p,
        0 <= c < d,
    ensures
        coding_matrix(d, p)[d + q][c] != 0,
{
    let m = coding_matrix(d, p);
    lemma_coding_matrix_shape(d, p);
    if m[d + q][c] == 0 {
        let rows = Seq::new(d, |k: int| if k == c { d + q } else { k });
        lemma_any_rows_invertible(d, p, rows);
        let sub = select_rows(m, rows);
        let b = choose|b: Seq<Seq<u8>>| is_inverse(b, sub, d);
        lemma_inverse_kernel(b, sub, d);
        let x = unit(d, c);
        assert forall|k: int| 0 <= k < d implies dot(#[trigger] sub[k], x) == 0 by {
            lemma_dot_unit(sub[k], d, c);
            if k != c {
                lemma_coding_matrix_top(d, p, k);
            }
        }
        assert(in_kernel(sub, x, d));
        assert(x[c] == 1);
        assert(zeros(d)[c] == 0);
    }
}

/// Every shard of an encoded set, data or parity, is byte by byte the
/// inner product of its row of the coding matrix with the data bytes.
pub proof fn lemma_code_word_rows(d: nat, p: nat, w: Seq<Seq<u8>>, s: int, j: int)
    requires
        valid_counts(d, p),
        w.len() == d + p,
        equal_lengths(w),
        is_code_word(d, p, w),
        0 <= s < d + p,
        0 <= j < width(w),
    ensures
        w[s][j] == dot(coding_matrix(d, p)[s], column(w.take(d as int), j)),
{
    let x = column(w.take(d as int), j);
    lemma_coding_matrix_shape(d, p);
    if s < d {
        lemma_coding_matrix_top(d, p, s);
        lemma_dot_unit(x, d, s);
    } else {
        assert(encoded(d, p, w)[s] == parity_of(d, p, w)[s - d]);
        assert(parity_of(d, p, w)[s - d][j] == parity_byte(d, p, w, s - d, j));
    }
}

/// What `encode` produces, `verify` accepts: the shard set after
/// encoding has equal lengths and carries the parity of its data.
pub proof fn lemma_encoded_verifies(d: nat, p: nat, shards: Seq<Seq<u8>>)
    requires
        valid_counts(d, p),
        shards.len() == d + p,
        equal_lengths(shards),
    ensures
        equal_lengths(encoded(d, p, shards)),
        is_code_word(d, p, encoded(d, p, shards)),
{
    let e = encoded(d, p, shards);
    assert(e[0] == shards[0]);
    assert(e.take(d as int) =~= shards.take(d as int));
    assert forall|i: int| 0 <= i < e.len() implies (#[trigger] e[i]).len() == width(e) by {
        if i < d {
            assert(e[i] == shards[i]);
        } else {
            assert(e[i] == parity_of(d, p, shards)[i - d]);
        }
    }
    assert(parity_of(d, p, e) =~~= parity_of(d, p, shards));
    assert(encoded(d, p, e) =~= e);
}

/// The inner product after one entry of the second vector has changed.
proof fn lemma_dot_changed(u: Seq<u8>, x: Seq<u8>, y: Seq<u8>, n: nat, i: int)
    requires
        u.len() == n,
        x.len() == n,
        y.len() == n,
        0 <= i < n,
        forall|k: int| 0 <= k < n && k != i ==> x[k] == y[k],
    ensures
        dot(u, y) == gf_add(dot(u, x), gf_mul(u[i], gf_add(x[i], y[i]))),
{
    let delta = gf_add(x[i], y[i]);
    let step = vec_scale(delta, unit(n, i));
    let z = vec_add(x, step);
    assert forall|k: int| 0 <= k < n implies z[k] == y[k] by {
        crate::galois_proofs::lemma_mul_identity(delta);
        lemma_add_laws(x[k], 0, 0);
        if k == i {
            lemma_add_laws(x[i], x[i], y[i]);
            lemma_add_laws(y[i], 0, 0);
        }
    }
    lemma_dot_ext(u, z, u, y, n);
    lemma_dot_add_right(u, x, step, n);
    lemma_dot_scale_right(u, delta, unit(n, i), n);
    lemma_dot_unit(u, n, i);
    lemma_mul_commutes(delta, u[i]);
}

/// After any single byte of an encoded shard set has changed, the set
/// no longer verifies.
pub proof fn lemma_changed_byte_detected(
    d: nat,
    p: nat,
    w: Seq<Seq<u8>>,
    v: Seq<Seq<u8>>,
    i: int,
    j: int,
)
    requires
        valid_counts(d, p),
        w.len() == d + p,
        equal_lengths(w),
        is_code_word(d, p, w),
        v.len() == w.len(),
        forall|k: int| 0 <= k < w.len() ==> (#[trigger] v[k]).len() == w[k].len(),
        0 <= i < d + p,
        0 <= j < width(w),
        v[i][j] != w[i][j],
        forall|k: int, l: int|
            0 <= k < w.len() && 0 <= l < width(w) && !(k == i && l == j) ==> (#[trigger] v[k][l])
                == w[k][l],
    ensures
        equal_lengths(v),
        !is_code_word(d, p, v),
{
    let m = coding_matrix(d, p);
    lemma_coding_matrix_shape(d, p);
    assert(v[0].len() == w[0].len());
    assert forall|k: int| 0 <= k < v.len() implies (#[trigger] v[k]).len() == width(v) by {
        assert(w[k].len() == width(w));
    }
    let s = if i < d { d as int } else { i };
    let x = column(w.take(d as int), j);
    let y = column(v.take(d as int), j);
    lemma_code_word_rows(d, p, w, s, j);
    assert(encoded(d, p, v)[s] == parity_of(d, p, v)[s - d]);
    assert(encoded(d, p, v)[s][j] == dot(m[s], y));
    if i < d {
        assert(v[s][j] == w[s][j]);
        lemma_dot_changed(m[s], x, y, d, i);
        lemma_parity_coefficient_nonzero(d, p, 0, i);
        lemma_add_laws(x[i], y[i], 0);
        lemma_no_zero_divisors(m[s][i], gf_add(x[i], y[i]));
        lemma_add_laws(dot(m[s], x), dot(m[s], y), gf_mul(m[s][i], gf_add(x[i], y[i])));
        lemma_add_laws(dot(m[s], x), dot(m[s], x), gf_mul(m[s][i], gf_add(x[i], y[i])));
        lemma_add_laws(gf_mul(m[s][i], gf_add(x[i], y[i])), 0, 0);
        assert(dot(m[s], y) != dot(m[s], x));
    } else {
        assert(x =~= y);
    }
    assert(encoded(d, p, v)[s][j] != v[s][j]);
}

/// Round trip: when at most `p` shards of an encoded set are lost,
/// `reconstruct` restores every shard, data and parity, as it was.
pub proof fn lemma_round_trip(d: nat, p: nat, w: Seq<Seq<u8>>, slots: Seq<Option<Seq<u8>>>)
    requires
        valid_counts(d, p),
        w.len() == d + p,
        equal_lengths(w),
        is_code_word(d, p, w),
        slots.len() == d + p,
        forall|i: int| 0 <= i < d + p && (#[trigger] slots[i]) is Some ==> slots[i] == Some(w[i]),
        absent_count(slots) <= p,
    ensures
        reconstructed(d, p, slots) == Seq::new(d + p, |i: int| Some(w[i])),
{
    let m = coding_matrix(d, p);
    let c = chosen(slots, d);
    let rows = select_rows(m, c);
    let inv = inverse_of(rows, d);
    let got = picked(slots, d);
    lemma_coding_matrix_shape(d, p);
    lemma_chosen(slots, d, p);
    lemma_any_rows_invertible(d, p, c);
    assert forall|k: int| 0 <= k < d implies #[trigger] got[k] == w[c[k]] by {
        assert(slots[c[k]] is Some);
    }
    assert(got[0] == w[c[0]]);
    assert(width(got) == width(w));
    assert forall|i: int| 0 <= i < d implies recovered(d, p, slots, i) == w[i] by {
        assert forall|j: int| 0 <= j < width(w) implies recovered(d, p, slots, i)[j] == w[i][j] by {
            let x = column(w.take(d as int), j);
            assert forall|k: int| 0 <= k < d implies column(got, j)[k] == mat_vec(rows, x)[k] by {
                lemma_code_word_rows(d, p, w, c[k], j);
            }
            assert(column(got, j) =~= mat_vec(rows, x));
            lemma_inverse_applies(inv, rows, d, x);
            assert(mat_vec(inv, mat_vec(rows, x))[i] == x[i]);
        }
        assert(recovered(d, p, slots, i) =~= w[i]);
    }
    let full = completed(d, p, slots);
    assert(full =~= w.take(d as int));
    assert(full.take(d as int) =~= w.take(d as int));
    assert(width(full) == width(w));
    assert(parity_of(d, p, full) =~~= parity_of(d, p, w));
    assert forall|i: int| 0 <= i < d + p implies reconstructed(d, p, slots)[i] == Some(w[i]) by {
        if i >= d {
            assert(encoded(d, p, w)[i] == parity_of(d, p, w)[i - d]);
        }
    }
    assert(reconstructed(d, p, slots) =~= Seq::new(d + p, |i: int| Some(w[i])));
}

/// Engines for the same shard counts encode alike, whatever their
/// thresholds: how the work is split has no part in the result.
pub proof fn lemma_threshold_irrelevant(a: &CodingEngine, b: &CodingEngine, shards: Seq<Seq<u8>>)
    requires
        a.data() == b.data(),
        a.parity() == b.parity(),
    ensures
        a.encoding(shards) == b.encoding(shards),
{
}

} // verus!
