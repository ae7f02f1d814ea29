//! Gauss-Jordan elimination over GF(2^8): the inverse of a square
//! matrix, or the finding that it has none.

use crate::elimination_proofs::{
    lemma_column_done, lemma_no_pivot, lemma_step_scale, lemma_step_shear, lemma_step_swap,
    lemma_tracks_identity, lemma_tracks_start, reduced, scaled, sheared, swapped, tracks,
};
use crate::error::Error;
use crate::galois::{gf_add, gf_mul, Gf256};
use crate::galois_proofs::{lemma_add_laws, lemma_div, lemma_mul_identity};
use crate::linalg::{
    grid, identity, invertible, is_inverse, is_matrix, unit, vec_add, vec_scale,
};
use vstd::prelude::*;

verus! {

/// The rows of a vector that is a matrix have the matrix's width.
pub proof fn lemma_row_lengths(v: Vec<Vec<u8>>, rows: nat, cols: nat)
    requires
        is_matrix(grid(v), rows, cols),
    ensures
        v.len() == rows,
        forall|i: int| 0 <= i < rows ==> (#[trigger] v[i]).len() == cols,
{
    assert forall|i: int| 0 <= i < rows implies (#[trigger] v[i]).len() == cols by {
        assert(grid(v)[i] == v[i]@);
    }
}

pub(crate) fn copy_row(row: &Vec<u8>) -> (out: Vec<u8>)
    ensures
        out@ == row@,
{
    let mut out: Vec<u8> = Vec::new();
    let mut k: usize = 0;
    while k < row.len()
        invariant
            k <= row.len(),
            out.len() == k,
            forall|j: int| 0 <= j < k ==> out[j] == row[j],
        decreases row.len() - k,
    {
        out.push(row[k]);
        k += 1;
    }
    assert(out@ =~= row@);
    out
}

fn scale_row(field: &Gf256, s: u8, row: &Vec<u8>) -> (out: Vec<u8>)
    ensures
        out@ == vec_scale(s, row@),
{
    let mut out: Vec<u8> = Vec::new();
    let mut k: usize = 0;
    while k < row.len()
        invariant
            k <= row.len(),
            out.len() == k,
            forall|j: int| 0 <= j < k ==> out[j] == gf_mul(s, row[j]),
        decreases row.len() - k,
    {
        out.push(field.mul(s, row[k]));
        k += 1;
    }
    assert(out@ =~= vec_scale(s, row@));
    out
}

fn add_scaled_row(field: &Gf256, row: &Vec<u8>, f: u8, other: &Vec<u8>) -> (out: Vec<u8>)
    requires
        row.len() == other.len(),
    ensures
        out@ == vec_add(row@, vec_scale(f, other@)),
{
    let mut out: Vec<u8> = Vec::new();
    let mut k: usize = 0;
    while k < row.len()
        invariant
            k <= row.len(),
            row.len() == other.len(),
            out.len() == k,
            forall|j: int| 0 <= j < k ==> out[j] == gf_add(row[j], gf_mul(f, other[j])),
        decreases row.len() - k,
    {
        let t = field.mul(f, other[k]);
        out.push(field.add(row[k], t));
        k += 1;
    }
    assert(out@ =~= vec_add(row@, vec_scale(f, other@)));
    out
}

fn identity_rows(n: usize) -> (out: Vec<Vec<u8>>)
    ensures
        grid(out) == identity(n as nat),
{
    let mut out: Vec<Vec<u8>> = Vec::new();
    let mut i: usize = 0;
    while i < n
        invariant
            i <= n,
            out.len() == i,
            forall|k: int| 0 <= k < i ==> (#[trigger] out[k])@ == unit(n as nat, k),
        decreases n - i,
    {
        let mut row: Vec<u8> = vec![0u8; n];
        row.set(i, 1);
        assert(row@ =~= unit(n as nat, i as int));
        out.push(row);
        i += 1;
    }
    assert(grid(out) =~= identity(n as nat));
    out
}

pub(crate) fn copy_rows(a: &Vec<Vec<u8>>) -> (out: Vec<Vec<u8>>)
    ensures
        grid(out) == grid(*a),
{
    let mut out: Vec<Vec<u8>> = Vec::new();
    let mut i: usize = 0;
    while i < a.len()
        invariant
            i <= a.len(),
            out.len() == i,
            forall|k: int| 0 <= k < i ==> (#[trigger] out[k])@ == a[k]@,
        decreases a.len() - i,
    {
        out.push(copy_row(&a[i]));
        i += 1;
    }
    assert(grid(out) =~= grid(*a));
    out
}

/// Exchanges rows `r` and `p` of the work matrix and of the weights.
fn bring_pivot(
    work: &mut Vec<Vec<u8>>,
    inv: &mut Vec<Vec<u8>>,
    r: usize,
    p: usize,
    Ghost(a): Ghost<Seq<Seq<u8>>>,
    Ghost(n): Ghost<nat>,
)
    requires
        tracks(grid(*old(work)), grid(*old(inv)), a, n),
        reduced(grid(*old(work)), n, r as nat),
        r <= p < n,
    ensures
        tracks(grid(*final(work)), grid(*final(inv)), a, n),
        reduced(grid(*final(work)), n, r as nat),
        grid(*final(work))[r as int][r as int] == grid(*old(work))[p as int][r as int],
{
    let ghost w0 = grid(*work);
    let ghost e0 = grid(*inv);
    let wr = copy_row(&work[r]);
    let wp = copy_row(&work[p]);
    work.set(r, wp);
    work.set(p, wr);
    let er = copy_row(&inv[r]);
    let ep = copy_row(&inv[p]);
    inv.set(r, ep);
    inv.set(p, er);
    proof {
        assert(grid(*work) =~= swapped(w0, r as int, p as int));
        assert(grid(*inv) =~= swapped(e0, r as int, p as int));
        lemma_step_swap(w0, e0, a, n, r as nat, p as int);
    }
}

/// Divides row `r` by its entry on the diagonal.
fn normalize(
    field: &Gf256,
    work: &mut Vec<Vec<u8>>,
    inv: &mut Vec<Vec<u8>>,
    r: usize,
    Ghost(a): Ghost<Seq<Seq<u8>>>,
    Ghost(n): Ghost<nat>,
)
    requires
        tracks(grid(*old(work)), grid(*old(inv)), a, n),
        reduced(grid(*old(work)), n, r as nat),
        r < n,
        grid(*old(work))[r as int][r as int] != 0,
    ensures
        tracks(grid(*final(work)), grid(*final(inv)), a, n),
        reduced(grid(*final(work)), n, r as nat),
        grid(*final(work))[r as int][r as int] == 1,
{
    let ghost w0 = grid(*work);
    let ghost e0 = grid(*inv);
    let pivot = work[r][r];
    let s = field.quotient(1, pivot);
    let wr = scale_row(field, s, &work[r]);
    work.set(r, wr);
    let er = scale_row(field, s, &inv[r]);
    inv.set(r, er);
    proof {
        lemma_div(1, pivot);
        lemma_mul_identity(pivot);
        assert(grid(*work) =~= scaled(w0, r as int, s));
        assert(grid(*inv) =~= scaled(e0, r as int, s));
        lemma_step_scale(w0, e0, a, n, r as nat, s);
    }
}

/// Clears entry `r` of row `i` by adding a multiple of row `r` to it.
fn eliminate(
    field: &Gf256,
    work: &mut Vec<Vec<u8>>,
    inv: &mut Vec<Vec<u8>>,
    i: usize,
    r: usize,
    Ghost(a): Ghost<Seq<Seq<u8>>>,
    Ghost(n): Ghost<nat>,
)
    requires
        tracks(grid(*old(work)), grid(*old(inv)), a, n),
        reduced(grid(*old(work)), n, r as nat),
        r < n,
        i < n,
        i != r,
        grid(*old(work))[r as int][r as int] == 1,
    ensures
        tracks(grid(*final(work)), grid(*final(inv)), a, n),
        reduced(grid(*final(work)), n, r as nat),
        grid(*final(work))[i as int][r as int] == 0,
        forall|k: int| 0 <= k < n && k != i ==> grid(*final(work))[k] == grid(*old(work))[k],
{
    let ghost w0 = grid(*work);
    let ghost e0 = grid(*inv);
    proof {
        lemma_row_lengths(*work, n, n);
        lemma_row_lengths(*inv, n, n);
    }
    let f = work[i][r];
    let wi = add_scaled_row(field, &work[i], f, &work[r]);
    work.set(i, wi);
    let ei = add_scaled_row(field, &inv[i], f, &inv[r]);
    inv.set(i, ei);
    proof {
        assert(grid(*work) =~= sheared(w0, i as int, r as int, f));
        assert(grid(*inv) =~= sheared(e0, i as int, r as int, f));
        lemma_step_shear(w0, e0, a, n, r as nat, i as int, f);
        lemma_mul_identity(f);
        lemma_add_laws(f, 0, 0);
    }
}

/// The inverse of a square matrix, by Gauss-Jordan elimination with
/// the identity matrix carried along. Fails exactly when the matrix
/// has no inverse.
pub fn invert(field: &Gf256, a: &Vec<Vec<u8>>) -> (r: Result<Vec<Vec<u8>>, Error>)
    requires
        is_matrix(grid(*a), a.len() as nat, a.len() as nat),
    ensures
        match r {
            Ok(b) => is_inverse(grid(b), grid(*a), a.len() as nat),
            Err(e) => e == Error::MatrixNotInvertible && !invertible(grid(*a), a.len() as nat),
        },
{
    let n = a.len();
    let mut work = copy_rows(a);
    let mut inv = identity_rows(n);
    proof {
        lemma_tracks_start(grid(*a), n as nat);
    }
    let mut r: usize = 0;
    while r < n
        invariant
            r <= n,
            n == a.len(),
            tracks(grid(work), grid(inv), grid(*a), n as nat),
            reduced(grid(work), n as nat, r as nat),
        decreases n - r,
    {
        let mut p: usize = r;
        proof {
            lemma_row_lengths(work, n as nat, n as nat);
        }
        while p < n && work[p][r] == 0
            invariant
                r <= p <= n,
                r < n,
                work.len() == n,
                forall|i: int| 0 <= i < n ==> (#[trigger] work[i]).len() == n,
                forall|i: int| r <= i < p ==> (#[trigger] grid(work)[i])[r as int] == 0,
            decreases n - p,
        {
            p += 1;
        }
        if p == n {
            proof {
                lemma_no_pivot(grid(work), grid(inv), grid(*a), n as nat, r as nat);
            }
            return Err(Error::MatrixNotInvertible);
        }
        if p != r {
            bring_pivot(&mut work, &mut inv, r, p, Ghost(grid(*a)), Ghost(n as nat));
        }
        proof {
            lemma_row_lengths(work, n as nat, n as nat);
        }
        if work[r][r] != 1 {
            normalize(field, &mut work, &mut inv, r, Ghost(grid(*a)), Ghost(n as nat));
        }
        let mut i: usize = 0;
        while i < n
            invariant
                i <= n,
                r < n,
                n == a.len(),
                tracks(grid(work), grid(inv), grid(*a), n as nat),
                reduced(grid(work), n as nat, r as nat),
                grid(work)[r as int][r as int] == 1,
                forall|k: int| 0 <= k < i && k != r ==> (#[trigger] grid(work)[k])[r as int] == 0,
            decreases n - i,
        {
            proof {
                lemma_row_lengths(work, n as nat, n as nat);
            }
            if i != r && work[i][r] != 0 {
                eliminate(field, &mut work, &mut inv, i, r, Ghost(grid(*a)), Ghost(n as nat));
            }
            i += 1;
        }
        proof {
            lemma_column_done(grid(work), n as nat, r as nat);
        }
        r += 1;
    }
    proof {
        assert(grid(work) =~~= identity(n as nat));
        lemma_tracks_identity(grid(inv), grid(*a), n as nat);
    }
    Ok(inv)
}

} // verus!
