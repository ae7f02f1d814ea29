//! The field laws of GF(2^8), and the fact that x generates its
//! multiplicative group.

use crate::galois::{gf_add, gf_div, gf_log, gf_mul, gf_pow, pick, xtime};
use vstd::prelude::*;

verus! {

/// The generator applied `n` times to `x`.
spec fn xtimes(x: u8, n: u8) -> u8
    decreases n,
{
    if n == 0 {
        x
    } else {
        xtimes(xtime(x), (n - 1) as u8)
    }
}

/// Whether `a` is among the first `n` elements of the orbit of `x` under the generator.
spec fn reaches(a: u8, x: u8, n: u8) -> bool
    decreases n,
{
    if n == 0 {
        false
    } else {
        x == a || reaches(a, xtime(x), (n - 1) as u8)
    }
}

/// Every nonzero element lies on the orbit of one, which closes after 255 steps.
proof fn lemma_orbit_covers(a: u8)
    by (bit_vector)
    ensures
        a != 0 ==> reaches(a, 1, 255),
        xtimes(1, 255) == 1,
{
}

/// Multiplying by the generator is additive.
proof fn lemma_xtime_linear(a: u8, b: u8)
    by (bit_vector)
    ensures
        xtime(a ^ b) == xtime(a) ^ xtime(b),
        xtime(0) == 0,
{
}

/// Multiplication by a power of the generator commutes.
proof fn lemma_mul_basis(a: u8)
    by (bit_vector)
    ensures
        gf_mul(a, 1) == gf_mul(1, a),
        gf_mul(a, 2) == gf_mul(2, a),
        gf_mul(a, 4) == gf_mul(4, a),
        gf_mul(a, 8) == gf_mul(8, a),
        gf_mul(a, 16) == gf_mul(16, a),
        gf_mul(a, 32) == gf_mul(32, a),
        gf_mul(a, 64) == gf_mul(64, a),
        gf_mul(a, 128) == gf_mul(128, a),
{
}

/// Multiplication is additive in its second argument.
proof fn lemma_mul_distributes(a: u8, b: u8, c: u8)
    by (bit_vector)
    ensures
        gf_mul(a, b ^ c) == gf_mul(a, b) ^ gf_mul(a, c),
{
}

/// Selecting by a bit of `c` is additive, and commutes with the generator.
proof fn lemma_pick_linear(u: u8, v: u8, c: u8, k: u8)
    by (bit_vector)
    ensures
        pick(u ^ v, c, k) == pick(u, c, k) ^ pick(v, c, k),
        xtime(pick(u, c, k)) == pick(xtime(u), c, k),
{
}

/// A sum of sums, taken term by term.
proof fn lemma_xor_interleave(
    u0: u8,
    u1: u8,
    u2: u8,
    u3: u8,
    u4: u8,
    u5: u8,
    u6: u8,
    u7: u8,
    v0: u8,
    v1: u8,
    v2: u8,
    v3: u8,
    v4: u8,
    v5: u8,
    v6: u8,
    v7: u8,
)
    by (bit_vector)
    ensures
        (u0 ^ v0) ^ (u1 ^ v1) ^ (u2 ^ v2) ^ (u3 ^ v3) ^ (u4 ^ v4) ^ (u5 ^ v5) ^ (u6 ^ v6) ^ (u7
            ^ v7) == (u0 ^ u1 ^ u2 ^ u3 ^ u4 ^ u5 ^ u6 ^ u7) ^ (v0 ^ v1 ^ v2 ^ v3 ^ v4 ^ v5 ^ v6
            ^ v7),
{
}

/// Multiplying a sum of eight terms by the generator, term by term.
proof fn lemma_xtime_of_sum(
    u0: u8,
    u1: u8,
    u2: u8,
    u3: u8,
    u4: u8,
    u5: u8,
    u6: u8,
    u7: u8,
)
    by (bit_vector)
    ensures
        xtime(u0 ^ u1 ^ u2 ^ u3 ^ u4 ^ u5 ^ u6 ^ u7) == xtime(u0) ^ xtime(u1) ^ xtime(u2) ^ xtime(
            u3,
        ) ^ xtime(u4) ^ xtime(u5) ^ xtime(u6) ^ xtime(u7),
{
}

/// Multiplication is additive in its first argument.
proof fn lemma_mul_distributes_left(a: u8, b: u8, c: u8)
    ensures
        gf_mul(a ^ b, c) == gf_mul(a, c) ^ gf_mul(b, c),
{
    let a1 = xtime(a);
    let a2 = xtime(a1);
    let a3 = xtime(a2);
    let a4 = xtime(a3);
    let a5 = xtime(a4);
    let a6 = xtime(a5);
    let a7 = xtime(a6);
    let b1 = xtime(b);
    let b2 = xtime(b1);
    let b3 = xtime(b2);
    let b4 = xtime(b3);
    let b5 = xtime(b4);
    let b6 = xtime(b5);
    let b7 = xtime(b6);
    lemma_xtime_linear(a, b);
    lemma_xtime_linear(a1, b1);
    lemma_xtime_linear(a2, b2);
    lemma_xtime_linear(a3, b3);
    lemma_xtime_linear(a4, b4);
    lemma_xtime_linear(a5, b5);
    lemma_xtime_linear(a6, b6);
    lemma_pick_linear(a, b, c, 0);
    lemma_pick_linear(a1, b1, c, 1);
    lemma_pick_linear(a2, b2, c, 2);
    lemma_pick_linear(a3, b3, c, 3);
    lemma_pick_linear(a4, b4, c, 4);
    lemma_pick_linear(a5, b5, c, 5);
    lemma_pick_linear(a6, b6, c, 6);
    lemma_pick_linear(a7, b7, c, 7);
    lemma_xor_interleave(
        pick(a, c, 0),
        pick(a1, c, 1),
        pick(a2, c, 2),
        pick(a3, c, 3),
        pick(a4, c, 4),
        pick(a5, c, 5),
        pick(a6, c, 6),
        pick(a7, c, 7),
        pick(b, c, 0),
        pick(b1, c, 1),
        pick(b2, c, 2),
        pick(b3, c, 3),
        pick(b4, c, 4),
        pick(b5, c, 5),
        pick(b6, c, 6),
        pick(b7, c, 7),
    );
}

/// The generator can be moved out of the first factor.
proof fn lemma_xtime_mul(a: u8, b: u8)
    ensures
        gf_mul(xtime(a), b) == xtime(gf_mul(a, b)),
{
    let a1 = xtime(a);
    let a2 = xtime(a1);
    let a3 = xtime(a2);
    let a4 = xtime(a3);
    let a5 = xtime(a4);
    let a6 = xtime(a5);
    let a7 = xtime(a6);
    lemma_pick_linear(a, a, b, 0);
    lemma_pick_linear(a1, a, b, 1);
    lemma_pick_linear(a2, a, b, 2);
    lemma_pick_linear(a3, a, b, 3);
    lemma_pick_linear(a4, a, b, 4);
    lemma_pick_linear(a5, a, b, 5);
    lemma_pick_linear(a6, a, b, 6);
    lemma_pick_linear(a7, a, b, 7);
    lemma_xtime_of_sum(
        pick(a, b, 0),
        pick(a1, b, 1),
        pick(a2, b, 2),
        pick(a3, b, 3),
        pick(a4, b, 4),
        pick(a5, b, 5),
        pick(a6, b, 6),
        pick(a7, b, 7),
    );
}

/// A byte is the sum of its bits.
proof fn lemma_bit_split(b: u8)
    by (bit_vector)
    ensures
        b == (b & 1) ^ (b & 2) ^ (b & 4) ^ (b & 8) ^ (b & 16) ^ (b & 32) ^ (b & 64) ^ (b & 128),
        b & 1 == 0 || b & 1 == 1,
        b & 2 == 0 || b & 2 == 2,
        b & 4 == 0 || b & 4 == 4,
        b & 8 == 0 || b & 8 == 8,
        b & 16 == 0 || b & 16 == 16,
        b & 32 == 0 || b & 32 == 32,
        b & 64 == 0 || b & 64 == 64,
        b & 128 == 0 || b & 128 == 128,
{
}

/// Multiplication is commutative.
pub proof fn lemma_mul_commutes(a: u8, b: u8)
    ensures
        gf_mul(a, b) == gf_mul(b, a),
{
    let b0 = b & 1;
    let b1 = b & 2;
    let b2 = b & 4;
    let b3 = b & 8;
    let b4 = b & 16;
    let b5 = b & 32;
    let b6 = b & 64;
    let b7 = b & 128;
    lemma_bit_split(b);
    lemma_mul_basis(a);
    lemma_mul_zero(a);
    lemma_mul_distributes(a, b0 ^ b1 ^ b2 ^ b3 ^ b4 ^ b5 ^ b6, b7);
    lemma_mul_distributes(a, b0 ^ b1 ^ b2 ^ b3 ^ b4 ^ b5, b6);
    lemma_mul_distributes(a, b0 ^ b1 ^ b2 ^ b3 ^ b4, b5);
    lemma_mul_distributes(a, b0 ^ b1 ^ b2 ^ b3, b4);
    lemma_mul_distributes(a, b0 ^ b1 ^ b2, b3);
    lemma_mul_distributes(a, b0 ^ b1, b2);
    lemma_mul_distributes(a, b0, b1);
    lemma_mul_distributes_left(b0 ^ b1 ^ b2 ^ b3 ^ b4 ^ b5 ^ b6, b7, a);
    lemma_mul_distributes_left(b0 ^ b1 ^ b2 ^ b3 ^ b4 ^ b5, b6, a);
    lemma_mul_distributes_left(b0 ^ b1 ^ b2 ^ b3 ^ b4, b5, a);
    lemma_mul_distributes_left(b0 ^ b1 ^ b2 ^ b3, b4, a);
    lemma_mul_distributes_left(b0 ^ b1 ^ b2, b3, a);
    lemma_mul_distributes_left(b0 ^ b1, b2, a);
    lemma_mul_distributes_left(b0, b1, a);
}

/// Products with zero and with one.
proof fn lemma_mul_zero(a: u8)
    by (bit_vector)
    ensures
        gf_mul(a, 0) == 0,
        gf_mul(0, a) == 0,
        gf_mul(a, 1) == a,
        gf_mul(1, a) == a,
{
}

/// The generator can be moved out of the second factor.
proof fn lemma_mul_xtime(a: u8, b: u8)
    ensures
        gf_mul(a, xtime(b)) == xtime(gf_mul(a, b)),
{
    lemma_mul_commutes(a, xtime(b));
    lemma_xtime_mul(b, a);
    lemma_mul_commutes(a, b);
}

/// Multiplication is associative.
pub proof fn lemma_mul_associates(a: u8, b: u8, c: u8)
    ensures
        gf_mul(gf_mul(a, b), c) == gf_mul(a, gf_mul(b, c)),
{
    let b1 = xtime(b);
    let b2 = xtime(b1);
    let b3 = xtime(b2);
    let b4 = xtime(b3);
    let b5 = xtime(b4);
    let b6 = xtime(b5);
    let b7 = xtime(b6);
    lemma_mul_xtime(a, b);
    lemma_mul_xtime(a, b1);
    lemma_mul_xtime(a, b2);
    lemma_mul_xtime(a, b3);
    lemma_mul_xtime(a, b4);
    lemma_mul_xtime(a, b5);
    lemma_mul_xtime(a, b6);
    lemma_mul_zero(a);
    let t0 = pick(b, c, 0);
    let t1 = pick(b1, c, 1);
    let t2 = pick(b2, c, 2);
    let t3 = pick(b3, c, 3);
    let t4 = pick(b4, c, 4);
    let t5 = pick(b5, c, 5);
    let t6 = pick(b6, c, 6);
    let t7 = pick(b7, c, 7);
    lemma_mul_distributes(a, t0 ^ t1 ^ t2 ^ t3 ^ t4 ^ t5 ^ t6, t7);
    lemma_mul_distributes(a, t0 ^ t1 ^ t2 ^ t3 ^ t4 ^ t5, t6);
    lemma_mul_distributes(a, t0 ^ t1 ^ t2 ^ t3 ^ t4, t5);
    lemma_mul_distributes(a, t0 ^ t1 ^ t2 ^ t3, t4);
    lemma_mul_distributes(a, t0 ^ t1 ^ t2, t3);
    lemma_mul_distributes(a, t0 ^ t1, t2);
    lemma_mul_distributes(a, t0, t1);
}

/// A product is zero only if a factor is.
pub proof fn lemma_no_zero_divisors(a: u8, b: u8)
    by (bit_vector)
    ensures
        gf_mul(a, b) == 0 ==> a == 0 || b == 0,
{
}

/// The laws of exclusive or, and the product by two.
proof fn lemma_xor_laws(a: u8, b: u8, c: u8)
    by (bit_vector)
    ensures
        a ^ b == b ^ a,
        (a ^ b) ^ c == a ^ (b ^ c),
        a ^ a == 0,
        a ^ 0 == a,
        0 ^ a == a,
        a ^ b == 0 ==> a == b,
        gf_mul(a, 2) == xtime(a),
{
}

/// Addition is commutative and associative, zero is its identity, and
/// every element is its own negative.
pub proof fn lemma_add_laws(a: u8, b: u8, c: u8)
    ensures
        gf_add(a, b) == gf_add(b, a),
        gf_add(gf_add(a, b), c) == gf_add(a, gf_add(b, c)),
        gf_add(a, a) == 0,
        gf_add(a, 0) == a,
        gf_add(0, a) == a,
        gf_add(a, b) == 0 ==> a == b,
{
    lemma_xor_laws(a, b, c);
}

/// Multiplying by the generator is the shift-and-reduce step.
pub proof fn lemma_mul_two(a: u8)
    ensures
        gf_mul(2, a) == xtime(a),
{
    lemma_xor_laws(a, 0, 0);
    lemma_mul_basis(a);
}

/// One is the identity of multiplication, and zero annihilates.
pub proof fn lemma_mul_identity(a: u8)
    ensures
        gf_mul(a, 0) == 0,
        gf_mul(0, a) == 0,
        gf_mul(a, 1) == a,
        gf_mul(1, a) == a,
{
    lemma_mul_zero(a);
}

/// Multiplication distributes over addition, on both sides.
pub proof fn lemma_mul_add(a: u8, b: u8, c: u8)
    ensures
        gf_mul(a, gf_add(b, c)) == gf_add(gf_mul(a, b), gf_mul(a, c)),
        gf_mul(gf_add(b, c), a) == gf_add(gf_mul(b, a), gf_mul(c, a)),
{
    lemma_mul_distributes(a, b, c);
    lemma_mul_distributes_left(b, c, a);
}

/// A product by a nonzero element can be cancelled.
pub proof fn lemma_mul_cancel(x: u8, y: u8, b: u8)
    requires
        b != 0,
        gf_mul(x, b) == gf_mul(y, b),
    ensures
        x == y,
{
    lemma_mul_distributes_left(x, y, b);
    lemma_xor_laws(gf_mul(x, b), gf_mul(y, b), 0);
    lemma_no_zero_divisors(x ^ y, b);
    lemma_xor_laws(x, y, 0);
}

/// Powers add their exponents.
pub proof fn lemma_pow_add(a: u8, m: nat, n: nat)
    ensures
        gf_pow(a, m + n) == gf_mul(gf_pow(a, m), gf_pow(a, n)),
    decreases m,
{
    if m == 0 {
        lemma_mul_zero(gf_pow(a, n));
    } else {
        lemma_pow_add(a, (m - 1) as nat, n);
        assert(gf_pow(a, m + n) == gf_mul(a, gf_pow(a, (m + n - 1) as nat)));
        lemma_mul_associates(a, gf_pow(a, (m - 1) as nat), gf_pow(a, n));
    }
}

/// A power of a power multiplies the exponents.
pub proof fn lemma_pow_mul(a: u8, m: nat, n: nat)
    ensures
        gf_pow(gf_pow(a, m), n) == gf_pow(a, m * n),
    decreases n,
{
    if n == 0 {
        assert(m * n == 0) by (nonlinear_arith)
            requires
                n == 0,
        ;
    } else {
        lemma_pow_mul(a, m, (n - 1) as nat);
        lemma_pow_add(a, m, m * ((n - 1) as nat));
        assert(m + m * ((n - 1) as nat) == m * n) by (nonlinear_arith)
            requires
                n > 0,
        ;
    }
}

/// `n` steps of the generator multiply by its `n`-th power.
proof fn lemma_xtimes_pow(x: u8, n: u8)
    ensures
        xtimes(x, n) == gf_mul(x, gf_pow(2, n as nat)),
    decreases n,
{
    if n == 0 {
        lemma_mul_zero(x);
    } else {
        let m = (n - 1) as u8;
        lemma_xtimes_pow(xtime(x), m);
        lemma_xor_laws(x, 0, 0);
        // xtime(x) * 2^m == (x * 2) * 2^m == x * (2 * 2^m)
        lemma_mul_associates(x, 2, gf_pow(2, m as nat));
        assert(gf_pow(2, n as nat) == gf_mul(2, gf_pow(2, m as nat)));
    }
}

/// An element on the orbit is reached after some number of steps.
proof fn lemma_reaches_witness(a: u8, x: u8, n: u8)
    requires
        reaches(a, x, n),
    ensures
        exists|k: u8| k < n && xtimes(x, k) == a,
    decreases n,
{
    if x == a {
        assert(xtimes(x, 0) == a);
    } else {
        let m = (n - 1) as u8;
        lemma_reaches_witness(a, xtime(x), m);
        let k = choose|k: u8| k < m && xtimes(xtime(x), k) == a;
        let k1 = (k + 1) as u8;
        assert(xtimes(x, k1) == xtimes(xtime(x), k));
    }
}

/// Whether the orbit of `x` under the generator stays away from one for `n` steps.
spec fn avoids_one(x: u8, n: u8) -> bool
    decreases n,
{
    if n == 0 {
        true
    } else {
        xtime(x) != 1 && avoids_one(xtime(x), (n - 1) as u8)
    }
}

/// The orbit of one does not return to one in fewer than 255 steps.
proof fn lemma_orbit_returns_late()
    by (bit_vector)
    ensures
        avoids_one(1, 254),
{
}

/// An orbit that avoids one does so at each of its steps.
proof fn lemma_avoids(x: u8, n: u8, k: u8)
    requires
        avoids_one(x, n),
        1 <= k <= n,
    ensures
        xtimes(x, k) != 1,
    decreases n,
{
    if k > 1 {
        lemma_avoids(xtime(x), (n - 1) as u8, (k - 1) as u8);
    } else {
        assert(xtimes(xtime(x), 0) == xtime(x));
    }
}

/// A power of a nonzero element is not zero.
pub proof fn lemma_pow_nonzero(a: u8, n: nat)
    requires
        a != 0,
    ensures
        gf_pow(a, n) != 0,
    decreases n,
{
    if n > 0 {
        lemma_pow_nonzero(a, (n - 1) as nat);
        lemma_no_zero_divisors(a, gf_pow(a, (n - 1) as nat));
    }
}

/// No power of the generator below the 255th is one.
pub proof fn lemma_generator_order(k: nat)
    requires
        0 < k < 255,
    ensures
        gf_pow(2, k) != 1,
{
    lemma_orbit_returns_late();
    lemma_avoids(1, 254, k as u8);
    lemma_xtimes_pow(1, k as u8);
    lemma_mul_zero(gf_pow(2, k));
}

/// The logarithm of an element is the only exponent below 255 that gives it.
pub proof fn lemma_log_unique(a: u8, k: nat)
    requires
        k < 255,
        gf_pow(2, k) == a,
    ensures
        a != 0,
        gf_log(a) == k,
{
    lemma_pow_nonzero(2, k);
    let l = gf_log(a);
    assert(l < 255 && gf_pow(2, l) == a);
    if l < k {
        lemma_pow_add(2, (k - l) as nat, l);
        lemma_mul_zero(a);
        lemma_mul_cancel(gf_pow(2, (k - l) as nat), 1, a);
        lemma_generator_order((k - l) as nat);
    } else if k < l {
        lemma_pow_add(2, (l - k) as nat, k);
        lemma_mul_zero(a);
        lemma_mul_cancel(gf_pow(2, (l - k) as nat), 1, a);
        lemma_generator_order((l - k) as nat);
    }
}

/// The generator has order 255.
pub proof fn lemma_generator_period()
    ensures
        gf_pow(2, 255) == 1,
{
    lemma_orbit_covers(1);
    lemma_xtimes_pow(1, 255);
    lemma_mul_zero(gf_pow(2, 255));
}

/// Exponents of the generator count modulo 255.
pub proof fn lemma_generator_mod(m: nat)
    ensures
        gf_pow(2, m) == gf_pow(2, m % 255),
    decreases m,
{
    if m >= 255 {
        let r = (m - 255) as nat;
        lemma_generator_mod(r);
        lemma_pow_add(2, 255, r);
        lemma_generator_period();
        lemma_mul_zero(gf_pow(2, r));
        assert(255 + r == m);
        assert(gf_pow(2, m) == gf_pow(2, r));
        assert(m % 255 == r % 255);
    } else {
        assert(m % 255 == m);
    }
}

/// Every nonzero element is a power of the generator.
pub proof fn lemma_generates(a: u8)
    requires
        a != 0,
    ensures
        exists|k: nat| k < 255 && gf_pow(2, k) == a,
{
    lemma_orbit_covers(a);
    lemma_reaches_witness(a, 1, 255);
    let k = choose|k: u8| k < 255 && xtimes(1, k) == a;
    lemma_xtimes_pow(1, k);
    lemma_mul_zero(gf_pow(2, k as nat));
    assert(gf_pow(2, k as nat) == a);
}

/// Every nonzero element has a reciprocal.
pub proof fn lemma_inverse_exists(b: u8)
    requires
        b != 0,
    ensures
        exists|c: u8| gf_mul(c, b) == 1,
{
    lemma_generates(b);
    let k = choose|k: nat| k < 255 && gf_pow(2, k) == b;
    let c = gf_pow(2, (255 - k) as nat);
    lemma_pow_add(2, (255 - k) as nat, k);
    lemma_generator_period();
    assert(gf_mul(c, b) == 1);
}

/// The quotient by a nonzero element is the one element whose product
/// with the divisor is the dividend.
pub proof fn lemma_div(a: u8, b: u8)
    requires
        b != 0,
    ensures
        gf_mul(gf_div(a, b), b) == a,
        forall|c: u8| gf_mul(c, b) == a ==> c == gf_div(a, b),
{
    lemma_inverse_exists(b);
    let r = choose|c: u8| gf_mul(c, b) == 1;
    lemma_mul_associates(a, r, b);
    lemma_mul_zero(a);
    assert(gf_mul(gf_mul(a, r), b) == a);
    assert forall|c: u8| gf_mul(c, b) == a implies c == gf_div(a, b) by {
        lemma_mul_cancel(c, gf_div(a, b), b);
    }
}

} // verus!
