//! Arithmetic in GF(2^8), the field of 256 elements obtained from the
//! polynomials over GF(2) modulo x^8 + x^4 + x^3 + x^2 + 1.

use crate::error::Error;
use crate::galois_proofs::{
    lemma_div, lemma_generates, lemma_generator_mod, lemma_log_unique, lemma_mul_identity,
    lemma_mul_two, lemma_pow_add, lemma_pow_mul,
};
use vstd::arithmetic::div_mod::lemma_mul_mod_noop_right;
use vstd::prelude::*;

verus! {

/// Multiplication by the generator x: a shift, reduced by the field polynomial.
pub open spec fn xtime(a: u8) -> u8 {
    if a & 0x80 == 0 {
        a << 1
    } else {
        (a << 1) ^ 0x1d
    }
}

/// `a` if bit `k` of `b` is set, zero otherwise.
pub open spec fn pick(a: u8, b: u8, k: u8) -> u8 {
    if (b >> k) & 1 == 1 {
        a
    } else {
        0
    }
}

/// The product in GF(2^8): the product of the polynomials `a` and `b`,
/// reduced by the field polynomial. It is the sum of `a` times x to
/// the power `k`, over the bits `k` that are set in `b`.
pub open spec fn gf_mul(a: u8, b: u8) -> u8 {
    let a1 = xtime(a);
    let a2 = xtime(a1);
    let a3 = xtime(a2);
    let a4 = xtime(a3);
    let a5 = xtime(a4);
    let a6 = xtime(a5);
    let a7 = xtime(a6);
    pick(a, b, 0) ^ pick(a1, b, 1) ^ pick(a2, b, 2) ^ pick(a3, b, 3) ^ pick(a4, b, 4) ^ pick(
        a5,
        b,
        5,
    ) ^ pick(a6, b, 6) ^ pick(a7, b, 7)
}

/// The sum in GF(2^8): addition of polynomials over GF(2), coefficient by coefficient.
pub open spec fn gf_add(a: u8, b: u8) -> u8 {
    a ^ b
}

/// `a` raised to the power `n`, with `gf_pow(a, 0) == 1` for every `a`.
pub open spec fn gf_pow(a: u8, n: nat) -> u8
    decreases n,
{
    if n == 0 {
        1
    } else {
        gf_mul(a, gf_pow(a, (n - 1) as nat))
    }
}

/// The logarithm of a nonzero element to the base x: the exponent
/// below 255 to which x is raised to give `a`. There is exactly one.
pub open spec fn gf_log(a: u8) -> nat {
    choose|k: nat| k < 255 && gf_pow(2, k) == a
}

/// The quotient in GF(2^8): the element whose product with `b` is `a`.
/// Exactly one such element exists when `b` is not zero.
pub open spec fn gf_div(a: u8, b: u8) -> u8 {
    choose|c: u8| gf_mul(c, b) == a
}

/// The logarithm and antilogarithm tables of the field, to the base x.
/// They are filled once, by `new`, and only read afterwards.
pub struct Gf256 {
    exp: Vec<u8>,
    log: Vec<u8>,
}

fn times_two(a: u8) -> (r: u8)
    ensures
        r == xtime(a),
{
    if a & 0x80 == 0 {
        a << 1
    } else {
        (a << 1) ^ 0x1d
    }
}

impl Gf256 {
    #[verifier::type_invariant]
    spec fn wf(&self) -> bool {
        &&& self.exp.len() == 256
        &&& self.log.len() == 256
        &&& forall|i: int| 0 <= i < 256 ==> #[trigger] self.exp[i] == gf_pow(2, i as nat)
        &&& forall|a: int|
            1 <= a < 256 ==> (#[trigger] self.log[a]) < 255 && self.exp[self.log[a] as int] == a
    }

    /// The table of antilogarithms: entry `i` is the `i`-th power of x.
    pub closed spec fn exp_table(&self) -> Seq<u8> {
        self.exp@
    }

    /// The table of logarithms: entry `a` is the logarithm of `a`,
    /// for every `a` but zero, which has none.
    pub closed spec fn log_table(&self) -> Seq<u8> {
        self.log@
    }

    /// Fills both tables, of 256 entries each, from the powers of the generator.
    pub fn new() -> (field: Gf256)
        ensures
            field.exp_table().len() == 256,
            field.log_table().len() == 256,
            forall|i: int| 0 <= i < 256 ==> #[trigger] field.exp_table()[i] == gf_pow(2, i as nat),
            forall|a: int| 1 <= a < 256 ==> #[trigger] field.log_table()[a] == gf_log(a as u8),
    {
        let mut exp: Vec<u8> = vec![0u8; 256];
        let mut log: Vec<u8> = vec![0u8; 256];
        let mut x: u8 = 1;
        let mut i: usize = 0;
        while i < 255
            invariant
                i <= 255,
                exp.len() == 256,
                log.len() == 256,
                x == gf_pow(2, i as nat),
                forall|k: int| 0 <= k < i ==> #[trigger] exp[k] == gf_pow(2, k as nat),
                forall|k: nat|
                    k < i ==> log[(#[trigger] gf_pow(2, k)) as int] < i && exp[log[gf_pow(
                        2,
                        k,
                    ) as int] as int] == gf_pow(2, k),
            decreases 255 - i,
        {
            exp.set(i, x);
            log.set(x as usize, i as u8);
            proof {
                lemma_mul_two(x);
                assert(gf_pow(2, (i + 1) as nat) == gf_mul(2, gf_pow(2, i as nat)));
            }
            x = times_two(x);
            i += 1;
        }
        exp.set(255, x);
        proof {
            assert forall|a: int| 1 <= a < 256 implies (#[trigger] log[a]) < 255 
                && exp[log[a] as int] == a by {
                lemma_generates(a as u8);
                let k = choose|k: nat| k < 255 && gf_pow(2, k) == a as u8;
                assert(log[gf_pow(2, k) as int] < 255);
            }
            assert forall|a: int| 1 <= a < 256 implies #[trigger] log[a] == gf_log(a as u8) by {
                assert(log[a] < 255 && exp[log[a] as int] == a);
                lemma_log_unique(a as u8, log[a] as nat);
            }
        }
        Gf256 { exp, log }
    }

    /// The sum of two field elements.
    pub fn add(&self, a: u8, b: u8) -> (r: u8)
        ensures
            r == gf_add(a, b),
    {
        a ^ b
    }

    /// The difference of two field elements, which in this field is their sum.
    pub fn sub(&self, a: u8, b: u8) -> (r: u8)
        ensures
            r == gf_add(a, b),
    {
        a ^ b
    }

    /// The product of two field elements, by adding their logarithms.
    pub fn mul(&self, a: u8, b: u8) -> (r: u8)
        ensures
            r == gf_mul(a, b),
    {
        proof {
            use_type_invariant(self);
            lemma_mul_identity(a);
            lemma_mul_identity(b);
        }
        if a == 0 || b == 0 {
            return 0;
        }
        let la: usize = self.log[a as usize] as usize;
        let lb: usize = self.log[b as usize] as usize;
        let s: usize = la + lb;
        let idx: usize = if s >= 255 {
            s - 255
        } else {
            s
        };
        proof {
            assert(self.exp[la as int] == gf_pow(2, la as nat));
            assert(self.exp[lb as int] == gf_pow(2, lb as nat));
            lemma_pow_add(2, la as nat, lb as nat);
            lemma_generator_mod(s as nat);
            assert(self.exp[idx as int] == gf_pow(2, idx as nat));
        }
        self.exp[idx]
    }

    /// The quotient of two field elements, by subtracting their logarithms.
    /// Succeeds exactly when the divisor is not zero.
    pub fn div(&self, a: u8, b: u8) -> (r: Result<u8, Error>)
        ensures
            match r {
                Ok(q) => b != 0 && q == gf_div(a, b),
                Err(e) => b == 0 && e == Error::DivisionByZero,
            },
    {
        if b == 0 {
            Err(Error::DivisionByZero)
        } else {
            Ok(self.quotient(a, b))
        }
    }

    /// The quotient by a divisor that is known not to be zero.
    pub(crate) fn quotient(&self, a: u8, b: u8) -> (r: u8)
        requires
            b != 0,
        ensures
            r == gf_div(a, b),
    {
        proof {
            use_type_invariant(self);
            lemma_div(a, b);
            lemma_mul_identity(b);
        }
        if a == 0 {
            return 0;
        }
        let la: usize = self.log[a as usize] as usize;
        let lb: usize = self.log[b as usize] as usize;
        let s: usize = la + 255 - lb;
        let idx: usize = if s >= 255 {
            s - 255
        } else {
            s
        };
        proof {
            assert(self.exp[la as int] == gf_pow(2, la as nat));
            assert(self.exp[lb as int] == gf_pow(2, lb as nat));
            assert(self.exp[idx as int] == gf_pow(2, idx as nat));
            lemma_pow_add(2, idx as nat, lb as nat);
            lemma_generator_mod((idx + lb) as nat);
            assert(gf_mul(self.exp[idx as int], b) == a);
        }
        self.exp[idx]
    }

    /// The `n`-th power of a field element; the power zero is one for every element.
    pub fn pow(&self, a: u8, n: usize) -> (r: u8)
        ensures
            r == gf_pow(a, n as nat),
    {
        proof {
            use_type_invariant(self);
        }
        if n == 0 {
            return 1;
        }
        if a == 0 {
            proof {
                lemma_mul_identity(gf_pow(a, (n - 1) as nat));
            }
            return 0;
        }
        let la: usize = self.log[a as usize] as usize;
        assert(la * (n % 255) <= 255 * 255) by (nonlinear_arith)
            requires
                la < 255,
                n % 255 < 255,
        ;
        let idx: usize = (la * (n % 255)) % 255;
        proof {
            assert(self.exp[la as int] == gf_pow(2, la as nat));
            assert(self.exp[idx as int] == gf_pow(2, idx as nat));
            lemma_pow_mul(2, la as nat, n as nat);
            lemma_generator_mod((la * n) as nat);
            lemma_mul_mod_noop_right(la as int, n as int, 255);
        }
        self.exp[idx]
    }
}

} // verus!
