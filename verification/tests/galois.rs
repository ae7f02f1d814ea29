use erasure_engine::error::Error;
use erasure_engine::galois::Gf256;

#[test]
fn add_is_xor() {
    let f = Gf256::new();
    assert_eq!(f.add(0x53, 0xca), 0x99);
    assert_eq!(f.add(7, 7), 0);
    assert_eq!(f.add(0, 200), 200);
    assert_eq!(f.sub(0x53, 0xca), 0x99);
}

#[test]
fn mul_known_values() {
    let f = Gf256::new();
    assert_eq!(f.mul(2, 128), 29);
    assert_eq!(f.mul(3, 7), 9);
    assert_eq!(f.mul(0, 77), 0);
    assert_eq!(f.mul(77, 0), 0);
    assert_eq!(f.mul(1, 77), 77);
    assert_eq!(f.mul(255, 255), 226);
}

#[test]
fn mul_is_shift_and_reduce() {
    // The product by the polynomial definition, without tables.
    fn slow(mut a: u8, mut b: u8) -> u8 {
        let mut r = 0u8;
        while b != 0 {
            if b & 1 == 1 {
                r ^= a;
            }
            let high = a & 0x80 != 0;
            a <<= 1;
            if high {
                a ^= 0x1d;
            }
            b >>= 1;
        }
        r
    }
    let f = Gf256::new();
    for a in 0..=255u8 {
        for b in 0..=255u8 {
            assert_eq!(f.mul(a, b), slow(a, b));
        }
    }
}

#[test]
fn div_known_values() {
    let f = Gf256::new();
    assert_eq!(f.div(1, 2), Ok(142));
    assert_eq!(f.div(0, 9), Ok(0));
    assert_eq!(f.div(29, 2), Ok(128));
    assert_eq!(f.div(9, 7), Ok(3));
}

#[test]
fn div_by_zero_fails() {
    let f = Gf256::new();
    assert_eq!(f.div(5, 0), Err(Error::DivisionByZero));
    assert_eq!(f.div(0, 0), Err(Error::DivisionByZero));
}

#[test]
fn div_undoes_mul() {
    let f = Gf256::new();
    for a in 0..=255u8 {
        for b in 1..=255u8 {
            assert_eq!(f.div(f.mul(a, b), b), Ok(a));
        }
    }
}

#[test]
fn pow_known_values() {
    let f = Gf256::new();
    assert_eq!(f.pow(2, 0), 1);
    assert_eq!(f.pow(0, 0), 1);
    assert_eq!(f.pow(0, 5), 0);
    assert_eq!(f.pow(2, 8), 29);
    assert_eq!(f.pow(2, 255), 1);
    assert_eq!(f.pow(3, 2), 5);
    assert_eq!(f.pow(7, 1_000_000), f.pow(7, 1_000_000 % 255));
}

#[test]
fn pow_is_repeated_mul() {
    let f = Gf256::new();
    for a in 0..=255u8 {
        let mut acc = 1u8;
        for n in 0..20usize {
            assert_eq!(f.pow(a, n), acc);
            acc = f.mul(acc, a);
        }
    }
}

#[test]
fn field_laws_on_samples() {
    let f = Gf256::new();
    for a in (0..=255u8).step_by(7) {
        for b in (0..=255u8).step_by(11) {
            assert_eq!(f.mul(a, b), f.mul(b, a));
            for c in (0..=255u8).step_by(13) {
                assert_eq!(f.mul(f.mul(a, b), c), f.mul(a, f.mul(b, c)));
                assert_eq!(f.mul(a, f.add(b, c)), f.add(f.mul(a, b), f.mul(a, c)));
            }
        }
    }
}

#[test]
fn agrees_with_reed_solomon_erasure_field() {
    let f = Gf256::new();
    for a in 0..=255u8 {
        for b in 0..=255u8 {
            assert_eq!(f.add(a, b), reed_solomon_erasure::galois_8::add(a, b));
            assert_eq!(f.mul(a, b), reed_solomon_erasure::galois_8::mul(a, b));
            if b != 0 {
                assert_eq!(f.div(a, b), Ok(reed_solomon_erasure::galois_8::div(a, b)));
            }
        }
        for n in 0..300usize {
            assert_eq!(f.pow(a, n), reed_solomon_erasure::galois_8::exp(a, n));
        }
    }
}
