use sumcheck::field::{Fp, FIELD_MODULUS};
use sumcheck::sample::random_field_element;

#[test]
fn from_u64_reduces() {
    assert_eq!(Fp::from_u64(FIELD_MODULUS), Fp::zero());
    assert_eq!(Fp::from_u64(FIELD_MODULUS - 1).add(Fp::one()), Fp::zero());
}

#[test]
fn add_wraps_at_modulus() {
    let a = Fp::from_u64(FIELD_MODULUS - 1);
    assert_eq!(a.add(Fp::from_u64(2)), Fp::one());
    assert_eq!(Fp::from_u64(3).add(Fp::from_u64(4)), Fp::from_u64(7));
}

#[test]
fn sub_wraps_below_zero() {
    assert_eq!(Fp::zero().sub(Fp::one()), Fp::from_u64(FIELD_MODULUS - 1));
    assert_eq!(Fp::from_u64(9).sub(Fp::from_u64(4)), Fp::from_u64(5));
}

#[test]
fn mul_reduces() {
    // 2^32 * 2^32 = 2^64 == 2^32 - 1 (mod 2^64 - 2^32 + 1)
    let r = Fp::from_u64(1 << 32).mul(Fp::from_u64(1 << 32));
    assert_eq!(r, Fp::from_u64(4294967295));
    assert_eq!(Fp::from_u64(6).mul(Fp::from_u64(7)), Fp::from_u64(42));
}

#[test]
fn pow_is_iterated_mul() {
    assert_eq!(Fp::from_u64(3).pow(4), Fp::from_u64(81));
    assert_eq!(Fp::from_u64(5).pow(0), Fp::one());
    assert_eq!(Fp::from_u64(2).pow(64), Fp::from_u64(4294967295));
}

#[test]
fn from_random_bytes_accepts_canonical_range_only() {
    // little-endian encoding of the modulus itself: rejected
    let at_modulus: Vec<u8> = vec![1, 0, 0, 0, 255, 255, 255, 255];
    assert_eq!(Fp::from_random_bytes(&at_modulus), None);
    // one below the modulus: accepted
    let below: Vec<u8> = vec![0, 0, 0, 0, 255, 255, 255, 255];
    assert_eq!(
        Fp::from_random_bytes(&below),
        Some(Fp::from_u64(FIELD_MODULUS - 1))
    );
    let zero: Vec<u8> = vec![0, 0, 0, 0, 0, 0, 0, 0];
    assert_eq!(Fp::from_random_bytes(&zero), Some(Fp::zero()));
    let max: Vec<u8> = vec![255, 255, 255, 255, 255, 255, 255, 255];
    assert_eq!(Fp::from_random_bytes(&max), None);
    // not the fixed width: rejected
    let short: Vec<u8> = vec![1, 2, 3];
    assert_eq!(Fp::from_random_bytes(&short), None);
}

#[test]
fn from_random_bytes_is_little_endian() {
    let bytes: Vec<u8> = vec![7, 1, 0, 0, 0, 0, 0, 0];
    assert_eq!(Fp::from_random_bytes(&bytes), Some(Fp::from_u64(263)));
}

#[test]
fn random_field_elements_vary() {
    let a = random_field_element();
    let b = random_field_element();
    let c = random_field_element();
    // three independent uniform draws from a ~2^64 field collide with
    // negligible probability
    assert!(a != b || b != c);
}
