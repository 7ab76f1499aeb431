use sumcheck::field::Fp;
use sumcheck::hypercube::bit_decompose;

#[test]
fn it_works() {
    let result = 2 + 2;
    assert_eq!(result, 4);
}

#[test]
fn bit_decompose_low_bits_first() {
    let bits = bit_decompose(6, 3);
    assert_eq!(bits.len(), 3);
    assert_eq!(bits[0], Fp::zero());
    assert_eq!(bits[1], Fp::one());
    assert_eq!(bits[2], Fp::one());
}

#[test]
fn bit_decompose_pads_to_width() {
    let bits = bit_decompose(5, 4);
    assert_eq!(
        bits,
        vec![Fp::one(), Fp::zero(), Fp::one(), Fp::zero()]
    );
}

#[test]
fn bit_decompose_zero_width() {
    let bits = bit_decompose(7, 0);
    assert_eq!(bits.len(), 0);
}
