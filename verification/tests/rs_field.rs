use stir::field::{Fp, MODULUS, TWO_ADICITY};

#[test]
fn modulus_constant_is_correct() {
    let expected: u128 = (1u128 << 64) - (1u128 << 32) + 1;
    assert_eq!(MODULUS as u128, expected);
}

#[test]
fn zero_is_additive_identity() {
    assert_eq!(Fp::zero() + Fp::new(42), Fp::new(42));
}

#[test]
fn one_is_multiplicative_identity() {
    assert_eq!(Fp::one() * Fp::new(42), Fp::new(42));
}

#[test]
fn field_add_then_sub_is_identity() {
    assert_eq!((Fp::new(42) + Fp::new(13)) - Fp::new(13), Fp::new(42));
}

#[test]
fn negation_is_additive_inverse() {
    assert_eq!(Fp::new(42) + (-Fp::new(42)), Fp::zero());
}

#[test]
fn inverse_round_trip() {
    assert_eq!(Fp::new(42) * Fp::new(42).inverse().unwrap(), Fp::one());
}

#[test]
fn pow_zero_is_one() {
    assert_eq!(Fp::new(42).pow(0), Fp::one());
    assert_eq!(Fp::zero().pow(0), Fp::one());
}

#[test]
fn pow_matches_repeated_multiplication() {
    assert_eq!(Fp::new(2).pow(4), Fp::new(2) * Fp::new(2) * Fp::new(2) * Fp::new(2));
    assert_eq!(Fp::new(3).pow(3), Fp::new(3) * Fp::new(3) * Fp::new(3));
}

#[test]
fn primitive_root_of_unity_squares_to_one_at_log_n_one() {
    assert_eq!(Fp::primitive_root_of_unity(1), Fp::new(MODULUS - 1));
    assert_eq!(Fp::primitive_root_of_unity(1).pow(2), Fp::one());
    assert_ne!(Fp::primitive_root_of_unity(1), Fp::one());
}

#[test]
fn primitive_root_of_unity_has_correct_order() {
    assert_eq!(Fp::primitive_root_of_unity(4).pow(16), Fp::one());
    assert_eq!(Fp::primitive_root_of_unity(4).pow(8), -Fp::one());
}

#[test]
fn primitive_root_of_unity_at_two_adicity_works() {
    assert_eq!(Fp::primitive_root_of_unity(TWO_ADICITY).pow(1u64 << 32), Fp::one());
    assert_eq!(Fp::primitive_root_of_unity(TWO_ADICITY).pow(1u64 << 31), -Fp::one());
}

#[test]
fn new_reduces_modulo_p() {
    assert_eq!(Fp::new(MODULUS), Fp::zero());
    assert_eq!(Fp::new(MODULUS + 5), Fp::new(5));
    assert_eq!(Fp::new(u64::MAX).as_u64(), u64::MAX - MODULUS);
}

#[test]
fn subtraction_wraps_below_zero() {
    assert_eq!(Fp::new(1) - Fp::new(2), Fp::new(MODULUS - 1));
    assert_eq!((Fp::new(MODULUS - 1) + Fp::new(2)).as_u64(), 1);
}

#[test]
fn inverse_of_zero_is_none() {
    assert_eq!(Fp::zero().inverse(), None);
    let x = Fp::new(123456789);
    assert_eq!(x * x.inverse().unwrap(), Fp::one());
}

#[test]
fn multiplication_reduces_large_products() {
    let a = Fp::new(MODULUS - 1);
    assert_eq!(a * a, Fp::one());
}

#[test]
fn from_word_keeps_exactly_the_canonical_words() {
    assert_eq!(Fp::from_word(5), Some(Fp::new(5)));
    assert_eq!(Fp::from_word(MODULUS - 1), Some(Fp::new(MODULUS - 1)));
    assert_eq!(Fp::from_word(MODULUS), None);
    assert_eq!(Fp::from_word(u64::MAX), None);
}
