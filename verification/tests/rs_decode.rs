use stir::decode::{decode_berlekamp_welch, decode_via_interpolation};
use stir::domain::EvaluationDomain;
use stir::encode::ReedSolomonCode;
use stir::field::Fp;
use stir::polynomial::UnivariatePoly;

#[test]
fn decode_round_trip() {
    let domain = EvaluationDomain::new_subgroup(3);
    let code = ReedSolomonCode::new(domain.clone(), 3);
    let original = UnivariatePoly::new(vec![Fp::new(1), Fp::new(2), Fp::new(3)]);
    let codeword = code.encode(&original);
    let recovered = decode_via_interpolation(&codeword, &domain, 3);
    assert_eq!(recovered, original);
}

#[test]
fn decode_after_zero_polynomial() {
    let domain = EvaluationDomain::new_subgroup(3);
    let code = ReedSolomonCode::new(domain.clone(), 3);
    let codeword = code.encode(&UnivariatePoly::zero());
    let recovered = decode_via_interpolation(&codeword, &domain, 3);
    assert_eq!(recovered, UnivariatePoly::zero());
}

#[test]
fn berlekamp_welch_corrects_one_error() {
    let domain = EvaluationDomain::new_subgroup(4);
    let code = ReedSolomonCode::new(domain.clone(), 4);
    let original = UnivariatePoly::new(vec![Fp::new(7), Fp::new(11), Fp::new(13), Fp::new(17)]);
    let codeword = code.encode(&original);
    let mut received = codeword.clone();
    received[5] = received[5] + Fp::new(42);
    let recovered = decode_berlekamp_welch(&received, &domain, 4)
        .expect("BW should succeed with 1 error (within radius 6)");
    assert_eq!(recovered, original);
}

#[test]
fn berlekamp_welch_fails_beyond_radius() {
    let domain = EvaluationDomain::new_subgroup(4);
    let code = ReedSolomonCode::new(domain.clone(), 4);
    let original = UnivariatePoly::new(vec![Fp::new(1), Fp::new(2), Fp::new(3), Fp::new(4)]);
    let codeword = code.encode(&original);
    let mut received = codeword;
    for i in 0..7 {
        received[i] = received[i] + Fp::new((i + 1) as u64 * 100);
    }
    let result = decode_berlekamp_welch(&received, &domain, 4);
    assert!(result.is_err(), "BW should fail when 7 errors are injected (radius is 6)");
}

#[test]
fn berlekamp_welch_on_clean_codeword_returns_message() {
    let domain = EvaluationDomain::new_subgroup(3);
    let code = ReedSolomonCode::new(domain.clone(), 2);
    let original = UnivariatePoly::new(vec![Fp::new(5), Fp::new(9)]);
    let codeword = code.encode(&original);
    let recovered = decode_berlekamp_welch(&codeword, &domain, 2).expect("no errors");
    assert_eq!(recovered, original);
}

#[test]
fn decode_via_interpolation_recovers_high_coefficients() {
    let domain = EvaluationDomain::new_subgroup(2);
    let code = ReedSolomonCode::new(domain.clone(), 4);
    let original = UnivariatePoly::new(vec![Fp::new(1), Fp::new(0), Fp::new(0), Fp::new(8)]);
    let codeword = code.encode(&original);
    assert_eq!(decode_via_interpolation(&codeword, &domain, 4), original);
}

#[test]
fn berlekamp_welch_corrects_errors_up_to_the_radius() {
    let domain = EvaluationDomain::new_subgroup(4);
    let code = ReedSolomonCode::new(domain.clone(), 4);
    let original = UnivariatePoly::new(vec![Fp::new(3), Fp::new(1), Fp::new(4), Fp::new(1)]);
    let codeword = code.encode(&original);
    let mut received = codeword;
    for i in [1usize, 3, 6, 8, 11, 15] {
        received[i] = received[i] + Fp::new(1000 + i as u64);
    }
    let recovered = decode_berlekamp_welch(&received, &domain, 4).expect("6 errors are within radius 6");
    assert_eq!(recovered, original);
}

#[test]
fn berlekamp_welch_with_full_degree_bound_accepts_any_word() {
    let domain = EvaluationDomain::new_subgroup(2);
    let received = vec![Fp::new(4), Fp::new(8), Fp::new(15), Fp::new(16)];
    let recovered = decode_berlekamp_welch(&received, &domain, 4).expect("radius 0, every word is a codeword");
    let code = ReedSolomonCode::new(domain.clone(), 4);
    assert_eq!(code.encode(&recovered), received);
}

#[test]
fn solve_linear_system_on_empty_matrix_is_empty_solution() {
    let matrix: Vec<Vec<Fp>> = Vec::new();
    let rhs: Vec<Fp> = Vec::new();
    assert_eq!(stir::decode::solve_linear_system(&matrix, &rhs), Some(Vec::new()));
}

#[test]
fn poly_divmod_identity_holds_on_coefficients() {
    let dividend = UnivariatePoly::new(vec![Fp::new(3), Fp::new(1), Fp::new(4), Fp::new(1), Fp::new(5), Fp::new(9)]);
    let divisor = UnivariatePoly::new(vec![Fp::new(2), Fp::new(7), Fp::new(1)]);
    let (q, r) = stir::decode::poly_divmod(&dividend, &divisor);
    assert_eq!(q.degree(), Some(3));
    assert!(r.coeffs().len() < 3);
    let back = q * divisor + UnivariatePoly::new(r.coeffs().to_vec());
    assert_eq!(back, dividend);
}
