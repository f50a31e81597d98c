use rand::SeedableRng;
use stir::decode::decode_via_interpolation;
use stir::domain::EvaluationDomain;
use stir::encode::ReedSolomonCode;
use stir::field::Fp;
use stir::polynomial::UnivariatePoly;

fn rng() -> rand::rngs::StdRng {
    rand::rngs::StdRng::seed_from_u64(0x_5EED_5EED_5EED_5EED)
}

#[test]
fn encode_decode_round_trip_subgroup() {
    let domain = EvaluationDomain::new_subgroup(4);
    let code = ReedSolomonCode::new(domain.clone(), 4);
    let mut rng = rng();
    let coeffs: Vec<Fp> = (0..4).map(|_| Fp::random(&mut rng)).collect();
    let message = UnivariatePoly::new(coeffs);
    let codeword = code.encode(&message);
    let recovered = decode_via_interpolation(&codeword, &domain, 4);
    assert_eq!(recovered, message);
}

#[test]
fn encode_decode_round_trip_coset() {
    let domain = EvaluationDomain::new_coset(4, Fp::new(7));
    let code = ReedSolomonCode::new(domain.clone(), 4);
    let mut rng = rng();
    let coeffs: Vec<Fp> = (0..4).map(|_| Fp::random(&mut rng)).collect();
    let message = UnivariatePoly::new(coeffs);
    let codeword = code.encode(&message);
    let recovered = decode_via_interpolation(&codeword, &domain, 4);
    assert_eq!(recovered, message);
}

#[test]
fn encode_naive_matches_fft_on_random_inputs() {
    let mut rng = rng();
    let cases: &[(u32, usize)] = &[(3, 2), (3, 4), (4, 3), (4, 8), (5, 6)];
    for &(log_size, degree_bound) in cases {
        let domain = EvaluationDomain::new_subgroup(log_size);
        let code = ReedSolomonCode::new(domain, degree_bound);
        let coeffs: Vec<Fp> = (0..degree_bound).map(|_| Fp::random(&mut rng)).collect();
        let message = UnivariatePoly::new(coeffs);
        let fast = code.encode(&message);
        let slow = code.encode_naive(&message);
        assert_eq!(fast, slow, "FFT and naive encode disagree at (log_size={}, degree_bound={})", log_size, degree_bound);
    }
}

#[test]
fn rate_property_holds() {
    let domain = EvaluationDomain::new_subgroup(3);
    let code = ReedSolomonCode::new(domain, 2);
    assert_eq!(code.rate(), (2, 8));
}

#[test]
fn codeword_length_matches_domain() {
    let domain = EvaluationDomain::new_subgroup(4);
    let code = ReedSolomonCode::new(domain.clone(), 4);
    let message = UnivariatePoly::new(vec![Fp::new(1), Fp::new(2), Fp::new(3), Fp::new(4)]);
    let codeword = code.encode(&message);
    assert_eq!(codeword.len(), domain.size());
}

#[test]
fn decoder_recovers_constant_polynomial() {
    let domain = EvaluationDomain::new_subgroup(3);
    let n = domain.size();
    let code = ReedSolomonCode::new(domain.clone(), 4);
    let c = Fp::new(42);
    let message = UnivariatePoly::new(vec![c]);
    let codeword = code.encode(&message);
    assert_eq!(codeword, vec![c; n]);
    let recovered = decode_via_interpolation(&codeword, &domain, 4);
    assert_eq!(recovered, message);
}
