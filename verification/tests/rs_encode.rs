use rand::rngs::StdRng;
use rand::SeedableRng;
use stir::domain::EvaluationDomain;
use stir::encode::ReedSolomonCode;
use stir::field::Fp;
use stir::polynomial::UnivariatePoly;

#[test]
fn encode_zero_polynomial_gives_zero_codeword() {
    let log_n = 3;
    let n = 1 << log_n;
    let domain = EvaluationDomain::new_subgroup(log_n);
    let code = ReedSolomonCode::new(domain, 4);
    let codeword = code.encode(&UnivariatePoly::zero());
    assert_eq!(codeword, vec![Fp::zero(); n]);
}

#[test]
fn encode_constant_polynomial_gives_constant_codeword() {
    let log_n = 3;
    let n = 1 << log_n;
    let domain = EvaluationDomain::new_subgroup(log_n);
    let code = ReedSolomonCode::new(domain, 4);
    let c = Fp::new(42);
    let message = UnivariatePoly::new(vec![c]);
    let codeword = code.encode(&message);
    assert_eq!(codeword, vec![c; n]);
}

#[test]
fn encode_matches_encode_naive() {
    let log_n = 3;
    let mut rng = StdRng::seed_from_u64(0xE9C0DE_5EED);
    let coeffs: Vec<Fp> = (0..4).map(|_| Fp::random(&mut rng)).collect();
    let message = UnivariatePoly::new(coeffs);
    let domain = EvaluationDomain::new_subgroup(log_n);
    let code = ReedSolomonCode::new(domain, 4);
    let codeword = code.encode(&message);
    let naive_codeword = code.encode_naive(&message);
    assert_eq!(codeword, naive_codeword);
}

#[test]
fn encode_codeword_has_expected_length() {
    let log_n = 3;
    let mut rng = StdRng::seed_from_u64(0xCAFE_DEAD);
    let coeffs: Vec<Fp> = (0..4).map(|_| Fp::random(&mut rng)).collect();
    let message = UnivariatePoly::new(coeffs);
    let domain = EvaluationDomain::new_subgroup(log_n);
    let code = ReedSolomonCode::new(domain, 4);
    let codeword = code.encode(&message);
    assert_eq!(codeword.len(), code.domain().size());
}

#[test]
fn encode_linear_polynomial_on_coset() {
    let domain = EvaluationDomain::new_coset(2, Fp::new(3));
    let code = ReedSolomonCode::new(domain.clone(), 2);
    let message = UnivariatePoly::new(vec![Fp::new(1), Fp::new(1)]);
    let codeword = code.encode(&message);
    for i in 0..4 {
        assert_eq!(codeword[i], Fp::one() + domain.element(i));
    }
    assert_eq!(code.codeword_len(), 4);
    assert_eq!(code.degree_bound(), 2);
}

#[test]
fn random_elements_are_reduced() {
    let mut rng = StdRng::seed_from_u64(7);
    for _ in 0..100 {
        let x = Fp::random(&mut rng);
        assert!(x.as_u64() < stir::field::MODULUS);
    }
}
