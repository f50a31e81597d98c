use rand::SeedableRng;
use stir::domain::EvaluationDomain;
use stir::fft::{fft_on_domain, fft_subgroup, ifft_on_domain, ifft_subgroup};
use stir::field::Fp;
use stir::polynomial::UnivariatePoly;

#[test]
fn fft_of_constant_polynomial() {
    let c = Fp::new(42);
    let coeffs = vec![c, Fp::zero(), Fp::zero(), Fp::zero()];
    let omega = Fp::primitive_root_of_unity(2);
    let evals = fft_subgroup(&coeffs, omega);
    assert_eq!(evals, vec![c; 4]);
}

#[test]
fn fft_of_x_polynomial() {
    let c = Fp::zero();
    let coeffs = vec![c, Fp::one(), Fp::zero(), Fp::zero()];
    let omega = Fp::primitive_root_of_unity(2);
    let evals = fft_subgroup(&coeffs, omega);
    assert_eq!(evals, vec![Fp::one(), omega, omega.pow(2), omega.pow(3)]);
}

#[test]
fn fft_round_trip_subgroup() {
    let log_n = 3;
    let n = 1 << log_n;
    let mut rng = rand::rngs::StdRng::seed_from_u64(0x5EED_5EED);
    let coeffs: Vec<Fp> = (0..n).map(|_| Fp::random(&mut rng)).collect();
    let omega = Fp::primitive_root_of_unity(log_n);
    let evals = fft_subgroup(&coeffs, omega);
    let recovered = ifft_subgroup(&evals, omega);
    assert_eq!(recovered, coeffs);
}

#[test]
fn fft_round_trip_coset() {
    let log_n = 3;
    let n = 1 << log_n;
    let mut rng = rand::rngs::StdRng::seed_from_u64(0xC05E7_5EED);
    let coeffs: Vec<Fp> = (0..n).map(|_| Fp::random(&mut rng)).collect();
    let offset = Fp::new(7);
    let domain = EvaluationDomain::new_coset(log_n, offset);
    let evals = fft_on_domain(&coeffs, &domain);
    let recovered = ifft_on_domain(&evals, &domain);
    assert_eq!(recovered, coeffs);
}

#[test]
fn fft_matches_naive_evaluation_subgroup() {
    let log_n = 3;
    let n = 1 << log_n;
    let mut rng = rand::rngs::StdRng::seed_from_u64(0xFA57_C0DE);
    let coeffs: Vec<Fp> = (0..n).map(|_| Fp::random(&mut rng)).collect();
    let omega = Fp::primitive_root_of_unity(log_n);
    let poly = UnivariatePoly::from_coeffs_unstripped(coeffs.clone());
    let fast = fft_subgroup(&coeffs, omega);
    let slow: Vec<Fp> = (0..n as u64).map(|i| poly.evaluate(omega.pow(i))).collect();
    assert_eq!(fast, slow);
}

#[test]
fn fft_matches_naive_evaluation_on_coset() {
    let log_n = 3;
    let n: usize = 1 << log_n;
    let mut rng = rand::rngs::StdRng::seed_from_u64(0xC05E7_FA57);
    let coeffs: Vec<Fp> = (0..n).map(|_| Fp::random(&mut rng)).collect();
    let domain = EvaluationDomain::new_coset(log_n, Fp::new(7));
    let poly = UnivariatePoly::from_coeffs_unstripped(coeffs.clone());
    let fast = fft_on_domain(&coeffs, &domain);
    let slow: Vec<Fp> = (0..n).map(|i| poly.evaluate(domain.element(i))).collect();
    assert_eq!(fast, slow);
}

#[test]
fn fft_size_one_is_identity() {
    let coeffs = vec![Fp::new(42)];
    let omega = Fp::one();
    let evals = fft_subgroup(&coeffs, omega);
    assert_eq!(evals, coeffs);
}

#[test]
fn ifft_of_constant_table_is_constant_polynomial() {
    let omega = Fp::primitive_root_of_unity(2);
    let evals = vec![Fp::new(9); 4];
    let coeffs = ifft_subgroup(&evals, omega);
    assert_eq!(coeffs, vec![Fp::new(9), Fp::zero(), Fp::zero(), Fp::zero()]);
}

#[test]
fn fft_after_ifft_gives_the_table_back() {
    let log_n = 3;
    let n = 1 << log_n;
    let mut rng = rand::rngs::StdRng::seed_from_u64(0xF0F0);
    let evals: Vec<Fp> = (0..n).map(|_| Fp::random(&mut rng)).collect();
    let omega = Fp::primitive_root_of_unity(log_n);
    assert_eq!(fft_subgroup(&ifft_subgroup(&evals, omega), omega), evals);
    let domain = EvaluationDomain::new_coset(log_n, Fp::new(7));
    assert_eq!(fft_on_domain(&ifft_on_domain(&evals, &domain), &domain), evals);
}
