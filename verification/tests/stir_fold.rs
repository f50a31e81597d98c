use rand::SeedableRng;
use stir::domain::EvaluationDomain;
use stir::fft::fft_on_domain;
use stir::field::Fp;
use stir::fold::{fold, poly_fold};
use stir::polynomial::UnivariatePoly;

#[test]
fn poly_fold_of_constant_equals_constant() {
    let c = UnivariatePoly::new(vec![Fp::new(42)]);
    let folded = poly_fold(&c, 4, Fp::new(99));
    assert_eq!(folded, c);
}

#[test]
fn fold_matches_poly_fold_on_evaluations() {
    let log_n = 4;
    let n: usize = 1 << log_n;
    let domain = EvaluationDomain::new_subgroup(log_n);
    let mut rng = rand::rngs::StdRng::seed_from_u64(0xF01D_F01D);
    let coeffs: Vec<Fp> = (0..8).map(|_| Fp::random(&mut rng)).collect();
    let mut padded = coeffs.clone();
    padded.resize(n, Fp::zero());
    let poly_padded = UnivariatePoly::from_coeffs_unstripped(padded.clone());
    let poly = UnivariatePoly::new(coeffs);
    let evals = fft_on_domain(&padded, &domain);
    let k: u32 = 2;
    let alpha = Fp::new(13);
    let folded_evals = fold(&evals, k, alpha, &domain);
    let m = n / k as usize;
    let folded_poly = poly_fold(&poly, k, alpha);
    assert_eq!(folded_evals.len(), m);
    for j in 0..m {
        let x = domain.element(j);
        let x_to_k = x.pow(k as u64);
        assert_eq!(folded_evals[j], folded_poly.evaluate(x_to_k), "mismatch at fibre representative L[{j}] (x^k = {:?})", x_to_k);
    }
    for j in 0..n {
        assert_eq!(evals[j], poly_padded.evaluate(domain.element(j)));
    }
}

#[test]
fn fold_with_alpha_zero_returns_first_row_only() {
    let f = UnivariatePoly::new(vec![Fp::new(1), Fp::new(2), Fp::new(3), Fp::new(4)]);
    let folded_k2 = poly_fold(&f, 2, Fp::zero());
    assert_eq!(folded_k2, UnivariatePoly::new(vec![Fp::new(1), Fp::new(3)]));
    let folded_k4 = poly_fold(&f, 4, Fp::zero());
    assert_eq!(folded_k4, UnivariatePoly::new(vec![Fp::new(1)]));
}

#[test]
fn fold_twice_matches_fold_once_with_combined_randomness() {
    let log_n = 4;
    let n: usize = 1 << log_n;
    let domain = EvaluationDomain::new_subgroup(log_n);
    let mut rng = rand::rngs::StdRng::seed_from_u64(0x70A57_B33F);
    let coeffs: Vec<Fp> = (0..n).map(|_| Fp::random(&mut rng)).collect();
    let poly = UnivariatePoly::from_coeffs_unstripped(coeffs.clone());
    let evals = fft_on_domain(&coeffs, &domain);
    let alpha = Fp::new(11);
    let beta = Fp::new(29);
    let log_n2 = log_n - 1;
    let domain2 = EvaluationDomain::new_subgroup(log_n2);
    let folded_once = fold(&evals, 2, alpha, &domain);
    assert_eq!(folded_once.len(), domain2.size());
    let folded_twice = fold(&folded_once, 2, beta, &domain2);
    assert_eq!(folded_twice.len(), 4);
    let poly_folded_once = poly_fold(&poly, 2, alpha);
    let poly_folded_twice = poly_fold(&poly_folded_once, 2, beta);
    let log_n4 = log_n - 2;
    let domain4 = EvaluationDomain::new_subgroup(log_n4);
    for j in 0..domain4.size() {
        let y = domain4.element(j);
        assert_eq!(folded_twice[j], poly_folded_twice.evaluate(y), "fold-twice mismatch at L^4[{j}] = {:?}", y);
    }
}

#[test]
fn poly_fold_worked_example() {
    let f = UnivariatePoly::new(vec![Fp::new(1), Fp::new(2), Fp::new(3), Fp::new(4)]);
    let folded = poly_fold(&f, 2, Fp::new(5));
    assert_eq!(folded, UnivariatePoly::new(vec![Fp::new(11), Fp::new(23)]));
    assert_eq!(folded.degree(), Some(1));
}

#[test]
fn poly_fold_degree_is_bounded_by_input_over_k() {
    let mut rng = rand::rngs::StdRng::seed_from_u64(0xDEAD_BEEF);
    for &(d, k) in &[(8usize, 2u32), (12, 4), (16, 4), (15, 2), (1, 4)] {
        let coeffs: Vec<Fp> = (0..d).map(|_| Fp::random(&mut rng)).collect();
        let p = UnivariatePoly::new(coeffs);
        let alpha = Fp::random(&mut rng);
        let folded = poly_fold(&p, k, alpha);
        let row_len = (d + k as usize - 1) / (k as usize);
        if let Some(fd) = folded.degree() {
            assert!(fd < row_len, "deg(folded) = {fd} not < ⌈d/k⌉ = {row_len} (d = {d}, k = {k})");
        }
    }
}

#[test]
fn fold_of_constant_table_is_constant() {
    let domain = EvaluationDomain::new_subgroup(3);
    let evals = vec![Fp::new(5); 8];
    let folded = fold(&evals, 4, Fp::new(3), &domain);
    assert_eq!(folded, vec![Fp::new(5); 2]);
}
