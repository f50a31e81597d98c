use stir::degree_correction::{combine, deg_cor, eval_g_r, poly_deg_cor};
use stir::domain::EvaluationDomain;
use stir::field::Fp;
use stir::polynomial::UnivariatePoly;

#[test]
fn deg_cor_with_r_zero_is_identity() {
    let domain = EvaluationDomain::new_subgroup(3);
    let evals: Vec<Fp> = (1..=8).map(Fp::new).collect();
    let result = deg_cor(&evals, &domain, 5, Fp::zero());
    assert_eq!(result, evals, "r = 0 ⇒ g_r ≡ 1 ⇒ deg_cor is identity");
}

#[test]
fn deg_cor_with_e_zero_returns_input() {
    let domain = EvaluationDomain::new_subgroup(3);
    let evals: Vec<Fp> = (1..=8).map(Fp::new).collect();
    let result = deg_cor(&evals, &domain, 0, Fp::new(13));
    assert_eq!(result, evals, "e = 0 ⇒ g_r ≡ 1 ⇒ deg_cor is identity");
}

#[test]
fn combine_with_r_zero_returns_first() {
    let a = vec![Fp::new(10), Fp::new(20), Fp::new(30), Fp::new(40)];
    let b = vec![Fp::new(7), Fp::new(11), Fp::new(13), Fp::new(17)];
    let out = combine(&a, &b, Fp::zero());
    assert_eq!(out, a);
}

#[test]
fn combine_with_r_one_is_pointwise_sum() {
    let a = vec![Fp::new(10), Fp::new(20), Fp::new(30), Fp::new(40)];
    let b = vec![Fp::new(7), Fp::new(11), Fp::new(13), Fp::new(17)];
    let out_one = combine(&a, &b, Fp::one());
    for j in 0..a.len() {
        assert_eq!(out_one[j], a[j] + b[j], "mismatch at j = {}", j);
    }
    let out_five = combine(&a, &b, Fp::new(5));
    assert_eq!(out_five[0], Fp::new(45));
    assert_eq!(out_five[1], Fp::new(20) + Fp::new(5) * Fp::new(11));
}

#[test]
fn poly_deg_cor_with_e_zero_is_identity() {
    let p = UnivariatePoly::new(vec![Fp::new(7), Fp::new(11), Fp::new(13)]);
    let out = poly_deg_cor(&p, 0, Fp::new(99));
    assert_eq!(out, p);
}

#[test]
fn poly_deg_cor_matches_hand_computed_convolution() {
    let f = UnivariatePoly::new(vec![Fp::one(), Fp::one()]);
    let out = poly_deg_cor(&f, 2, Fp::new(3));
    let expected = UnivariatePoly::new(vec![Fp::new(1), Fp::new(4), Fp::new(12), Fp::new(9)]);
    assert_eq!(out, expected);
    assert_eq!(out.degree(), Some(3));
}

#[test]
fn poly_deg_cor_matches_eval_form_on_domain() {
    let domain = EvaluationDomain::new_subgroup(3);
    let f = UnivariatePoly::new(vec![Fp::new(2), Fp::new(5), Fp::new(11), Fp::new(7)]);
    let r = Fp::new(13);
    let e = 3usize;
    let evals: Vec<Fp> = (0..domain.size()).map(|j| f.evaluate(domain.element(j))).collect();
    let evals_corrected = deg_cor(&evals, &domain, e, r);
    let f_corrected = poly_deg_cor(&f, e, r);
    let poly_corrected_on_domain: Vec<Fp> =
        (0..domain.size()).map(|j| f_corrected.evaluate(domain.element(j))).collect();
    assert_eq!(evals_corrected, poly_corrected_on_domain);
}

#[test]
fn eval_g_r_matches_direct_sum_on_domain() {
    let domain = EvaluationDomain::new_subgroup(3);
    let r = Fp::new(13);
    let e = 4usize;
    for j in 0..domain.size() {
        let x = domain.element(j);
        let got = eval_g_r(r, x, e);
        let rx = r * x;
        let mut expected = Fp::zero();
        let mut pow = Fp::one();
        for _ in 0..=e {
            expected = expected + pow;
            pow = pow * rx;
        }
        assert_eq!(got, expected, "g_r mismatch at L[{j}]");
    }
}

#[test]
fn eval_g_r_lhopital_branch_when_rx_is_one() {
    let r = Fp::new(7);
    let x = r.inverse().expect("7 ≠ 0 in Goldilocks");
    assert_eq!(r * x, Fp::one());
    for &e in &[0usize, 1, 2, 5] {
        let got = eval_g_r(r, x, e);
        assert_eq!(got, Fp::new((e as u64) + 1), "L'Hôpital branch must return e + 1 (e = {e})");
    }
}

#[test]
fn deg_cor_closed_form_matches_direct_sum() {
    let domain = EvaluationDomain::new_subgroup(3);
    let ones = vec![Fp::one(); domain.size()];
    let alpha = Fp::new(3);
    let e = 3usize;
    let got = deg_cor(&ones, &domain, e, alpha);
    for j in 0..domain.size() {
        let x = domain.element(j);
        let rx = alpha * x;
        let mut expected = Fp::zero();
        let mut pow = Fp::one();
        for _ in 0..=e {
            expected = expected + pow;
            pow = pow * rx;
        }
        assert_eq!(got[j], expected, "g_r mismatch at L[{}] = {:?}", j, x);
    }
}

#[test]
fn eval_g_r_with_e_one_is_one_plus_rx() {
    let r = Fp::new(2);
    let x = Fp::new(5);
    assert_eq!(eval_g_r(r, x, 1), Fp::new(11));
}
