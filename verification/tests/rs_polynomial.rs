use stir::field::Fp;
use stir::polynomial::UnivariatePoly;

#[test]
fn new_strips_trailing_zeros() {
    assert_eq!(
        UnivariatePoly::new(vec![Fp::new(1), Fp::new(2), Fp::zero(), Fp::zero()]).coeffs(),
        vec![Fp::new(1), Fp::new(2)]
    );
    assert_eq!(UnivariatePoly::new(vec![Fp::new(1), Fp::new(2), Fp::zero(), Fp::zero()]).degree(), Some(1));
}

#[test]
fn zero_polynomial_has_no_degree() {
    assert_eq!(UnivariatePoly::zero().degree(), None);
    assert!(UnivariatePoly::zero().is_zero());
}

#[test]
fn evaluate_constant() {
    assert_eq!(UnivariatePoly::new(vec![Fp::new(7)]).evaluate(Fp::new(1)), Fp::new(7));
    assert_eq!(UnivariatePoly::new(vec![Fp::new(7)]).evaluate(Fp::new(2)), Fp::new(7));
}

#[test]
fn evaluate_linear() {
    assert_eq!(UnivariatePoly::new(vec![Fp::one(), Fp::new(2)]).evaluate(Fp::new(5)), Fp::new(11));
}

#[test]
fn evaluate_matches_horner_worked_example() {
    assert_eq!(UnivariatePoly::new(vec![Fp::one(), Fp::new(2), Fp::new(3)]).evaluate(Fp::new(5)), Fp::new(86));
}

#[test]
fn evaluate_at_zero_is_constant_term() {
    assert_eq!(UnivariatePoly::new(vec![Fp::one(), Fp::new(2), Fp::new(3)]).evaluate(Fp::zero()), Fp::one());
    assert_eq!(UnivariatePoly::new(vec![Fp::one(), Fp::new(10), Fp::new(11)]).evaluate(Fp::zero()), Fp::one());
}

#[test]
fn polynomial_add_then_sub_is_identity() {
    let p = UnivariatePoly::new(vec![Fp::one(), Fp::new(2), Fp::new(3)]);
    let q = UnivariatePoly::new(vec![Fp::one(), Fp::new(10), Fp::new(11)]);
    let result = (p.clone() + q.clone()) - q;
    assert_eq!(result, p);
    assert_eq!(result.coeffs(), &[Fp::one(), Fp::new(2), Fp::new(3)]);
}

#[test]
fn mul_degrees_add() {
    let p = UnivariatePoly::new(vec![Fp::one(), Fp::new(2)]);
    let q = UnivariatePoly::new(vec![Fp::one(), Fp::new(3), Fp::new(4)]);
    let result = p.clone() * q.clone();
    assert_eq!(result.degree(), Some(3));
}

#[test]
fn mul_evaluates_pointwise() {
    let p = UnivariatePoly::new(vec![Fp::one(), Fp::new(2)]);
    let q = UnivariatePoly::new(vec![Fp::one(), Fp::new(3), Fp::new(4)]);
    let x = Fp::new(5);
    let product = p.clone() * q.clone();
    assert_eq!(product.evaluate(x), p.evaluate(x) * q.evaluate(x));
}

#[test]
fn sub_of_equal_polynomials_is_zero() {
    let p = UnivariatePoly::new(vec![Fp::new(4), Fp::new(5)]);
    assert!((p.clone() - p).is_zero());
}

#[test]
fn unstripped_keeps_trailing_zeros() {
    let p = UnivariatePoly::from_coeffs_unstripped(vec![Fp::new(1), Fp::zero()]);
    assert_eq!(p.coeffs().len(), 2);
    assert_eq!(p.evaluate(Fp::new(9)), Fp::new(1));
    assert_eq!(UnivariatePoly::one().evaluate(Fp::new(9)), Fp::one());
}

#[test]
fn product_with_zero_is_zero() {
    let p = UnivariatePoly::new(vec![Fp::new(4), Fp::new(5)]);
    assert!((p * UnivariatePoly::zero()).is_zero());
}
