use rand::rngs::StdRng;
use rand::SeedableRng;
use stir::field::Fp;
use stir::interpolate::{lagrange_interpolate, scalar_mul};
use stir::polynomial::UnivariatePoly;

#[test]
fn interpolate_constant() {
    assert_eq!(lagrange_interpolate(&[(Fp::new(5), Fp::new(7))]), UnivariatePoly::new(vec![Fp::new(7)]));
}

#[test]
fn interpolate_linear() {
    assert_eq!(
        lagrange_interpolate(&[(Fp::new(0), Fp::new(1)), (Fp::new(1), Fp::new(3))]),
        UnivariatePoly::new(vec![Fp::new(1), Fp::new(2)])
    );
}

#[test]
fn interpolate_x_squared() {
    assert_eq!(
        lagrange_interpolate(&[(Fp::new(1), Fp::new(1)), (Fp::new(2), Fp::new(4)), (Fp::new(3), Fp::new(9))]),
        UnivariatePoly::new(vec![Fp::zero(), Fp::zero(), Fp::one()])
    );
}

#[test]
fn interpolate_recovers_random_polynomial() {
    let mut rng = StdRng::seed_from_u64(42);
    let coefficients: Vec<Fp> = (0..6).map(|_| Fp::random(&mut rng)).collect();
    let p = UnivariatePoly::new(coefficients);
    let points: Vec<(Fp, Fp)> = (1..=6u64)
        .map(|i| {
            let x = Fp::new(i);
            (x, p.evaluate(x))
        })
        .collect();
    assert_eq!(lagrange_interpolate(&points), p);
}

#[test]
fn scalar_mul_by_zero_is_zero() {
    let r = scalar_mul(&UnivariatePoly::new(vec![Fp::new(1), Fp::new(2)]), Fp::zero());
    assert_eq!(r, UnivariatePoly::zero());
}

#[test]
fn scalar_mul_scales_each_coefficient() {
    let r = scalar_mul(&UnivariatePoly::new(vec![Fp::new(1), Fp::new(2)]), Fp::new(3));
    assert_eq!(r, UnivariatePoly::new(vec![Fp::new(3), Fp::new(6)]));
}

#[test]
fn interpolant_of_zero_values_is_zero() {
    let r = lagrange_interpolate(&[(Fp::new(1), Fp::zero()), (Fp::new(2), Fp::zero())]);
    assert!(r.is_zero());
}
