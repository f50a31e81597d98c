use stir::domain::EvaluationDomain;
use stir::field::Fp;
use stir::interpolate::lagrange_interpolate;
use stir::polynomial::UnivariatePoly;
use stir::quotient::{poly_quotient, quotient};

fn vanishing_poly(points: &[(Fp, Fp)]) -> UnivariatePoly {
    let mut v = UnivariatePoly::one();
    for &(x_i, _) in points {
        v = v * UnivariatePoly::new(vec![-x_i, Fp::one()]);
    }
    v
}

#[test]
fn worked_example_x_squared_plus_one() {
    let p = UnivariatePoly::new(vec![Fp::one(), Fp::zero(), Fp::one()]);
    let points = [(Fp::new(0), Fp::new(1)), (Fp::new(1), Fp::new(2))];
    let q = poly_quotient(&p, &points);
    assert_eq!(q, UnivariatePoly::new(vec![Fp::one()]));
    assert_eq!(q.degree(), Some(0));
}

#[test]
fn quotient_of_codeword_through_one_point() {
    let f = UnivariatePoly::new(vec![Fp::new(1), Fp::new(2), Fp::new(3), Fp::new(4)]);
    let domain = EvaluationDomain::new_subgroup(3);
    let x_0 = Fp::new(99);
    let y_0 = f.evaluate(x_0);
    let points = [(x_0, y_0)];
    let evals: Vec<Fp> = (0..domain.size()).map(|i| f.evaluate(domain.element(i))).collect();
    let evals_quot = quotient(&evals, &domain, &points);
    let poly_quot = poly_quotient(&f, &points);
    let poly_quot_on_domain: Vec<Fp> = (0..domain.size()).map(|i| poly_quot.evaluate(domain.element(i))).collect();
    assert_eq!(evals_quot, poly_quot_on_domain);
    assert_eq!(poly_quot.degree(), Some(2));
}

#[test]
fn poly_quotient_no_remainder_when_constraint_consistent() {
    let f = UnivariatePoly::new(vec![Fp::new(1), Fp::new(2), Fp::new(3), Fp::new(4)]);
    let x_1 = Fp::new(5);
    let x_2 = Fp::new(7);
    let points = [(x_1, f.evaluate(x_1)), (x_2, f.evaluate(x_2))];
    let q = poly_quotient(&f, &points);
    assert_eq!(q.degree(), Some(1));
    let v_s = vanishing_poly(&points);
    let p_s = lagrange_interpolate(&points);
    let reconstructed = q.clone() * v_s + p_s;
    assert_eq!(reconstructed, f);
}

#[test]
fn quotient_lowers_degree_by_constraint_count() {
    let f = UnivariatePoly::new(vec![
        Fp::new(1),
        Fp::new(2),
        Fp::new(3),
        Fp::new(5),
        Fp::new(7),
        Fp::new(11),
        Fp::new(13),
        Fp::new(17),
    ]);
    assert_eq!(f.degree(), Some(7));
    let xs = [Fp::new(20), Fp::new(21), Fp::new(22)];
    let points: Vec<(Fp, Fp)> = xs.iter().map(|&x| (x, f.evaluate(x))).collect();
    let q = poly_quotient(&f, &points);
    assert_eq!(q.degree(), Some(4));
}

#[test]
fn worked_example_identity_holds() {
    let p = UnivariatePoly::new(vec![Fp::one(), Fp::zero(), Fp::one()]);
    let points = [(Fp::new(0), Fp::new(1)), (Fp::new(1), Fp::new(2))];
    let l_s = lagrange_interpolate(&points);
    let v_s = vanishing_poly(&points);
    let diff = p.clone() - l_s.clone();
    for &(x_i, _) in &points {
        assert_eq!(diff.evaluate(x_i), Fp::zero());
    }
    let q = poly_quotient(&p, &points);
    let reconstructed = q * v_s + l_s;
    assert_eq!(reconstructed, p);
}

#[test]
fn quotient_table_value_by_hand() {
    // f = X + 1 through (2, 3): quotient by (X - 2) is the constant 1.
    let domain = EvaluationDomain::new_subgroup(2);
    let evals: Vec<Fp> = (0..4).map(|i| domain.element(i) + Fp::one()).collect();
    let q = quotient(&evals, &domain, &[(Fp::new(2), Fp::new(3))]);
    assert_eq!(q, vec![Fp::one(); 4]);
}

#[test]
fn poly_quotient_degree_drops_exactly_by_the_point_count() {
    let f = UnivariatePoly::new((1u64..=6).map(Fp::new).collect());
    let points: Vec<(Fp, Fp)> = [11u64, 13, 17].iter().map(|&x| (Fp::new(x), f.evaluate(Fp::new(x)))).collect();
    let q = poly_quotient(&f, &points);
    assert_eq!(q.degree(), Some(2));
    let short = UnivariatePoly::new(vec![Fp::new(1), Fp::new(2)]);
    let pts: Vec<(Fp, Fp)> = [3u64, 4].iter().map(|&x| (Fp::new(x), short.evaluate(Fp::new(x)))).collect();
    assert_eq!(poly_quotient(&short, &pts).degree(), None);
}
