use std::collections::HashSet;
use stir::domain::EvaluationDomain;
use stir::field::Fp;
use stir::ood::{evaluate_at, sample_ood_points, verifier_interpolant};
use stir::polynomial::UnivariatePoly;
use stir::transcript::Transcript;

#[test]
fn ood_points_are_outside_forbidden_domain_and_distinct() {
    let domain = EvaluationDomain::new_subgroup(4);
    let mut transcript = Transcript::new(b"ood-test-seed");
    let count: u32 = 4;
    let ood = sample_ood_points(&mut transcript, count, &domain);
    assert_eq!(ood.len(), count as usize, "must return exactly `count` points");
    let forbidden: HashSet<u64> = (0..domain.size()).map(|i| domain.element(i).as_u64()).collect();
    for (i, r) in ood.iter().enumerate() {
        assert!(!forbidden.contains(&r.as_u64()), "OOD point #{i} = {} landed in forbidden domain", r.as_u64());
    }
    let unique: HashSet<u64> = ood.iter().map(|x| x.as_u64()).collect();
    assert_eq!(unique.len(), ood.len(), "OOD points must be pairwise distinct by construction");
}

#[test]
fn evaluate_at_matches_polynomial_evaluate() {
    let poly = UnivariatePoly::new(vec![Fp::new(1), Fp::new(2), Fp::new(3)]);
    for &x in &[0u64, 1, 2, 5, 100, 1_000_000_007] {
        let point = Fp::new(x);
        assert_eq!(evaluate_at(&poly, point), poly.evaluate(point), "evaluate_at must match UnivariatePoly::evaluate at {x}");
    }
}

#[test]
fn interpolant_passes_through_all_inputs() {
    let ood_points = [Fp::new(101), Fp::new(102), Fp::new(103)];
    let ood_replies = [Fp::new(7), Fp::new(9), Fp::new(11)];
    let shift_points = [Fp::new(50), Fp::new(60), Fp::new(70), Fp::new(80), Fp::new(90)];
    let shift_answers = [Fp::new(3), Fp::new(5), Fp::new(13), Fp::new(17), Fp::new(19)];
    let p = verifier_interpolant(&ood_points, &ood_replies, &shift_points, &shift_answers);
    for (i, (&x, &y)) in ood_points.iter().zip(ood_replies.iter()).enumerate() {
        assert_eq!(p.evaluate(x), y, "OOD pair #{i} ({},{}) not on interpolant", x.as_u64(), y.as_u64());
    }
    for (j, (&x, &y)) in shift_points.iter().zip(shift_answers.iter()).enumerate() {
        assert_eq!(p.evaluate(x), y, "shift pair #{j} ({},{}) not on interpolant", x.as_u64(), y.as_u64());
    }
    match p.degree() {
        None => panic!("interpolant is zero polynomial; impossible for 8 nonzero y's"),
        Some(d) => assert!(d < 8, "degree must be < 8, got {d}"),
    }
}

#[test]
fn sample_ood_points_is_deterministic() {
    let domain = EvaluationDomain::new_subgroup(4);
    let mut t1 = Transcript::new(b"determinism-test");
    t1.absorb(b"round-0-merkle-root-placeholder");
    let a = sample_ood_points(&mut t1, 4, &domain);
    let mut t2 = Transcript::new(b"determinism-test");
    t2.absorb(b"round-0-merkle-root-placeholder");
    let b = sample_ood_points(&mut t2, 4, &domain);
    assert_eq!(a.len(), b.len());
    for (i, (x, y)) in a.iter().zip(b.iter()).enumerate() {
        assert_eq!(x.as_u64(), y.as_u64(), "OOD sample #{i} diverges between identical transcripts");
    }
}

#[test]
fn zero_ood_samples_leave_nothing() {
    let domain = EvaluationDomain::new_subgroup(3);
    let mut t = Transcript::new(b"none");
    assert!(sample_ood_points(&mut t, 0, &domain).is_empty());
}
