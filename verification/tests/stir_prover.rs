use stir::field::Fp;
use stir::params::StirParams;
use stir::polynomial::UnivariatePoly;
use stir::prover::StirProver;
use stir::transcript::Transcript;

fn demo_params() -> StirParams {
    StirParams::new(6, 16, 4)
}

fn demo_polynomial() -> UnivariatePoly {
    let coeffs: Vec<Fp> = (1u64..=15).map(Fp::new).collect();
    UnivariatePoly::new(coeffs)
}

#[test]
fn prover_constructs_with_valid_params() {
    let params = demo_params();
    let poly = demo_polynomial();
    let prover = StirProver::new(params.clone(), poly.clone());
    assert_eq!(prover.params.num_rounds, params.num_rounds);
    assert_eq!(prover.params.initial_degree_bound, params.initial_degree_bound);
    assert_eq!(prover.params.folding_factor, params.folding_factor);
    assert_eq!(prover.initial_polynomial.degree(), poly.degree(), "stored polynomial must match input");
    assert_eq!(prover.stir_domain.num_rounds(), params.num_rounds as usize);
}

#[test]
fn prove_produces_proof_with_correct_round_count() {
    let params = demo_params();
    let poly = demo_polynomial();
    let prover = StirProver::new(params.clone(), poly);
    let mut transcript = Transcript::new(b"stir-prover-round-count-test");
    let proof = prover.prove(&mut transcript);
    let m = params.num_rounds as usize;
    let k = params.folding_factor as usize;
    assert_eq!(proof.round_commitments.len(), m);
    assert_eq!(proof.ood_replies.len(), m);
    assert_eq!(proof.shift_answers.len(), m);
    assert_eq!(proof.merkle_paths.len(), m);
    assert_eq!(proof.merkle_opened_leaves.len(), m);
    for i in 0..m {
        assert_eq!(proof.ood_replies[i].len(), params.ood_samples as usize);
        let t_i = params.repetition_schedule[i] as usize;
        assert_eq!(proof.shift_answers[i].len(), t_i);
        assert_eq!(proof.merkle_paths[i].len(), t_i);
        assert_eq!(proof.merkle_opened_leaves[i].len(), t_i);
        for q in 0..t_i {
            assert_eq!(proof.shift_answers[i][q].len(), k);
            assert_eq!(proof.merkle_paths[i][q].len(), k);
            assert_eq!(proof.merkle_opened_leaves[i][q].len(), k);
        }
    }
    assert!(proof.pow_nonces.is_empty());
}

#[test]
fn prove_final_polynomial_has_low_degree() {
    let params = demo_params();
    let poly = demo_polynomial();
    let prover = StirProver::new(params.clone(), poly);
    let mut transcript = Transcript::new(b"stir-prover-final-degree-test");
    let proof = prover.prove(&mut transcript);
    let stopping_degree = params.stopping_degree;
    match proof.final_polynomial.degree() {
        None => {}
        Some(d) => assert!(d < stopping_degree, "final polynomial degree {d} must be < stopping_degree {stopping_degree}"),
    }
}

#[test]
fn honest_commitments_have_round_domain_sizes() {
    let params = demo_params();
    let prover = StirProver::new(params.clone(), demo_polynomial());
    let mut transcript = Transcript::new(b"sizes");
    let proof = prover.prove(&mut transcript);
    assert_eq!(proof.round_commitments[0].tree_size, 64);
    assert_eq!(proof.round_commitments[1].tree_size, 32);
    for i in 0..2 {
        for q in 0..proof.shift_answers[i].len() {
            assert_eq!(proof.merkle_opened_leaves[i][q], proof.shift_answers[i][q]);
        }
    }
}

#[test]
fn check_prover_params_accepts_demo_and_refuses_overlong_round_chain() {
    assert!(stir::prover::check_prover_params(&StirParams::new(6, 16, 4)));
    assert!(stir::prover::check_prover_params(&StirParams::new(6, 32, 4)));
    let long = StirParams::new(6, 16, 4)
        .with_num_rounds(6)
        .with_repetition_schedule(vec![1, 1, 1, 1, 1, 1, 1]);
    assert!(long.validate().is_ok());
    assert!(!stir::prover::check_prover_params(&long));
    let prover = StirProver::new(long, UnivariatePoly::zero());
    assert_eq!(prover.stir_domain.round_domains.len(), 7);
}
