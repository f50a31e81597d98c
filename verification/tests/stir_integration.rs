use stir::field::Fp;
use stir::params::StirParams;
use stir::polynomial::UnivariatePoly;
use stir::protocol::run_stir_with_verification;
use stir::prover::StirProver;
use stir::stir_proof::StirProof;
use stir::stir_verifier::StirVerifier;
use stir::transcript::Transcript;

const STIR_DOMAIN_SEPARATOR: &[u8] = b"stir-protocol-v0";

fn demo_params() -> StirParams {
    StirParams::new(6, 16, 4)
        .with_security_bits(32)
        .with_ood_samples(1)
        .with_stopping_degree(4)
        .with_repetition_schedule(vec![8, 4, 2])
}

fn demo_polynomial() -> UnivariatePoly {
    let coeffs: Vec<Fp> = (1u64..=16).map(Fp::new).collect();
    UnivariatePoly::new(coeffs)
}

fn reverify(params: &StirParams, proof: &StirProof) -> bool {
    let verifier = StirVerifier::new(params.clone());
    let mut transcript = Transcript::new(STIR_DOMAIN_SEPARATOR);
    verifier.verify(proof, &mut transcript).is_ok()
}

#[test]
fn honest_prover_accepts() {
    let params = demo_params();
    let poly = demo_polynomial();
    let result = run_stir_with_verification(params, poly);
    assert!(
        matches!(result, Ok((_, true))),
        "honest run must produce Ok((_, true)); got {:?}",
        result.as_ref().map(|(_, ok)| *ok).map_err(|e| *e),
    );
}

#[test]
fn rejects_high_degree_polynomial() {
    let params = StirParams::new(6, 16, 4);
    let coeffs: Vec<Fp> = (1u64..=18).map(Fp::new).collect();
    let poly = UnivariatePoly::new(coeffs);
    let result = run_stir_with_verification(params, poly);
    let not_accepted = match result {
        Ok((_, accepted)) => !accepted,
        Err(_) => true,
    };
    assert!(not_accepted, "high-degree polynomial must not be accepted by the verifier");
}

#[test]
fn rejects_tampered_merkle_path() {
    let params = demo_params();
    let poly = demo_polynomial();
    let prover = StirProver::new(params.clone(), poly);
    let mut prover_transcript = Transcript::new(STIR_DOMAIN_SEPARATOR);
    let mut proof = prover.prove(&mut prover_transcript);
    assert!(reverify(&params, &proof), "honest proof must verify");
    assert!(!proof.merkle_paths[0][0][0].siblings.is_empty(), "expected non-empty sibling vector");
    proof.merkle_paths[0][0][0].siblings[0][0] ^= 0xFF;
    assert!(!reverify(&params, &proof), "verifier must reject after a Merkle-sibling byte flip");
}

#[test]
fn rejects_tampered_ood_reply() {
    let params = demo_params();
    let poly = demo_polynomial();
    let prover = StirProver::new(params.clone(), poly);
    let mut prover_transcript = Transcript::new(STIR_DOMAIN_SEPARATOR);
    let mut proof = prover.prove(&mut prover_transcript);
    assert!(reverify(&params, &proof), "honest proof must verify");
    proof.ood_replies[0][0] = proof.ood_replies[0][0] + Fp::one();
    assert!(!reverify(&params, &proof), "verifier must reject after an OOD-reply mutation");
}

#[test]
fn rejects_wrong_final_polynomial_degree() {
    let params = demo_params();
    let poly = demo_polynomial();
    let prover = StirProver::new(params.clone(), poly);
    let mut prover_transcript = Transcript::new(STIR_DOMAIN_SEPARATOR);
    let mut proof = prover.prove(&mut prover_transcript);
    assert!(reverify(&params, &proof), "honest proof must verify");
    let stopping_degree = params.stopping_degree;
    let mut high_coeffs = vec![Fp::zero(); stopping_degree + 1];
    high_coeffs[stopping_degree] = Fp::new(7);
    proof.final_polynomial = UnivariatePoly::new(high_coeffs);
    assert!(!reverify(&params, &proof), "verifier must reject when final_polynomial.degree() >= stopping_degree");
}

#[test]
fn rejects_wrong_final_polynomial_consistency() {
    let params = demo_params();
    let poly = demo_polynomial();
    let prover = StirProver::new(params.clone(), poly);
    let mut prover_transcript = Transcript::new(STIR_DOMAIN_SEPARATOR);
    let mut proof = prover.prove(&mut prover_transcript);
    assert!(reverify(&params, &proof), "honest proof must verify");
    let candidate = UnivariatePoly::new(vec![Fp::new(42), Fp::new(13)]);
    let new_final = if proof.final_polynomial.coeffs() == candidate.coeffs() {
        UnivariatePoly::new(vec![Fp::new(99), Fp::new(7)])
    } else {
        candidate
    };
    proof.final_polynomial = new_final;
    assert!(!reverify(&params, &proof), "verifier must reject when final_polynomial disagrees with the folded last-round interpolant");
}
