use stir::commitment::StirCommitment;
use stir::field::Fp;
use stir::merkle::{MerklePath, MerkleRoot};
use stir::params::StirParams;
use stir::polynomial::UnivariatePoly;
use stir::protocol::run_stir;
use stir::stir_proof::StirProof;
use stir::stir_verifier::StirVerifier;
use stir::transcript::Transcript;

fn empty_shape_proof(params: &StirParams) -> StirProof {
    let num_rounds = params.num_rounds as usize;
    let s = params.ood_samples as usize;
    let k = params.folding_factor as usize;
    let round_commitments: Vec<StirCommitment> = (0..num_rounds)
        .map(|i| StirCommitment {
            root: MerkleRoot([0u8; 32]),
            tree_size: 1usize << params.round_log_domain_size(i as u32),
        })
        .collect();
    let ood_replies: Vec<Vec<Fp>> = (0..num_rounds).map(|_| vec![Fp::zero(); s]).collect();
    let shift_answers: Vec<Vec<Vec<Fp>>> = (0..num_rounds)
        .map(|i| (0..params.repetition_schedule[i] as usize).map(|_| vec![Fp::zero(); k]).collect())
        .collect();
    let merkle_paths: Vec<Vec<Vec<MerklePath>>> = (0..num_rounds)
        .map(|i| {
            (0..params.repetition_schedule[i] as usize)
                .map(|q| (0..k).map(|j| MerklePath { siblings: Vec::new(), leaf_index: q * k + j }).collect())
                .collect()
        })
        .collect();
    let merkle_opened_leaves: Vec<Vec<Vec<Fp>>> = (0..num_rounds)
        .map(|i| (0..params.repetition_schedule[i] as usize).map(|_| vec![Fp::zero(); k]).collect())
        .collect();
    StirProof {
        round_commitments,
        ood_replies,
        shift_answers,
        merkle_paths,
        merkle_opened_leaves,
        final_polynomial: UnivariatePoly::zero(),
        pow_nonces: Vec::new(),
    }
}

#[test]
fn verifier_rejects_proof_with_wrong_round_count() {
    let params = StirParams::new(6, 16, 4);
    assert_eq!(params.num_rounds, 2);
    let mut proof = empty_shape_proof(&params);
    proof.round_commitments.truncate(1);
    let verifier = StirVerifier::new(params);
    let mut transcript = Transcript::new(b"stir-protocol-v0");
    let result = verifier.verify(&proof, &mut transcript);
    assert!(result.is_err(), "verifier must reject a proof with the wrong round count");
    assert!(result.unwrap_err().contains("round_commitments"), "unexpected error message");
}

#[test]
fn verifier_rejects_tampered_merkle_path() {
    let params = StirParams::new(6, 16, 4);
    let mut coeffs = vec![Fp::zero(); params.initial_degree_bound];
    for (i, c) in coeffs.iter_mut().enumerate() {
        *c = Fp::new((i as u64) + 1);
    }
    let polynomial = UnivariatePoly::new(coeffs);
    let mut proof = run_stir(params.clone(), polynomial).expect("honest run_stir must succeed");
    {
        let verifier = StirVerifier::new(params.clone());
        let mut t = Transcript::new(b"stir-protocol-v0");
        verifier.verify(&proof, &mut t).expect("honest proof must verify");
    }
    assert!(!proof.merkle_paths[0][0][0].siblings.is_empty(), "expected non-empty Merkle path for |L_0| > 1");
    proof.merkle_paths[0][0][0].siblings[0][0] ^= 0xFF;
    let verifier = StirVerifier::new(params);
    let mut t = Transcript::new(b"stir-protocol-v0");
    let result = verifier.verify(&proof, &mut t);
    assert!(result.is_err(), "verifier must reject a proof with a tampered Merkle path");
}

#[test]
fn verifier_rejects_wrong_final_polynomial() {
    let params = StirParams::new(6, 16, 4);
    let coeffs: Vec<Fp> = (0..params.initial_degree_bound).map(|i| Fp::new((i as u64) + 1)).collect();
    let polynomial = UnivariatePoly::new(coeffs);
    let mut proof = run_stir(params.clone(), polynomial).expect("honest run_stir must succeed");
    {
        let verifier = StirVerifier::new(params.clone());
        let mut t = Transcript::new(b"stir-protocol-v0");
        verifier.verify(&proof, &mut t).expect("honest proof must verify");
    }
    let new_final = if proof.final_polynomial.evaluate(Fp::one()) == Fp::new(42) {
        UnivariatePoly::new(vec![Fp::new(43)])
    } else {
        UnivariatePoly::new(vec![Fp::new(42)])
    };
    proof.final_polynomial = new_final;
    let verifier = StirVerifier::new(params);
    let mut t = Transcript::new(b"stir-protocol-v0");
    let result = verifier.verify(&proof, &mut t);
    assert!(result.is_err(), "verifier must reject a proof with a substituted final polynomial");
}

#[test]
fn verifier_reports_first_shape_violation() {
    let params = StirParams::new(6, 16, 4);
    let mut proof = empty_shape_proof(&params);
    proof.pow_nonces.push(1);
    let verifier = StirVerifier::new(params.clone());
    let mut t = Transcript::new(b"stir-protocol-v0");
    assert_eq!(verifier.verify(&proof, &mut t), Err("STIR: pow_nonces must be empty in this implementation"));
    let mut proof = empty_shape_proof(&params);
    proof.shift_answers[1][0].pop();
    let mut t = Transcript::new(b"stir-protocol-v0");
    assert_eq!(verifier.verify(&proof, &mut t), Err("STIR: shift_answers[i][q].len() != folding_factor"));
}

#[test]
fn verifier_rejects_mismatched_tree_size() {
    let params = StirParams::new(6, 16, 4);
    let mut proof = empty_shape_proof(&params);
    proof.round_commitments[0].tree_size = 63;
    let verifier = StirVerifier::new(params);
    let mut t = Transcript::new(b"stir-protocol-v0");
    assert_eq!(verifier.verify(&proof, &mut t), Err("STIR: commitment.tree_size mismatch with params"));
}

#[test]
fn verifier_rejects_forged_openings() {
    let params = StirParams::new(6, 16, 4);
    let proof = empty_shape_proof(&params);
    let verifier = StirVerifier::new(params);
    let mut t = Transcript::new(b"stir-protocol-v0");
    assert_eq!(verifier.verify(&proof, &mut t), Err("STIR: Merkle path failed to verify"));
}

fn query_free_proof(final_polynomial: UnivariatePoly) -> StirProof {
    let sc = |n: usize| StirCommitment { root: MerkleRoot([0u8; 32]), tree_size: n };
    StirProof {
        round_commitments: vec![sc(64), sc(32)],
        ood_replies: vec![vec![Fp::zero(); 2]; 2],
        shift_answers: vec![vec![]; 2],
        merkle_paths: vec![vec![]; 2],
        merkle_opened_leaves: vec![vec![]; 2],
        final_polynomial,
        pow_nonces: vec![],
    }
}

#[test]
fn verify_names_the_final_degree_failure_and_accepts_a_small_final_polynomial() {
    let params = StirParams::new(6, 16, 4).with_repetition_schedule(vec![0, 0, 0]);
    let verifier = StirVerifier::new(params);
    let too_big = query_free_proof(UnivariatePoly::new(vec![Fp::zero(), Fp::one()]));
    let mut t = Transcript::new(b"x");
    assert_eq!(verifier.verify(&too_big, &mut t), Err("STIR: final_polynomial degree >= stopping_degree"));
    let small = query_free_proof(UnivariatePoly::new(vec![Fp::new(5)]));
    let mut t = Transcript::new(b"x");
    assert_eq!(verifier.verify(&small, &mut t), Ok(()));
}

#[test]
fn verify_leaves_the_transcript_alone_on_a_shape_violation() {
    let params = StirParams::new(6, 16, 4).with_repetition_schedule(vec![0, 0, 0]);
    let verifier = StirVerifier::new(params);
    let mut proof = query_free_proof(UnivariatePoly::zero());
    proof.round_commitments.truncate(1);
    let mut t = Transcript::new(b"x");
    assert_eq!(verifier.verify(&proof, &mut t), Err("STIR: round_commitments.len() != params.num_rounds"));
    assert_eq!(t.squeeze_field(), Transcript::new(b"x").squeeze_field());
}
