use stir::commitment::StirCommitment;
use stir::field::Fp;
use stir::merkle::{MerklePath, MerkleRoot};
use stir::polynomial::UnivariatePoly;
use stir::stir_proof::StirProof;

fn demo_proof() -> StirProof {
    let num_rounds: usize = 2;
    let ood_samples: usize = 2;
    let per_round_queries: [usize; 2] = [8, 4];
    let folding_factor: usize = 4;
    let round_tree_sizes: [usize; 2] = [64, 32];
    let round_commitments: Vec<StirCommitment> = (0..num_rounds)
        .map(|i| StirCommitment { root: MerkleRoot([0u8; 32]), tree_size: round_tree_sizes[i] })
        .collect();
    let ood_replies: Vec<Vec<Fp>> = (0..num_rounds).map(|_| vec![Fp::zero(); ood_samples]).collect();
    let shift_answers: Vec<Vec<Vec<Fp>>> = (0..num_rounds)
        .map(|i| (0..per_round_queries[i]).map(|_| vec![Fp::zero(); folding_factor]).collect())
        .collect();
    let merkle_paths: Vec<Vec<Vec<MerklePath>>> = (0..num_rounds)
        .map(|i| {
            (0..per_round_queries[i])
                .map(|q| {
                    (0..folding_factor)
                        .map(|j| MerklePath { siblings: Vec::new(), leaf_index: q * folding_factor + j })
                        .collect()
                })
                .collect()
        })
        .collect();
    let merkle_opened_leaves: Vec<Vec<Vec<Fp>>> = (0..num_rounds)
        .map(|i| (0..per_round_queries[i]).map(|_| vec![Fp::zero(); folding_factor]).collect())
        .collect();
    StirProof {
        round_commitments,
        ood_replies,
        shift_answers,
        merkle_paths,
        merkle_opened_leaves,
        final_polynomial: UnivariatePoly::zero(),
        pow_nonces: Vec::new(),
    }
}

#[test]
fn proof_round_count_matches_params() {
    let proof = demo_proof();
    assert_eq!(proof.num_rounds(), 2);
    assert_eq!(proof.round_commitments.len(), 2);
    assert_eq!(proof.ood_replies.len(), 2);
    assert_eq!(proof.shift_answers.len(), 2);
    assert_eq!(proof.merkle_paths.len(), 2);
    assert_eq!(proof.merkle_opened_leaves.len(), 2);
    for replies in &proof.ood_replies {
        assert_eq!(replies.len(), 2);
    }
    let expected_t = [8usize, 4];
    let k: usize = 4;
    for i in 0..2 {
        assert_eq!(proof.shift_answers[i].len(), expected_t[i]);
        assert_eq!(proof.merkle_paths[i].len(), expected_t[i]);
        assert_eq!(proof.merkle_opened_leaves[i].len(), expected_t[i]);
        for q in 0..expected_t[i] {
            assert_eq!(proof.shift_answers[i][q].len(), k);
            assert_eq!(proof.merkle_paths[i][q].len(), k);
            assert_eq!(proof.merkle_opened_leaves[i][q].len(), k);
        }
    }
    assert!(proof.pow_nonces.is_empty(), "pow_nonces must be empty in this implementation");
}

#[test]
fn proof_has_one_final_polynomial() {
    let proof = demo_proof();
    let stopping_degree: usize = 1;
    match proof.final_polynomial.degree() {
        None => {}
        Some(d) => assert!(d < stopping_degree, "final_polynomial degree {d} must be < stopping_degree {stopping_degree}"),
    }
}

#[test]
fn proof_debug_output_is_non_empty() {
    let proof = demo_proof();
    let s = format!("{:?}", proof);
    assert!(!s.is_empty(), "Debug output is empty");
    assert!(s.contains("StirProof"), "Debug output missing struct name: {s}");
}

#[test]
fn proof_clone_roundtrip_preserves_fields() {
    let original = demo_proof();
    let cloned = original.clone();
    assert_eq!(cloned.round_commitments.len(), original.round_commitments.len());
    assert_eq!(cloned.ood_replies.len(), original.ood_replies.len());
    assert_eq!(cloned.shift_answers.len(), original.shift_answers.len());
    assert_eq!(cloned.merkle_paths.len(), original.merkle_paths.len());
    assert_eq!(cloned.merkle_opened_leaves.len(), original.merkle_opened_leaves.len());
    assert_eq!(cloned.pow_nonces.len(), original.pow_nonces.len());
    for i in 0..original.num_rounds() {
        assert_eq!(cloned.ood_replies[i].len(), original.ood_replies[i].len());
        assert_eq!(cloned.shift_answers[i].len(), original.shift_answers[i].len());
        assert_eq!(cloned.merkle_paths[i].len(), original.merkle_paths[i].len());
        assert_eq!(cloned.merkle_opened_leaves[i].len(), original.merkle_opened_leaves[i].len());
        for q in 0..original.shift_answers[i].len() {
            assert_eq!(cloned.shift_answers[i][q].len(), original.shift_answers[i][q].len());
            assert_eq!(cloned.merkle_paths[i][q].len(), original.merkle_paths[i][q].len());
            assert_eq!(cloned.merkle_opened_leaves[i][q].len(), original.merkle_opened_leaves[i][q].len());
        }
    }
    assert_eq!(cloned.round_commitments, original.round_commitments);
    assert_eq!(cloned.final_polynomial.degree(), original.final_polynomial.degree());
    assert_eq!(cloned.num_rounds(), original.num_rounds());
}
