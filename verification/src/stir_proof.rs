//! The STIR proof object: per-round commitments, OOD replies, shift
//! answers with their Merkle openings, and the final polynomial.
use crate::commitment::StirCommitment;
use crate::field::Fp;
use crate::merkle::MerklePath;
use crate::polynomial::UnivariatePoly;
use vstd::prelude::*;

verus! {

/// A complete non-interactive STIR proof.
#[derive(Clone, Debug)]
pub struct StirProof {
    /// One commitment per folding round.
    pub round_commitments: Vec<StirCommitment>,
    /// `ood_replies[i][j]`: the claimed value at the `j`-th OOD point of round `i`.
    pub ood_replies: Vec<Vec<Fp>>,
    /// `shift_answers[i][q][j]`: the `j`-th fibre value of query `q` in round `i`.
    pub shift_answers: Vec<Vec<Vec<Fp>>>,
    /// The Merkle openings of the shift answers.
    pub merkle_paths: Vec<Vec<Vec<MerklePath>>>,
    /// The opened leaf values, parallel to `merkle_paths`.
    pub merkle_opened_leaves: Vec<Vec<Vec<Fp>>>,
    /// The polynomial the prover ends with, sent in the clear.
    pub final_polynomial: UnivariatePoly,
    /// Proof-of-work nonces; always empty here.
    pub pow_nonces: Vec<u64>,
}

impl StirProof {
    /// The number of folding rounds the proof covers.
    pub fn num_rounds(&self) -> (r: usize)
        ensures
            r == self.round_commitments@.len(),
    {
        self.round_commitments.len()
    }
}

} // verus!
