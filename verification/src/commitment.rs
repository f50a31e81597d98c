//! A round commitment: the Merkle root of an evaluation table together
//! with the table size, so that openings are checked against the right
//! tree shape.
use crate::field::Fp;
use crate::merkle::{ceil_log2, hash_layer, merkle_root, next_pow2, pad_leaves, MerkleRoot, MerkleTree};
use vstd::prelude::*;

verus! {

/// The commitment to one round's evaluation table.
#[derive(Clone, Copy, Debug, PartialEq, Eq)]
pub struct StirCommitment {
    /// The Merkle root of the table.
    pub root: MerkleRoot,
    /// The number of entries of the table.
    pub tree_size: usize,
}

impl StirCommitment {
    /// Commit to a non-empty evaluation table: the commitment and the tree.
    pub fn commit(evals: &[Fp]) -> (r: (StirCommitment, MerkleTree))
        requires
            evals@.len() >= 1,
            evals@.len() <= usize::MAX / 2 + 1,
        ensures
            r.0.root.0@ == merkle_root(evals@),
            r.0.tree_size == evals@.len(),
            r.1.wf(),
            r.1.height() == ceil_log2(evals@.len()),
            r.1.leaves@ == pad_leaves(evals@, next_pow2(evals@.len())),
            hash_layer(r.1.leaves@, r.1.height())[0] == r.0.root.0@,
    {
        let tree = MerkleTree::commit(evals);
        let root = tree.root();
        let tree_size = evals.len();
        (StirCommitment { root, tree_size }, tree)
    }
}

} // verus!
