use stir::commitment::StirCommitment;
use stir::field::Fp;
use stir::merkle::MerkleTree;

#[test]
fn commit_returns_consistent_root_and_tree_size() {
    let evals = [Fp::new(1), Fp::new(2), Fp::new(3), Fp::new(4)];
    let (commitment, tree) = StirCommitment::commit(&evals);
    assert_eq!(commitment.tree_size, 4);
    assert_eq!(commitment.root, tree.root());
}

#[test]
fn different_evals_give_different_roots() {
    let (c_a, _) = StirCommitment::commit(&[Fp::new(1), Fp::new(2)]);
    let (c_b, _) = StirCommitment::commit(&[Fp::new(1), Fp::new(3)]);
    assert_ne!(c_a.root, c_b.root);
}

#[test]
fn opened_leaf_verifies_against_commitment_root() {
    let evals = [Fp::new(10), Fp::new(20), Fp::new(30), Fp::new(40)];
    let (commitment, tree) = StirCommitment::commit(&evals);
    for i in 0..evals.len() {
        let (leaf, path) = tree.open(i);
        assert_eq!(leaf, evals[i]);
        assert!(
            MerkleTree::verify(commitment.root.clone(), i, leaf, &path, commitment.tree_size),
            "honest path at index {i} failed to verify against StirCommitment",
        );
    }
}

#[test]
fn commitment_of_three_leaves_records_unpadded_size() {
    let evals = [Fp::new(5), Fp::new(6), Fp::new(7)];
    let (commitment, tree) = StirCommitment::commit(&evals);
    assert_eq!(commitment.tree_size, 3);
    let (leaf, path) = tree.open(2);
    assert_eq!(leaf, Fp::new(7));
    assert!(MerkleTree::verify(commitment.root, 2, leaf, &path, 3));
    assert!(!MerkleTree::verify(commitment.root, 2, Fp::new(8), &path, 3));
}
