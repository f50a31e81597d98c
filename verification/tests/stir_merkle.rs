use sha3::{Digest, Sha3_256};
use stir::field::Fp;
use stir::merkle::{MerkleTree, LEAF_TAG};

fn sha3(bytes: &[u8]) -> [u8; 32] {
    let mut h = Sha3_256::new();
    h.update(bytes);
    h.finalize().into()
}

#[test]
fn commit_of_single_leaf_matches_hash() {
    let tree = MerkleTree::commit(&[Fp::new(42)]);
    assert_eq!(tree.leaves_hashed.len(), 1);
    assert_eq!(tree.layers.len(), 1);
    let mut expected_preimage = vec![LEAF_TAG];
    expected_preimage.extend_from_slice(&42u64.to_le_bytes());
    assert_eq!(tree.root().0, sha3(&expected_preimage));
}

#[test]
fn commit_pads_non_power_of_2_to_next_power_of_2() {
    let tree = MerkleTree::commit(&[Fp::new(1), Fp::new(2), Fp::new(3)]);
    assert_eq!(tree.leaves_hashed.len(), 4);
    let mut zero_preimage = vec![LEAF_TAG];
    zero_preimage.extend_from_slice(&0u64.to_le_bytes());
    assert_eq!(tree.leaves_hashed[3], sha3(&zero_preimage));
    assert_eq!(tree.leaves[3], Fp::zero());
}

#[test]
fn open_then_verify_succeeds() {
    let leaves = [Fp::new(1), Fp::new(2), Fp::new(3), Fp::new(4)];
    let tree = MerkleTree::commit(&leaves);
    for i in 0..4 {
        let (leaf, path) = tree.open(i);
        assert_eq!(leaf, leaves[i], "open returned wrong leaf value");
        assert!(MerkleTree::verify(tree.root(), i, leaves[i], &path, 4), "honest path failed to verify at index {i}");
    }
}

#[test]
fn verify_fails_for_wrong_leaf() {
    let leaves = [Fp::new(1), Fp::new(2), Fp::new(3), Fp::new(4)];
    let tree = MerkleTree::commit(&leaves);
    let (_, path) = tree.open(0);
    assert!(!MerkleTree::verify(tree.root(), 0, Fp::new(999), &path, 4));
}

#[test]
fn verify_fails_for_tampered_path() {
    let leaves = [Fp::new(1), Fp::new(2), Fp::new(3), Fp::new(4)];
    let tree = MerkleTree::commit(&leaves);
    let (leaf, mut path) = tree.open(0);
    path.siblings[0][0] ^= 0xFF;
    assert!(!MerkleTree::verify(tree.root(), 0, leaf, &path, 4));
}

#[test]
fn verify_fails_for_wrong_leaf_index() {
    let leaves = [Fp::new(1), Fp::new(2), Fp::new(3), Fp::new(4)];
    let tree = MerkleTree::commit(&leaves);
    let (leaf, path) = tree.open(2);
    assert!(!MerkleTree::verify(tree.root(), 1, leaf, &path, 4));
    let mut tampered = path.clone();
    tampered.leaf_index = 0;
    assert!(!MerkleTree::verify(tree.root(), 0, leaf, &tampered, 4));
}

#[test]
fn roots_differ_for_different_inputs() {
    let tree_a = MerkleTree::commit(&[Fp::new(1), Fp::new(2)]);
    let tree_b = MerkleTree::commit(&[Fp::new(1), Fp::new(3)]);
    assert_ne!(tree_a.root(), tree_b.root());
}

#[test]
fn two_leaf_root_hashes_the_leaf_digests() {
    let tree = MerkleTree::commit(&[Fp::new(1), Fp::new(2)]);
    let mut l0 = vec![LEAF_TAG];
    l0.extend_from_slice(&1u64.to_le_bytes());
    let mut l1 = vec![LEAF_TAG];
    l1.extend_from_slice(&2u64.to_le_bytes());
    let mut node = vec![stir::merkle::NODE_TAG];
    node.extend_from_slice(&sha3(&l0));
    node.extend_from_slice(&sha3(&l1));
    assert_eq!(tree.root().0, sha3(&node));
}

#[test]
fn verify_rejects_path_of_wrong_height() {
    let leaves = [Fp::new(1), Fp::new(2), Fp::new(3), Fp::new(4)];
    let tree = MerkleTree::commit(&leaves);
    let (leaf, mut path) = tree.open(1);
    path.siblings.pop();
    assert!(!MerkleTree::verify(tree.root(), 1, leaf, &path, 4));
    let (leaf, path) = tree.open(1);
    assert!(!MerkleTree::verify(tree.root(), 4, leaf, &path, 4));
}
