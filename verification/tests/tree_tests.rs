use merkle_tree::field::Felt;
use merkle_tree::tree::{MerkleTree, TreeError};

fn expect_err(r: Result<MerkleTree, TreeError>) -> TreeError {
    match r {
        Err(e) => e,
        Ok(_) => panic!("expected an error"),
    }
}

fn tree_of(values: &[u64]) -> MerkleTree {
    let mut tree = MerkleTree::new(2).unwrap();
    for v in values {
        tree.insert(Felt::from_u64(*v)).unwrap();
    }
    tree.finish().unwrap();
    tree
}

#[test]
fn test_tree() {
    let mut tree = MerkleTree::new(2).unwrap();

    let depth = 18;
    let num_leaves = 10000;
    let leaves = (0..num_leaves)
        .map(|i| Felt::from_u64(i as u64))
        .collect::<Vec<Felt>>();

    let mut padded_leaves = leaves.clone();
    // Pad the leaves to equal the size of the tree
    padded_leaves.resize(1 << depth, Felt::zero());

    // Insert leaves
    for leaf in leaves.iter() {
        tree.insert(*leaf).unwrap();
    }

    tree.finish().unwrap();

    let proof = tree.create_proof(leaves[0]).unwrap();
    assert!(tree.verify_proof(tree.root().unwrap(), &proof).unwrap());
}

#[test]
fn single_leaf_tree() {
    let tree = tree_of(&[7]);
    // Depth 0: the root is the leaf itself, untouched by any hashing.
    assert_eq!(tree.root().unwrap(), Felt::from_u64(7));
    let proof = tree.create_proof(Felt::from_u64(7)).unwrap();
    assert_eq!(proof.siblings.len(), 0);
    assert_eq!(proof.path_indices.len(), 0);
    assert_eq!(proof.leaf, Felt::from_u64(7));
    assert!(tree.verify_proof(Felt::from_u64(7), &proof).unwrap());
}

#[test]
fn four_leaves_proof_shape() {
    let tree = tree_of(&[1, 2, 3, 4]);
    // Leaf 3 sits at index 2: its first sibling is the leaf 4, its second
    // the hash of the pair (1, 2); the markers record the climbing index's
    // parity at each level.
    let proof = tree.create_proof(Felt::from_u64(3)).unwrap();
    assert_eq!(proof.siblings.len(), 2);
    assert_eq!(proof.path_indices.len(), 2);
    assert_eq!(proof.siblings[0], Felt::from_u64(4));
    assert_eq!(proof.path_indices, vec![0, 1]);
    // The second sibling equals the root of the two-leaf tree over (1, 2).
    let left_pair = tree_of(&[1, 2]);
    assert_eq!(proof.siblings[1], left_pair.root().unwrap());
    assert!(tree.verify_proof(tree.root().unwrap(), &proof).unwrap());
}

#[test]
fn deterministic_roots() {
    let t1 = tree_of(&[5, 9, 13, 2, 8]);
    let t2 = tree_of(&[5, 9, 13, 2, 8]);
    assert_eq!(t1.root().unwrap(), t2.root().unwrap());
}

#[test]
fn padding_and_depth() {
    // Exactly 2^2 leaves: no padding, two levels of siblings.
    let exact = tree_of(&[1, 2, 3, 4]);
    let p = exact.create_proof(Felt::from_u64(1)).unwrap();
    assert_eq!(p.siblings.len(), 2);
    // Five leaves force the next power of two: three levels.
    let padded = tree_of(&[1, 2, 3, 4, 5]);
    let p5 = padded.create_proof(Felt::from_u64(5)).unwrap();
    assert_eq!(p5.siblings.len(), 3);
}

#[test]
fn padding_zero_leaf_provable() {
    // The padding zeros are leaves like any other.
    let tree = tree_of(&[1, 2, 3]);
    let proof = tree.create_proof(Felt::zero()).unwrap();
    assert!(tree.verify_proof(tree.root().unwrap(), &proof).unwrap());
}

#[test]
fn duplicate_leaf_resolves_to_first_index() {
    let tree = tree_of(&[6, 6, 5, 4]);
    let proof = tree.create_proof(Felt::from_u64(6)).unwrap();
    // Index 0: at the bottom level the sibling is the other copy and the
    // marker says the proven node sat in the left slot.
    assert_eq!(proof.path_indices[0], 0);
    assert_eq!(proof.siblings[0], Felt::from_u64(6));
    assert!(tree.verify_proof(tree.root().unwrap(), &proof).unwrap());
}

#[test]
fn tampered_proof_fails() {
    let tree = tree_of(&[1, 2, 3, 4, 5, 6, 7, 8]);
    let proof = tree.create_proof(Felt::from_u64(3)).unwrap();
    let root = tree.root().unwrap();
    assert!(tree.verify_proof(root, &proof).unwrap());

    // Flipping any single sibling value breaks verification.
    for k in 0..proof.siblings.len() {
        let mut limbs = proof.siblings[k].limbs();
        limbs[0] ^= 1;
        let mut tampered = tree.create_proof(Felt::from_u64(3)).unwrap();
        tampered.siblings[k] = Felt::from_limbs(limbs).unwrap();
        assert!(!tree.verify_proof(root, &tampered).unwrap());
    }
    // Flipping any single path marker breaks verification.
    for k in 0..proof.path_indices.len() {
        let mut tampered = tree.create_proof(Felt::from_u64(3)).unwrap();
        tampered.path_indices[k] = 1 - tampered.path_indices[k];
        assert!(!tree.verify_proof(root, &tampered).unwrap());
    }
    // A different claimed leaf breaks verification.
    let mut tampered = tree.create_proof(Felt::from_u64(3)).unwrap();
    tampered.leaf = Felt::from_u64(4);
    assert!(!tree.verify_proof(root, &tampered).unwrap());
}

#[test]
fn arity_rejected() {
    assert_eq!(expect_err(MerkleTree::new(3)), TreeError::UnsupportedArity);
    assert_eq!(expect_err(MerkleTree::new(0)), TreeError::UnsupportedArity);
}

#[test]
fn sequencing_errors() {
    let mut tree = MerkleTree::new(2).unwrap();
    tree.insert(Felt::from_u64(1)).unwrap();
    // Proof operations are refused before finalization.
    assert_eq!(
        tree.create_proof(Felt::from_u64(1)).unwrap_err(),
        TreeError::NotFinalized
    );
    assert_eq!(tree.serialize().unwrap_err(), TreeError::NotFinalized);
    assert!(tree.root().is_none());
    tree.finish().unwrap();
    // The tree is immutable once ready, and finalization is one-shot.
    assert_eq!(
        tree.insert(Felt::from_u64(2)).unwrap_err(),
        TreeError::AlreadyFinalized
    );
    assert_eq!(tree.finish().unwrap_err(), TreeError::AlreadyFinalized);
}

#[test]
fn absent_leaf_rejected() {
    let tree = tree_of(&[1, 2, 3, 4]);
    assert_eq!(
        tree.create_proof(Felt::from_u64(9)).unwrap_err(),
        TreeError::LeafNotFound
    );
}
