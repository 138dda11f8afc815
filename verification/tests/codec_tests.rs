use merkle_tree::field::Felt;
use merkle_tree::get_proofs::{build_tree, get_proofs};
use merkle_tree::ingest::leaves_from_be_bytes;
use merkle_tree::tree::{MerkleTree, TreeError};

fn expect_err(r: Result<MerkleTree, TreeError>) -> TreeError {
    match r {
        Err(e) => e,
        Ok(_) => panic!("expected an error"),
    }
}

fn tree_of(values: &[u64]) -> MerkleTree {
    let mut tree = MerkleTree::new(2).unwrap();
    for v in values {
        tree.insert(Felt::from_u64(*v)).unwrap();
    }
    tree.finish().unwrap();
    tree
}

#[test]
fn serialize_round_trip() {
    let tree = tree_of(&[11, 22, 33, 44, 55]);
    let bytes = tree.serialize().unwrap();
    let back = MerkleTree::from_compressed_bytes(&bytes).unwrap();
    assert_eq!(tree.root().unwrap(), back.root().unwrap());
    for v in [11u64, 22, 33, 44, 55, 0] {
        let p1 = tree.create_proof(Felt::from_u64(v)).unwrap();
        let p2 = back.create_proof(Felt::from_u64(v)).unwrap();
        assert_eq!(p1.leaf, p2.leaf);
        assert_eq!(p1.siblings, p2.siblings);
        assert_eq!(p1.path_indices, p2.path_indices);
        assert_eq!(p1.root, p2.root);
        assert_eq!(
            tree.verify_proof(tree.root().unwrap(), &p1).unwrap(),
            back.verify_proof(back.root().unwrap(), &p2).unwrap()
        );
        assert!(back.verify_proof(back.root().unwrap(), &p2).unwrap());
    }
    // The encoding is canonical: re-serializing reproduces it.
    assert_eq!(back.serialize().unwrap(), bytes);
}

#[test]
fn malformed_bytes_rejected() {
    assert_eq!(
        expect_err(MerkleTree::from_compressed_bytes(&[])),
        TreeError::MalformedEncoding
    );
    let tree = tree_of(&[1, 2]);
    let good = tree.serialize().unwrap();
    // Wrong arity byte.
    let mut bad = good.clone();
    bad[0] = 3;
    assert_eq!(
        expect_err(MerkleTree::from_compressed_bytes(&bad)),
        TreeError::MalformedEncoding
    );
    // Truncated.
    let mut short = good.clone();
    short.pop();
    assert_eq!(
        expect_err(MerkleTree::from_compressed_bytes(&short)),
        TreeError::MalformedEncoding
    );
    // Trailing garbage.
    let mut long = good.clone();
    long.push(0);
    assert_eq!(
        expect_err(MerkleTree::from_compressed_bytes(&long)),
        TreeError::MalformedEncoding
    );
    // An unreduced element.
    let mut unreduced = good.clone();
    for b in unreduced.iter_mut().skip(9).take(32) {
        *b = 0xFF;
    }
    assert_eq!(
        expect_err(MerkleTree::from_compressed_bytes(&unreduced)),
        TreeError::MalformedEncoding
    );
    // An absurd depth.
    let mut deep = good.clone();
    deep[1] = 0xFF;
    deep[8] = 0xFF;
    assert_eq!(
        expect_err(MerkleTree::from_compressed_bytes(&deep)),
        TreeError::MalformedEncoding
    );
}

#[test]
fn limbs_respect_modulus() {
    // The secp256k1 base field prime, as little-endian limbs.
    let p = [
        0xFFFFFFFEFFFFFC2Fu64,
        0xFFFFFFFFFFFFFFFF,
        0xFFFFFFFFFFFFFFFF,
        0xFFFFFFFFFFFFFFFF,
    ];
    assert!(Felt::from_limbs(p).is_none());
    let mut p_minus_1 = p;
    p_minus_1[0] -= 1;
    let f = Felt::from_limbs(p_minus_1).unwrap();
    assert_eq!(f.limbs(), p_minus_1);
    assert!(Felt::from_limbs([0xFFFFFFFFFFFFFFFF; 4]).is_none());
}

#[test]
fn ingest_chunks() {
    // One full chunk holding the value 5.
    let mut buf = vec![0u8; 32];
    buf[31] = 5;
    let leaves = leaves_from_be_bytes(&buf);
    assert_eq!(leaves.len(), 1);
    assert_eq!(leaves[0], Felt::from_u64(5));
    // Two chunks, then a short trailing chunk.
    let mut buf2 = vec![0u8; 64];
    buf2[31] = 1;
    buf2[63] = 2;
    buf2.push(7);
    let leaves2 = leaves_from_be_bytes(&buf2);
    assert_eq!(leaves2.len(), 3);
    assert_eq!(leaves2[0], Felt::from_u64(1));
    assert_eq!(leaves2[1], Felt::from_u64(2));
    assert_eq!(leaves2[2], Felt::from_u64(7));
    assert_eq!(leaves_from_be_bytes(&[]).len(), 0);
}

#[test]
fn batch_proofs() {
    let leaves = vec![Felt::from_u64(10), Felt::from_u64(20), Felt::from_u64(30)];
    let proofs = get_proofs(leaves.clone(), 4).unwrap();
    assert_eq!(proofs.len(), 3);
    let tree = build_tree(&leaves, 4);
    for (i, p) in proofs.iter().enumerate() {
        assert_eq!(p.leaf, leaves[i]);
        assert_eq!(p.siblings.len(), 4);
        assert_eq!(p.root, tree.root().unwrap());
        assert!(tree.verify_proof(p.root, p).unwrap());
    }
}
