use merkle_tree::field::Felt;
use merkle_tree::tree::{MerkleProof, MerkleTree};

fn tree_of(values: &[u64]) -> MerkleTree {
    let mut tree = MerkleTree::new(2).unwrap();
    for v in values {
        tree.insert(Felt::from_u64(*v)).unwrap();
    }
    tree.finish().unwrap();
    tree
}

#[test]
fn json_exact_text() {
    let proof = MerkleProof {
        leaf: Felt::from_u64(3),
        siblings: vec![Felt::from_u64(4), Felt::from_u64(5)],
        path_indices: vec![0, 1],
        root: Felt::from_u64(9),
    };
    assert_eq!(
        proof.to_json(),
        "{\"siblings\":[[\"4\"],[\"5\"]],\"pathIndices\":[\"0\",\"1\"],\"root\":\"9\",\"leaf\":\"3\"}"
    );
}

#[test]
fn json_empty_proof() {
    let tree = tree_of(&[7]);
    let proof = tree.create_proof(Felt::from_u64(7)).unwrap();
    assert_eq!(
        proof.to_json(),
        "{\"siblings\":[],\"pathIndices\":[],\"root\":\"7\",\"leaf\":\"7\"}"
    );
}

#[test]
fn record_fields() {
    let proof = MerkleProof {
        leaf: Felt::from_u64(3),
        siblings: vec![Felt::from_u64(4)],
        path_indices: vec![0],
        root: Felt::from_u64(9),
    };
    let record = proof.to_record();
    assert_eq!(record.siblings, vec![[String::from("4")]]);
    assert_eq!(record.pathIndices, vec![String::from("0")]);
    assert_eq!(record.root, "9");
    assert_eq!(record.leaf, "3");
}

#[test]
fn address_record() {
    let proof = MerkleProof {
        leaf: Felt::from_u64(0x1234),
        siblings: vec![Felt::from_u64(8)],
        path_indices: vec![1],
        root: Felt::from_u64(6),
    };
    let record = proof.to_json_with_address();
    assert_eq!(record.address, "0x0000000000000000000000000000000000001234");
    assert_eq!(record.merkleProof.siblings, vec![[String::from("8")]]);
    assert_eq!(record.merkleProof.pathIndices, vec![String::from("1")]);
    assert_eq!(record.merkleProof.root, "6");
}

#[test]
fn decimal_rendering() {
    assert_eq!(Felt::from_u64(0).to_decimal(), "0");
    assert_eq!(Felt::from_u64(12345).to_decimal(), "12345");
    // 2^64 needs the second limb.
    let f = Felt::from_limbs([0, 1, 0, 0]).unwrap();
    assert_eq!(f.to_decimal(), "18446744073709551616");
}
