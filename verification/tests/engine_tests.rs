// Cross-checks of the tree against an independent computation with the
// Poseidon sponge of ark-crypto-primitives, built with the same
// configuration the library uses.

use ark_crypto_primitives::sponge::poseidon::{
    find_poseidon_ark_and_mds, PoseidonConfig, PoseidonSponge,
};
use ark_crypto_primitives::sponge::{CryptographicSponge, FieldBasedCryptographicSponge};
use ark_ff::{BigInt, PrimeField};
use ark_secp256k1::Fq;
use merkle_tree::field::Felt;
use merkle_tree::tree::MerkleTree;

fn config() -> PoseidonConfig<Fq> {
    let (ark, mds) = find_poseidon_ark_and_mds::<Fq>(Fq::MODULUS_BIT_SIZE as u64, 2, 8, 57, 0);
    PoseidonConfig::new(8, 57, 5, mds, ark, 2, 1)
}

fn felt_to_fq(f: &Felt) -> Fq {
    Fq::from_bigint(BigInt::new(f.limbs())).unwrap()
}

fn fq_to_felt(f: Fq) -> Felt {
    Felt::from_limbs(f.into_bigint().0).unwrap()
}

fn hash_ref(cfg: &PoseidonConfig<Fq>, l: Fq, r: Fq) -> Fq {
    let mut sponge = PoseidonSponge::new(cfg);
    sponge.absorb(&vec![l, r]);
    sponge.squeeze_native_field_elements(1)[0]
}

fn tree_of(values: &[u64]) -> MerkleTree {
    let mut tree = MerkleTree::new(2).unwrap();
    for v in values {
        tree.insert(Felt::from_u64(*v)).unwrap();
    }
    tree.finish().unwrap();
    tree
}

#[test]
fn reference_root_four_leaves() {
    let cfg = config();
    let tree = tree_of(&[1, 2, 3, 4]);
    let h12 = hash_ref(&cfg, Fq::from(1u64), Fq::from(2u64));
    let h34 = hash_ref(&cfg, Fq::from(3u64), Fq::from(4u64));
    let root = hash_ref(&cfg, h12, h34);
    assert_eq!(tree.root().unwrap(), fq_to_felt(root));
}

#[test]
fn reference_proof_siblings() {
    let cfg = config();
    let tree = tree_of(&[1, 2, 3, 4]);
    let proof = tree.create_proof(Felt::from_u64(3)).unwrap();
    let h12 = hash_ref(&cfg, Fq::from(1u64), Fq::from(2u64));
    assert_eq!(proof.siblings[0], Felt::from_u64(4));
    assert_eq!(proof.siblings[1], fq_to_felt(h12));
    assert_eq!(proof.path_indices, vec![0, 1]);
    // Replay by hand: the marker says which slot the node occupies.
    let step1 = hash_ref(&cfg, felt_to_fq(&proof.leaf), Fq::from(4u64));
    let step2 = hash_ref(&cfg, h12, step1);
    assert_eq!(tree.root().unwrap(), fq_to_felt(step2));
}

#[test]
fn brute_force_root_depth_15() {
    // Three real leaves in a depth-15 tree: the shortcut-built root must
    // match a full computation that hashes every pair explicitly.
    let cfg = config();
    let depth = 15;
    let real = [10u64, 20, 30];

    let mut tree = MerkleTree::new(2).unwrap();
    for v in real {
        tree.insert(Felt::from_u64(v)).unwrap();
    }
    for _ in real.len()..(1 << depth) {
        tree.insert(Felt::zero()).unwrap();
    }
    tree.finish().unwrap();

    let mut layer: Vec<Fq> = vec![Fq::from(0u64); 1 << depth];
    for (i, v) in real.iter().enumerate() {
        layer[i] = Fq::from(*v);
    }
    for _ in 0..depth {
        let mut next = Vec::with_capacity(layer.len() / 2);
        for pair in layer.chunks(2) {
            next.push(hash_ref(&cfg, pair[0], pair[1]));
        }
        layer = next;
    }
    assert_eq!(layer.len(), 1);
    assert_eq!(tree.root().unwrap(), fq_to_felt(layer[0]));
}
