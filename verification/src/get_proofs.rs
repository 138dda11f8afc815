//! Batch proof derivation: build a throwaway tree of a fixed depth over the
//! given leaves and hand back an inclusion proof for every one of them.

use vstd::prelude::*;
use vstd::arithmetic::power2::{pow2, lemma_pow2_unfold, lemma2_to64};
use crate::field::Felt;
use crate::tree::{
    felt_seq, lemma_depth_determined, replay, root_of, zero_leaf, MerkleProof, MerkleTree,
    TreeError,
};

verus! {

/// The bottom layer of a depth-fixed tree over the given leaves: the leaf
/// sequence cut or zero-padded to the requested capacity.
pub open spec fn padded_to(leaves: Seq<int>, cap: nat) -> Seq<int> {
    if leaves.len() >= cap {
        leaves.take(cap as int)
    } else {
        leaves + Seq::new((cap - leaves.len()) as nat, |i: int| zero_leaf())
    }
}

/// Builds a finalized Merkle tree of exactly `depth` levels over the
/// leaves, cutting or zero-padding them to `2^depth`.
pub fn build_tree(leaves: &Vec<Felt>, depth: usize) -> (t: MerkleTree)
    requires
        depth <= 62,
        pow2(depth as nat) <= usize::MAX / 2,
    ensures
        t.is_ready(),
        t.hash_consistent(),
        t.depth_val() == depth,
        t.leaf_seq() == padded_to(felt_seq(leaves@), pow2(depth as nat)),
        t.leaf_seq().len() == pow2(depth as nat),
        t.root_val() == root_of(padded_to(felt_seq(leaves@), pow2(depth as nat)), depth as nat),
{
    proof {
        lemma2_to64();
    }
    let mut cap: usize = 1;
    let mut kk: usize = 0;
    while kk < depth
        invariant
            kk <= depth,
            depth <= 62,
            cap == pow2(kk as nat),
            pow2(depth as nat) <= usize::MAX / 2,
        decreases depth - kk,
    {
        proof {
            if kk + 1 < depth {
                vstd::arithmetic::power2::lemma_pow2_strictly_increases(
                    (kk + 1) as nat,
                    depth as nat,
                );
            }
            lemma_pow2_unfold((kk + 1) as nat);
            assert(pow2((kk + 1) as nat) <= pow2(depth as nat));
        }
        cap = cap * 2;
        kk = kk + 1;
    }

    let mut tree = match MerkleTree::new(2) {
        Ok(t) => t,
        Err(_) => {
            proof {
                assert(false);
            }
            vstd::pervasive::unreached()
        },
    };
    let ghost target = padded_to(felt_seq(leaves@), pow2(depth as nat));
    let mut i: usize = 0;
    while i < cap
        invariant
            i <= cap,
            cap == pow2(depth as nat),
            target == padded_to(felt_seq(leaves@), pow2(depth as nat)),
            !tree.is_ready(),
            tree.leaf_seq() =~= target.take(i as int),
        decreases cap - i,
    {
        let f = if i < leaves.len() {
            leaves[i]
        } else {
            Felt::zero()
        };
        proof {
            assert(target[i as int] == f@);
        }
        let _ = tree.insert(f);
        proof {
            assert(tree.leaf_seq() =~= target.take(i as int + 1));
        }
        i = i + 1;
    }
    proof {
        assert(tree.leaf_seq() =~= target);
        assert(tree.leaf_seq().len() == pow2(depth as nat));
    }
    let _ = tree.finish();
    proof {
        if depth > 0 {
            vstd::arithmetic::power2::lemma_pow2_strictly_increases(
                (depth - 1) as nat,
                depth as nat,
            );
        }
        lemma_depth_determined(pow2(depth as nat), tree.depth_val(), depth as nat);
        assert(tree.leaf_seq() =~= target);
    }
    tree
}

/// Builds a Merkle tree of exactly `depth` levels over the leaves — cutting
/// or zero-padding them to `2^depth` — and returns an inclusion proof for
/// every given leaf against that tree's root. Fails exactly when a leaf was
/// cut away and its value no longer occurs in the bottom layer.
pub fn get_proofs(leaves: Vec<Felt>, depth: usize) -> (r: Result<Vec<MerkleProof>, TreeError>)
    requires
        depth <= 62,
        pow2(depth as nat) <= usize::MAX / 2,
    ensures
        match r {
            Ok(proofs) => {
                &&& proofs@.len() == leaves@.len()
                &&& forall|i: int|
                    0 <= i < proofs@.len() ==> {
                        let p = #[trigger] proofs@[i];
                        &&& p.leaf == leaves@[i]
                        &&& p.sibling_seq().len() == depth
                        &&& p.marker_seq().len() == depth
                        &&& p.root@ == root_of(
                            padded_to(felt_seq(leaves@), pow2(depth as nat)),
                            depth as nat,
                        )
                        &&& replay(p.leaf@, p.sibling_seq(), p.marker_seq()) == p.root@
                    }
            },
            Err(e) => {
                &&& e == TreeError::LeafNotFound
                &&& exists|i: int|
                    0 <= i < leaves@.len() && forall|j: int|
                        0 <= j < pow2(depth as nat) ==> padded_to(
                            felt_seq(leaves@),
                            pow2(depth as nat),
                        )[j] != (#[trigger] leaves@[i])@
            },
        },
{
    let tree = build_tree(&leaves, depth);
    let ghost target = padded_to(felt_seq(leaves@), pow2(depth as nat));

    let mut proofs: Vec<MerkleProof> = Vec::new();
    let mut j: usize = 0;
    while j < leaves.len()
        invariant
            j <= leaves@.len(),
            proofs@.len() == j,
            tree.is_ready(),
            tree.hash_consistent(),
            tree.depth_val() == depth,
            tree.leaf_seq() == target,
            target == padded_to(felt_seq(leaves@), pow2(depth as nat)),
            target.len() == pow2(depth as nat),
            tree.root_val() == root_of(target, depth as nat),
            forall|ii: int|
                0 <= ii < j ==> {
                    let p = #[trigger] proofs@[ii];
                    &&& p.leaf == leaves@[ii]
                    &&& p.sibling_seq().len() == depth
                    &&& p.marker_seq().len() == depth
                    &&& p.root@ == root_of(target, depth as nat)
                    &&& replay(p.leaf@, p.sibling_seq(), p.marker_seq()) == p.root@
                },
        decreases leaves@.len() - j,
    {
        match tree.create_proof(leaves[j]) {
            Ok(p) => {
                proofs.push(p);
            },
            Err(_) => {
                return Err(TreeError::LeafNotFound);
            },
        }
        j = j + 1;
    }
    Ok(proofs)
}

} // verus!
