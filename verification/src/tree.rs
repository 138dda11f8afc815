//! The Merkle tree engine: leaf ingestion, padding, bottom-up layer
//! construction with a zero-subtree shortcut, root computation, proof
//! derivation and proof verification.
//!
//! A tree is *building* from construction until finalization: leaves may be
//! appended and nothing else. Finalization pads the leaf sequence with zero
//! elements up to the next power of two, builds every layer, stores the
//! root, and moves the tree to *ready*; from then on leaf insertion is
//! refused and proof operations become valid.

use vstd::prelude::*;
use vstd::arithmetic::power2::{pow2, lemma_pow2_unfold, lemma_pow2_strictly_increases, lemma2_to64, lemma2_to64_rest};
use vstd::arithmetic::power2::lemma_pow2_pos;
use vstd::arithmetic::div_mod::{lemma_div_denominator, lemma_fundamental_div_mod};
use crate::field::lemma_value_injective;
use crate::field::{fq_modulus, Felt};
use crate::hashing::{config_model, hash2, hash_pair, poseidon_tree_config, standard_config_model, HashConfig};

verus! {

/// The value of every padding leaf, and of the root of an all-padding
/// subtree of depth zero.
pub open spec fn zero_leaf() -> int {
    0
}

/// The root of an all-padding subtree of the given depth: entry `d + 1` is
/// the hash of the pair `(entry d, entry d)`.
pub open spec fn zero_subtree_root(d: nat) -> int
    decreases d,
{
    if d == 0 {
        zero_leaf()
    } else {
        hash2(zero_subtree_root((d - 1) as nat), zero_subtree_root((d - 1) as nat))
    }
}

/// One level of bottom-up hashing: adjacent disjoint pairs, the element at
/// even offset on the left.
pub open spec fn layer_up(l: Seq<int>) -> Seq<int> {
    Seq::new(l.len() / 2, |i: int| hash2(l[2 * i], l[2 * i + 1]))
}

/// The layer `k` levels above the given bottom layer.
pub open spec fn layer_above(bottom: Seq<int>, k: nat) -> Seq<int>
    decreases k,
{
    if k == 0 {
        bottom
    } else {
        layer_up(layer_above(bottom, (k - 1) as nat))
    }
}

/// The root of the tree of the given depth over the given bottom layer.
pub open spec fn root_of(bottom: Seq<int>, depth: nat) -> int {
    layer_above(bottom, depth)[0]
}

/// Each stored layer is exactly one level of hashing above the one below.
pub open spec fn layers_linked(layers: Seq<Seq<int>>, depth: nat) -> bool {
    forall|k: int| 0 <= k < depth ==> layers[k + 1] == layer_up(#[trigger] layers[k])
}

/// What one verification step computes from a node value, a sibling value
/// and a path marker: an even marker says the node sits in the left slot of
/// the pair, an odd one in the right slot.
pub open spec fn step(v: int, sibling: int, marker: int) -> int {
    if marker % 2 == 0 {
        hash2(v, sibling)
    } else {
        hash2(sibling, v)
    }
}

/// The value a verifier recomputes from a claimed leaf by replaying the
/// sibling and marker sequences, stopping at the shorter of the two.
pub open spec fn replay(v: int, siblings: Seq<int>, markers: Seq<int>) -> int
    decreases siblings.len(),
{
    if siblings.len() == 0 || markers.len() == 0 {
        v
    } else {
        replay(step(v, siblings[0], markers[0]), siblings.drop_first(), markers.drop_first())
    }
}

/// The index a leaf's climb reaches after `k` levels.
pub open spec fn climb_index(i0: int, k: nat) -> int {
    i0 / (pow2(k) as int)
}

/// The index of the sibling at level `k` of the climb from `i0`: the
/// climbing index with its lowest bit flipped.
pub open spec fn sibling_index(i0: int, k: nat) -> int {
    if climb_index(i0, k) % 2 == 0 {
        climb_index(i0, k) + 1
    } else {
        climb_index(i0, k) - 1
    }
}

/// The integer values of a sequence of elements.
pub open spec fn felt_seq(v: Seq<Felt>) -> Seq<int> {
    v.map_values(|f: Felt| f@)
}

/// The integer values of a sequence of layers.
pub open spec fn layers_model(ls: Seq<Vec<Felt>>) -> Seq<Seq<int>> {
    ls.map_values(|l: Vec<Felt>| felt_seq(l@))
}

/// `i` is the first position of `v` in `s`.
pub open spec fn is_first_match(s: Seq<int>, v: int, i: int) -> bool {
    &&& 0 <= i < s.len()
    &&& s[i] == v
    &&& forall|j: int| 0 <= j < i ==> s[j] != v
}

/// The proof records, level by level, the sibling of the climb from leaf
/// index `i0` and the parity of the climbing index.
pub open spec fn proof_matches(p: MerkleProof, layers: Seq<Seq<int>>, depth: nat, i0: int) -> bool {
    &&& p.sibling_seq().len() == depth
    &&& p.marker_seq().len() == depth
    &&& forall|k: int| 0 <= k < depth ==> p.sibling_seq()[k] == layers[k][sibling_index(
        i0,
        k as nat,
    )]
    &&& forall|k: int| 0 <= k < depth ==> p.marker_seq()[k] == climb_index(i0, k as nat) % 2
}

/// The error taxonomy of the tree engine.
#[derive(Clone, Copy, PartialEq, Eq, Structural, Debug)]
pub enum TreeError {
    /// Only arity 2 is supported.
    UnsupportedArity,
    /// The operation is valid only before finalization.
    AlreadyFinalized,
    /// The operation is valid only after finalization.
    NotFinalized,
    /// The requested leaf is absent from the finalized leaf sequence.
    LeafNotFound,
    /// More leaves than the requested depth can hold.
    CapacityExceeded,
    /// Persisted tree bytes are malformed or truncated.
    MalformedEncoding,
}

/// An inclusion proof: the claimed leaf, the sibling values and path
/// markers from bottom to top, and the root it was derived against.
#[derive(Debug)]
pub struct MerkleProof {
    pub leaf: Felt,
    pub siblings: Vec<Felt>,
    pub path_indices: Vec<usize>,
    pub root: Felt,
}

impl MerkleProof {
    /// The integer values of the sibling elements.
    pub open spec fn sibling_seq(self) -> Seq<int> {
        felt_seq(self.siblings@)
    }

    /// The integer values of the path markers.
    pub open spec fn marker_seq(self) -> Seq<int> {
        self.path_indices@.map_values(|m: usize| m as int)
    }
}

/// A binary Merkle commitment tree over the secp256k1 base field.
pub struct MerkleTree {
    pub(crate) config: HashConfig,
    pub(crate) leaves: Vec<Felt>,
    pub(crate) is_tree_ready: bool,
    pub(crate) layers: Vec<Vec<Felt>>,
    pub(crate) depth: Option<usize>,
    pub(crate) root: Option<Felt>,
}

impl MerkleTree {
    /// Whether the tree has been finalized.
    pub closed spec fn is_ready(self) -> bool {
        self.is_tree_ready
    }

    /// The integer values of the stored leaves (after finalization: the
    /// padded leaf sequence).
    pub closed spec fn leaf_seq(self) -> Seq<int> {
        felt_seq(self.leaves@)
    }

    /// The integer values of the stored layers, bottom to top.
    pub closed spec fn layer_seq(self) -> Seq<Seq<int>> {
        layers_model(self.layers@)
    }

    /// The stored depth; zero while the tree is building.
    pub closed spec fn depth_val(self) -> nat {
        match self.depth {
            Some(d) => d as nat,
            None => 0,
        }
    }

    /// The stored root's value; zero while the tree is building.
    pub closed spec fn root_val(self) -> int {
        match self.root {
            Some(r) => r@,
            None => 0,
        }
    }

    /// The stored layers are linked by hashing. Holds of every tree that
    /// `finish` produced; a deserialized tree carries it over from the tree
    /// that was serialized.
    pub open spec fn hash_consistent(self) -> bool {
        layers_linked(self.layer_seq(), self.depth_val())
    }

    pub(crate) open spec fn cfg_ok(self) -> bool {
        config_model(self.config) == standard_config_model(2)
    }

    pub(crate) open spec fn ready_shape(self) -> bool {
        &&& self.depth is Some
        &&& self.depth_val() <= 63
        &&& self.leaves@.len() == pow2(self.depth_val())
        &&& self.layers@.len() == self.depth_val() + 1
        &&& forall|k: int| 0 <= k <= self.depth_val()
            ==> (#[trigger] self.layers@[k])@.len() == pow2((self.depth_val() - k) as nat)
        &&& self.layer_seq()[0] == self.leaf_seq()
        &&& self.root is Some
        &&& self.root_val() == self.layer_seq()[self.depth_val() as int][0]
    }

    #[verifier::type_invariant]
    pub(crate) open spec fn inv(self) -> bool {
        &&& self.cfg_ok()
        &&& forall|i: int| 0 <= i < self.leaves@.len()
            ==> 0 <= (#[trigger] self.leaves@[i])@ < fq_modulus()
        &&& forall|k: int, i: int|
            0 <= k < self.layers@.len() && 0 <= i < self.layers@[k]@.len()
            ==> 0 <= ((#[trigger] self.layers@[k]@[i]))@ < fq_modulus()
        &&& self.is_tree_ready ==> self.ready_shape()
        &&& !self.is_tree_ready ==> self.depth is None && self.root is None && self.layers@.len()
            == 0
    }

    /// Creates an empty building tree. Fails exactly when the requested
    /// arity is not 2: only binary trees are supported.
    pub fn new(arity: usize) -> (r: Result<MerkleTree, TreeError>)
        ensures
            arity == 2 ==> (r matches Ok(t) && {
                &&& !t.is_ready()
                &&& t.leaf_seq() == Seq::<int>::empty()
            }),
            arity != 2 ==> r == Result::<MerkleTree, TreeError>::Err(TreeError::UnsupportedArity),
    {
        if arity != 2 {
            return Err(TreeError::UnsupportedArity);
        }
        let t = MerkleTree {
            config: poseidon_tree_config(),
            leaves: Vec::new(),
            is_tree_ready: false,
            layers: Vec::new(),
            depth: None,
            root: None,
        };
        proof {
            assert(t.leaf_seq() =~= Seq::<int>::empty());
        }
        Ok(t)
    }

    /// Appends a leaf at the next free index. Valid only while the tree is
    /// building; after finalization the tree is immutable.
    pub fn insert(&mut self, leaf: Felt) -> (r: Result<(), TreeError>)
        ensures
            old(self).is_ready() ==> {
                &&& r == Result::<(), TreeError>::Err(TreeError::AlreadyFinalized)
                &&& *final(self) == *old(self)
            },
            !old(self).is_ready() ==> {
                &&& r is Ok
                &&& !final(self).is_ready()
                &&& final(self).leaf_seq() == old(self).leaf_seq().push(leaf@)
            },
    {
        proof {
            use_type_invariant(&*self);
            use_type_invariant(&leaf);
        }
        if self.is_tree_ready {
            return Err(TreeError::AlreadyFinalized);
        }
        let ghost old_leaves = self.leaves@;
        let mut taken: Vec<Felt> = Vec::new();
        std::mem::swap(&mut taken, &mut self.leaves);
        taken.push(leaf);
        proof {
            assert forall|i: int| 0 <= i < taken@.len() implies 0 <= (#[trigger] taken@[i])@
                < fq_modulus() by {
                if i < old_leaves.len() {
                    assert(taken@[i] == old_leaves[i]);
                }
            }
        }
        self.leaves = taken;
        proof {
            assert(self.leaf_seq() =~= old_leaves.map_values(|f: Felt| f@).push(leaf@));
        }
        Ok(())
    }

    /// The stored root: present exactly once the tree is ready.
    pub fn root(&self) -> (r: Option<Felt>)
        ensures
            r is Some <==> self.is_ready(),
            match r {
                Some(f) => f@ == self.root_val(),
                None => true,
            },
    {
        proof {
            use_type_invariant(&*self);
        }
        self.root
    }

    /// Pads the leaf sequence with zero elements up to the next power of
    /// two, builds every layer bottom-up, stores the root, and moves the
    /// tree to ready. A single leaf gives depth 0 and a root equal to that
    /// leaf. One-shot: a second call is refused and changes nothing.
    pub fn finish(&mut self) -> (r: Result<(), TreeError>)
        requires
            old(self).leaf_seq().len() <= usize::MAX / 2,
        ensures
            old(self).is_ready() ==> {
                &&& r == Result::<(), TreeError>::Err(TreeError::AlreadyFinalized)
                &&& *final(self) == *old(self)
            },
            !old(self).is_ready() ==> {
                &&& r is Ok
                &&& final(self).is_ready()
                &&& final(self).depth_val() <= 63
                &&& pow2(final(self).depth_val()) >= old(self).leaf_seq().len()
                &&& (final(self).depth_val() == 0 ==> old(self).leaf_seq().len() <= 1)
                &&& (final(self).depth_val() > 0 ==> pow2(
                    (final(self).depth_val() - 1) as nat,
                ) < old(self).leaf_seq().len())
                &&& final(self).leaf_seq() == old(self).leaf_seq() + Seq::new(
                    (pow2(final(self).depth_val()) - old(self).leaf_seq().len()) as nat,
                    |i: int| zero_leaf(),
                )
                &&& final(self).layer_seq().len() == final(self).depth_val() + 1
                &&& final(self).layer_seq()[0] == final(self).leaf_seq()
                &&& final(self).hash_consistent()
                &&& final(self).root_val() == root_of(
                    final(self).leaf_seq(),
                    final(self).depth_val(),
                )
            },
    {
        proof {
            use_type_invariant(&*self);
        }
        if self.is_tree_ready {
            return Err(TreeError::AlreadyFinalized);
        }
        let ghost orig = self.leaf_seq();
        let n = self.leaves.len();

        // The smallest power of two that holds the leaves, and its exponent.
        let mut padded: usize = 1;
        let mut depth: usize = 0;
        proof {
            lemma2_to64();
        }
        while padded < n
            invariant
                n <= usize::MAX / 2,
                depth <= 63,
                padded == pow2(depth as nat),
                depth > 0 ==> pow2((depth - 1) as nat) < n,
            decreases 64 - depth,
        {
            proof {
                lemma2_to64_rest();
                if depth >= 63 {
                    assert(padded == pow2(63));
                    assert(false);
                }
                lemma_pow2_unfold((depth + 1) as nat);
            }
            padded = padded * 2;
            depth = depth + 1;
        }
        let ghost d = depth as nat;

        // Pad the leaves with the zero element.
        let mut leaves_v: Vec<Felt> = Vec::new();
        std::mem::swap(&mut leaves_v, &mut self.leaves);
        while leaves_v.len() < padded
            invariant
                orig.len() == n,
                n <= leaves_v@.len() <= padded,
                felt_seq(leaves_v@) =~= orig + Seq::new(
                    (leaves_v@.len() - n) as nat,
                    |i: int| zero_leaf(),
                ),
                forall|i: int| 0 <= i < leaves_v@.len() ==> 0 <= (#[trigger] leaves_v@[i])@
                    < fq_modulus(),
            decreases padded - leaves_v@.len(),
        {
            let ghost before = leaves_v@;
            let z = Felt::zero();
            leaves_v.push(z);
            proof {
                let target = orig + Seq::new((leaves_v@.len() - n) as nat, |i: int| zero_leaf());
                assert(leaves_v@ == before.push(z));
                assert(felt_seq(leaves_v@).len() == target.len());
                assert forall|i: int| 0 <= i < leaves_v@.len() implies felt_seq(leaves_v@)[i]
                    == target[i] by {
                    assert(felt_seq(leaves_v@)[i] == leaves_v@[i]@);
                    if i < before.len() {
                        assert(leaves_v@[i] == before[i]);
                        assert(felt_seq(before)[i] == before[i]@);
                    } else {
                        assert(leaves_v@[i] == z);
                    }
                }
                assert(felt_seq(leaves_v@) =~= target);
            }
        }
        let ghost lv = felt_seq(leaves_v@);
        self.leaves = leaves_v;

        // The zero-subtree cache for depths 0..=depth.
        let mut zeros_v: Vec<Felt> = Vec::new();
        zeros_v.push(Felt::zero());
        let mut i: usize = 0;
        while i < depth
            invariant
                i <= depth,
                zeros_v@.len() == i + 1,
                self.cfg_ok(),
                forall|k: int| 0 <= k <= i ==> (#[trigger] zeros_v@[k])@ == zero_subtree_root(
                    k as nat,
                ),
                forall|k: int| 0 <= k < zeros_v@.len() ==> 0 <= (#[trigger] zeros_v@[k])@
                    < fq_modulus(),
            decreases depth - i,
        {
            let h = hash_pair(&self.config, &zeros_v[i], &zeros_v[i]);
            proof {
                use_type_invariant(&h);
            }
            zeros_v.push(h);
            i = i + 1;
        }

        // Build the layers bottom-up; within a level every pair is
        // independent, and a pair of zero-subtree roots is looked up
        // rather than hashed.
        let mut cur: Vec<Felt> = copy_vec(&self.leaves);
        let mut layers_v: Vec<Vec<Felt>> = Vec::new();
        layers_v.push(copy_vec(&cur));
        proof {
            assert(layers_model(layers_v@) =~= seq![lv]);
        }
        let mut lvl: usize = 0;
        while lvl < depth
            invariant
                lvl <= depth,
                depth <= 63,
                self.cfg_ok(),
                self.leaves@.len() == pow2(d),
                d == depth as nat,
                lv == felt_seq(self.leaves@),
                cur@.len() == pow2((d - lvl) as nat),
                layers_v@.len() == lvl + 1,
                layers_model(layers_v@)[0] == lv,
                layers_model(layers_v@)[lvl as int] == felt_seq(cur@),
                layers_linked(layers_model(layers_v@), lvl as nat),
                forall|k: int| 0 <= k <= lvl ==> (#[trigger] layers_v@[k])@.len() == pow2(
                    (d - k) as nat,
                ),
                forall|k: int, ii: int|
                    0 <= k < layers_v@.len() && 0 <= ii < layers_v@[k]@.len() ==> 0 <= (
                    #[trigger] layers_v@[k]@[ii])@ < fq_modulus(),
                forall|ii: int| 0 <= ii < cur@.len() ==> 0 <= (#[trigger] cur@[ii])@
                    < fq_modulus(),
                zeros_v@.len() == depth + 1,
                forall|k: int| 0 <= k <= depth ==> (#[trigger] zeros_v@[k])@ == zero_subtree_root(
                    k as nat,
                ),
            decreases depth - lvl,
        {
            proof {
                lemma_pow2_unfold((d - lvl) as nat);
            }
            let m = cur.len() / 2;
            let mut next: Vec<Felt> = Vec::new();
            let mut j: usize = 0;
            while j < m
                invariant
                    j <= m,
                    lvl < depth,
                    self.cfg_ok(),
                    cur@.len() == 2 * m,
                    cur@.len() <= usize::MAX,
                    next@.len() == j,
                    felt_seq(next@) =~= layer_up(felt_seq(cur@)).take(j as int),
                    zeros_v@.len() == depth + 1,
                    forall|k: int| 0 <= k <= depth ==> (#[trigger] zeros_v@[k])@
                        == zero_subtree_root(k as nat),
                    forall|ii: int| 0 <= ii < cur@.len() ==> 0 <= (#[trigger] cur@[ii])@
                        < fq_modulus(),
                    forall|ii: int| 0 <= ii < next@.len() ==> 0 <= (#[trigger] next@[ii])@
                        < fq_modulus(),
                decreases m - j,
            {
                let a = cur[2 * j];
                let b = cur[2 * j + 1];
                let h = if a == zeros_v[lvl] && b == zeros_v[lvl] {
                    zeros_v[lvl + 1]
                } else {
                    hash_pair(&self.config, &a, &b)
                };
                proof {
                    use_type_invariant(&h);
                    assert(h@ == hash2(a@, b@));
                    assert(layer_up(felt_seq(cur@))[j as int] == hash2(a@, b@));
                }
                next.push(h);
                j = j + 1;
                proof {
                    assert(felt_seq(next@) =~= layer_up(felt_seq(cur@)).take(j as int));
                }
            }
            proof {
                assert(felt_seq(next@) =~= layer_up(felt_seq(cur@)));
            }
            let ghost old_model = layers_model(layers_v@);
            layers_v.push(copy_vec(&next));
            proof {
                assert(layers_model(layers_v@) =~= old_model.push(felt_seq(next@)));
            }
            cur = next;
            lvl = lvl + 1;
        }

        let root = cur[0];
        let mut final_leaves: Vec<Felt> = Vec::new();
        std::mem::swap(&mut final_leaves, &mut self.leaves);
        *self = MerkleTree {
            config: poseidon_tree_config(),
            leaves: final_leaves,
            is_tree_ready: true,
            layers: layers_v,
            depth: Some(depth),
            root: Some(root),
        };
        proof {
            assert(self.leaf_seq() =~= orig + Seq::new((pow2(d) - n) as nat, |i: int| zero_leaf()));
            lemma_linked_layer_above(self.layer_seq(), d, d);
        }
        Ok(())
    }

    /// Derives an inclusion proof for the given leaf value against the
    /// finalized tree. The first index holding the value is used: with
    /// duplicate leaf values the proof resolves to the earliest index.
    /// Valid only once the tree is ready; a value absent from the padded
    /// leaf sequence is refused.
    pub fn create_proof(&self, leaf: Felt) -> (r: Result<MerkleProof, TreeError>)
        ensures
            !self.is_ready() ==> r == Result::<MerkleProof, TreeError>::Err(
                TreeError::NotFinalized,
            ),
            self.is_ready() ==> match r {
                Ok(p) => {
                    &&& p.leaf == leaf
                    &&& p.root@ == self.root_val()
                    &&& exists|i: int|
                        is_first_match(self.leaf_seq(), leaf@, i) && proof_matches(
                            p,
                            self.layer_seq(),
                            self.depth_val(),
                            i,
                        )
                    &&& (self.hash_consistent() ==> replay(
                        leaf@,
                        p.sibling_seq(),
                        p.marker_seq(),
                    ) == self.root_val())
                },
                Err(e) => {
                    &&& e == TreeError::LeafNotFound
                    &&& forall|i: int|
                        0 <= i < self.leaf_seq().len() ==> self.leaf_seq()[i] != leaf@
                },
            },
    {
        proof {
            use_type_invariant(&*self);
        }
        if !self.is_tree_ready {
            return Err(TreeError::NotFinalized);
        }
        let n = self.leaves.len();
        let mut idx: usize = 0;
        let mut found: bool = false;
        while !found && idx < n
            invariant
                idx <= n,
                n == self.leaves@.len(),
                found ==> is_first_match(self.leaf_seq(), leaf@, idx as int),
                !found ==> forall|j: int| 0 <= j < idx ==> self.leaf_seq()[j] != leaf@,
            decreases n - idx + (if found { 0int } else { 1int }),
        {
            if self.leaves[idx] == leaf {
                found = true;
            } else {
                proof {
                    lemma_value_injective(self.leaves@[idx as int], leaf);
                }
                idx = idx + 1;
            }
        }
        if !found {
            return Err(TreeError::LeafNotFound);
        }

        let depth = match self.depth {
            Some(dd) => dd,
            None => 0,
        };
        let ghost i0 = idx as int;
        let ghost big_l = self.layer_seq();
        let ghost d = self.depth_val();
        let mut siblings: Vec<Felt> = Vec::new();
        let mut path_indices: Vec<usize> = Vec::new();
        let mut cur_idx: usize = idx;
        let mut k: usize = 0;
        proof {
            lemma2_to64();
            assert(climb_index(i0, 0) == i0);
            assert(big_l[0] == self.leaf_seq());
            assert(replay(leaf@, felt_seq(siblings@), path_indices@.map_values(|m: usize| m as int)) == leaf@);
        }
        while k < depth
            invariant
                self.inv(),
                self.is_ready(),
                k <= depth,
                d == depth as nat,
                d == self.depth_val(),
                big_l == self.layer_seq(),
                0 <= i0 < pow2(d),
                leaf@ == big_l[0][i0],
                cur_idx == climb_index(i0, k as nat),
                cur_idx < pow2((d - k) as nat),
                siblings@.len() == k,
                path_indices@.len() == k,
                forall|kk: int| 0 <= kk < k ==> felt_seq(siblings@)[kk] == big_l[kk][sibling_index(
                    i0,
                    kk as nat,
                )],
                forall|kk: int| 0 <= kk < k ==> path_indices@.map_values(|m: usize| m as int)[kk]
                    == #[trigger] climb_index(i0, kk as nat) % 2,
                layers_linked(big_l, d) ==> replay(
                    leaf@,
                    felt_seq(siblings@),
                    path_indices@.map_values(|m: usize| m as int),
                ) == big_l[k as int][cur_idx as int],
            decreases depth - k,
        {
            proof {
                lemma_pow2_unfold((d - k) as nat);
                lemma_fundamental_div_mod(cur_idx as int, 2);
            }
            let ghost half = pow2((d - k - 1) as nat);
            let sib_idx = if cur_idx % 2 == 0 {
                cur_idx + 1
            } else {
                cur_idx - 1
            };
            proof {
                assert(cur_idx as int == 2 * (cur_idx as int / 2) + (cur_idx as int % 2));
                if cur_idx % 2 == 0 {
                    assert(cur_idx as int / 2 < half || cur_idx as int / 2 == half) by {
                        assert(cur_idx < 2 * half);
                    }
                    assert(cur_idx as int / 2 < half);
                    assert(sib_idx < pow2((d - k) as nat));
                } else {
                    assert(sib_idx < pow2((d - k) as nat));
                }
            }
            let layer_k: &Vec<Felt> = &self.layers[k];
            let sibling = layer_k[sib_idx];
            let marker = cur_idx % 2;
            let ghost prev_sibs = felt_seq(siblings@);
            let ghost prev_marks = path_indices@.map_values(|m: usize| m as int);
            siblings.push(sibling);
            path_indices.push(marker);
            proof {
                assert(felt_seq(siblings@) =~= prev_sibs.push(sibling@));
                assert(path_indices@.map_values(|m: usize| m as int) =~= prev_marks.push(
                    marker as int,
                ));
                lemma_replay_snoc(leaf@, prev_sibs, prev_marks, sibling@, marker as int);
                assert(sibling@ == big_l[k as int][sib_idx as int]);
                assert(sibling_index(i0, k as nat) == sib_idx);
                let q = cur_idx as int / 2;
                assert(0 <= q < half);
                if layers_linked(big_l, d) {
                    assert(big_l[k as int + 1] == layer_up(big_l[k as int]));
                    assert(layer_up(big_l[k as int])[q] == hash2(
                        big_l[k as int][2 * q],
                        big_l[k as int][2 * q + 1],
                    ));
                    assert(step(big_l[k as int][cur_idx as int], sibling@, marker as int)
                        == big_l[k as int + 1][q]);
                }
                lemma_pow2_pos(k as nat);
                lemma_div_denominator(i0, pow2(k as nat) as int, 2);
                assert(pow2((k + 1) as nat) == 2 * pow2(k as nat)) by {
                    lemma_pow2_unfold((k + 1) as nat);
                }
                assert(climb_index(i0, (k + 1) as nat) == q);
            }
            cur_idx = cur_idx / 2;
            k = k + 1;
        }
        proof {
            lemma2_to64();
            assert(cur_idx == 0);
        }
        let root = match self.root {
            Some(rr) => rr,
            None => Felt::zero(),
        };
        let p = MerkleProof { leaf, siblings, path_indices, root };
        proof {
            assert(is_first_match(self.leaf_seq(), leaf@, i0) && proof_matches(
                p,
                self.layer_seq(),
                self.depth_val(),
                i0,
            ));
        }
        Ok(p)
    }

    /// Replays the proof from the claimed leaf and compares the outcome to
    /// the candidate root, consuming sibling-and-marker pairs up to the
    /// shorter of the two sequences. Valid only once the tree is ready.
    pub fn verify_proof(&self, root: Felt, pf: &MerkleProof) -> (r: Result<bool, TreeError>)
        ensures
            !self.is_ready() ==> r == Result::<bool, TreeError>::Err(TreeError::NotFinalized),
            self.is_ready() ==> (r matches Ok(b) && (b <==> replay(
                pf.leaf@,
                pf.sibling_seq(),
                pf.marker_seq(),
            ) == root@)),
    {
        proof {
            use_type_invariant(&*self);
        }
        if !self.is_tree_ready {
            return Err(TreeError::NotFinalized);
        }
        let sn = pf.siblings.len();
        let mn = pf.path_indices.len();
        let m = if sn < mn {
            sn
        } else {
            mn
        };
        let mut node = pf.leaf;
        let mut k: usize = 0;
        while k < m
            invariant
                self.cfg_ok(),
                k <= m,
                m <= pf.siblings@.len(),
                m <= pf.path_indices@.len(),
                node@ == replay(pf.leaf@, pf.sibling_seq().take(k as int), pf.marker_seq().take(
                    k as int,
                )),
            decreases m - k,
        {
            let s = pf.siblings[k];
            let mk = pf.path_indices[k];
            let h = if mk % 2 == 0 {
                hash_pair(&self.config, &node, &s)
            } else {
                hash_pair(&self.config, &s, &node)
            };
            proof {
                lemma_replay_snoc(
                    pf.leaf@,
                    pf.sibling_seq().take(k as int),
                    pf.marker_seq().take(k as int),
                    s@,
                    mk as int,
                );
                assert(pf.sibling_seq().take(k + 1) =~= pf.sibling_seq().take(k as int).push(s@));
                assert(pf.marker_seq().take(k + 1) =~= pf.marker_seq().take(k as int).push(
                    mk as int,
                ));
                assert(h@ == step(node@, s@, mk as int));
            }
            node = h;
            k = k + 1;
        }
        proof {
            lemma_replay_stops_at_shorter(pf.leaf@, pf.sibling_seq(), pf.marker_seq());
            assert(pf.sibling_seq().take(m as int) == pf.sibling_seq() || pf.marker_seq().take(
                m as int,
            ) == pf.marker_seq()) by {
                if sn < mn {
                    assert(pf.sibling_seq().take(m as int) =~= pf.sibling_seq());
                } else {
                    assert(pf.marker_seq().take(m as int) =~= pf.marker_seq());
                }
            }
            lemma_value_injective(node, root);
        }
        Ok(node == root)
    }
}

impl MerkleTree {
    /// Reassembles a ready tree from already-checked parts; the hash
    /// configuration is built afresh.
    pub(crate) fn assemble_ready(
        leaves: Vec<Felt>,
        layers: Vec<Vec<Felt>>,
        depth: usize,
        root: Felt,
    ) -> (t: MerkleTree)
        requires
            depth <= 63,
            leaves@.len() == pow2(depth as nat),
            layers@.len() == depth + 1,
            forall|k: int| 0 <= k <= depth ==> (#[trigger] layers@[k])@.len() == pow2(
                (depth - k) as nat,
            ),
            felt_seq(leaves@) == layers_model(layers@)[0],
            root@ == layers_model(layers@)[depth as int][0],
            forall|i: int| 0 <= i < leaves@.len() ==> 0 <= (#[trigger] leaves@[i])@ < fq_modulus(),
            forall|k: int, i: int|
                0 <= k < layers@.len() && 0 <= i < layers@[k]@.len() ==> 0 <= ((
                #[trigger] layers@[k]@[i]))@ < fq_modulus(),
        ensures
            t.is_ready(),
            t.leaf_seq() == felt_seq(leaves@),
            t.layer_seq() == layers_model(layers@),
            t.depth_val() == depth,
            t.root_val() == root@,
    {
        MerkleTree {
            config: poseidon_tree_config(),
            leaves,
            is_tree_ready: true,
            layers,
            depth: Some(depth),
            root: Some(root),
        }
    }
}

/// How the public model accessors read the stored fields.
pub(crate) proof fn lemma_tree_model(t: MerkleTree)
    ensures
        t.is_ready() == t.is_tree_ready,
        t.leaf_seq() == felt_seq(t.leaves@),
        t.layer_seq() == layers_model(t.layers@),
        t.depth_val() == (match t.depth {
            Some(d) => d as nat,
            None => 0,
        }),
        t.root_val() == (match t.root {
            Some(r) => r@,
            None => 0,
        }),
{
}

/// Copies a vector of elements.
pub(crate) fn copy_vec(v: &Vec<Felt>) -> (r: Vec<Felt>)
    ensures
        r@ == v@,
{
    let mut r: Vec<Felt> = Vec::new();
    let mut i: usize = 0;
    while i < v.len()
        invariant
            i <= v@.len(),
            r@ =~= v@.take(i as int),
        decreases v@.len() - i,
    {
        r.push(v[i]);
        i = i + 1;
        proof {
            assert(r@ =~= v@.take(i as int));
        }
    }
    proof {
        assert(v@.take(v@.len() as int) =~= v@);
    }
    r
}

/// Replaying one more sibling-and-marker pair extends the climb by one
/// step.
pub proof fn lemma_replay_snoc(v: int, siblings: Seq<int>, markers: Seq<int>, s: int, m: int)
    requires
        siblings.len() == markers.len(),
    ensures
        replay(v, siblings.push(s), markers.push(m)) == step(replay(v, siblings, markers), s, m),
    decreases siblings.len(),
{
    if siblings.len() == 0 {
        assert(siblings.push(s)[0] == s);
        assert(markers.push(m)[0] == m);
        assert(siblings.push(s).drop_first() =~= Seq::<int>::empty());
        assert(markers.push(m).drop_first() =~= Seq::<int>::empty());
        assert(replay(v, siblings.push(s), markers.push(m)) == replay(
            step(v, s, m),
            Seq::<int>::empty(),
            Seq::<int>::empty(),
        ));
    } else {
        assert(siblings.push(s)[0] == siblings[0]);
        assert(markers.push(m)[0] == markers[0]);
        assert(siblings.push(s).drop_first() =~= siblings.drop_first().push(s));
        assert(markers.push(m).drop_first() =~= markers.drop_first().push(m));
        lemma_replay_snoc(
            step(v, siblings[0], markers[0]),
            siblings.drop_first(),
            markers.drop_first(),
            s,
            m,
        );
    }
}

/// A replay consumes pairs only up to the shorter of the two sequences:
/// truncating both to that length changes nothing.
pub proof fn lemma_replay_stops_at_shorter(v: int, siblings: Seq<int>, markers: Seq<int>)
    ensures
        replay(v, siblings, markers) == replay(
            v,
            siblings.take(vstd::math::min(siblings.len() as int, markers.len() as int)),
            markers.take(vstd::math::min(siblings.len() as int, markers.len() as int)),
        ),
    decreases siblings.len(),
{
    let m = vstd::math::min(siblings.len() as int, markers.len() as int);
    if m == 0 {
        assert(siblings.take(0) =~= Seq::<int>::empty());
        assert(markers.take(0) =~= Seq::<int>::empty());
    } else {
        let v1 = step(v, siblings[0], markers[0]);
        lemma_replay_stops_at_shorter(v1, siblings.drop_first(), markers.drop_first());
        assert(siblings.take(m).drop_first() =~= siblings.drop_first().take(m - 1));
        assert(markers.take(m).drop_first() =~= markers.drop_first().take(m - 1));
        assert(siblings.take(m)[0] == siblings[0]);
        assert(markers.take(m)[0] == markers[0]);
    }
}

/// In a stack of layers each linked to the one below by pairwise hashing,
/// layer `k` is exactly the `k`-th layer above the bottom one.
pub proof fn lemma_linked_layer_above(layers: Seq<Seq<int>>, depth: nat, k: nat)
    requires
        layers_linked(layers, depth),
        layers.len() == depth + 1,
        k <= depth,
    ensures
        layers[k as int] == layer_above(layers[0], k),
    decreases k,
{
    if k > 0 {
        lemma_linked_layer_above(layers, depth, (k - 1) as nat);
    }
}

/// The padded depth is pinned by the leaf count: a depth whose power of two
/// holds the leaves, and whose predecessor (if any) does not, is unique.
pub proof fn lemma_depth_determined(n: nat, d1: nat, d2: nat)
    requires
        pow2(d1) >= n,
        d1 == 0 ==> n <= 1,
        d1 > 0 ==> pow2((d1 - 1) as nat) < n,
        pow2(d2) >= n,
        d2 == 0 ==> n <= 1,
        d2 > 0 ==> pow2((d2 - 1) as nat) < n,
    ensures
        d1 == d2,
{
    lemma2_to64();
    if d1 < d2 {
        if d1 < d2 - 1 {
            lemma_pow2_strictly_increases(d1, (d2 - 1) as nat);
        }
        assert(pow2(d1) <= pow2((d2 - 1) as nat));
    }
    if d2 < d1 {
        if d2 < d1 - 1 {
            lemma_pow2_strictly_increases(d2, (d1 - 1) as nat);
        }
        assert(pow2(d2) <= pow2((d1 - 1) as nat));
    }
}

/// Root computation is deterministic: two layer stacks built by linked
/// hashing over the identical bottom layer end in identical roots.
pub proof fn lemma_root_deterministic(l1: Seq<Seq<int>>, l2: Seq<Seq<int>>, depth: nat)
    requires
        layers_linked(l1, depth),
        layers_linked(l2, depth),
        l1.len() == depth + 1,
        l2.len() == depth + 1,
        l1[0] == l2[0],
    ensures
        l1[depth as int][0] == l2[depth as int][0],
{
    lemma_linked_layer_above(l1, depth, depth);
    lemma_linked_layer_above(l2, depth, depth);
}

/// A leaf count of exactly `2^k` needs no padding and gives depth `k`; in
/// particular a single leaf gives depth 0 and a root equal to that leaf.
pub proof fn lemma_exact_power_no_padding(bottom: Seq<int>, k: nat, d: nat)
    requires
        bottom.len() == pow2(k),
        pow2(d) >= bottom.len(),
        d == 0 ==> bottom.len() <= 1,
        d > 0 ==> pow2((d - 1) as nat) < bottom.len(),
    ensures
        d == k,
        bottom + Seq::new((pow2(d) - bottom.len()) as nat, |i: int| zero_leaf()) == bottom,
        k == 0 ==> root_of(bottom, d) == bottom[0],
{
    lemma2_to64();
    if k > 0 {
        lemma_pow2_strictly_increases((k - 1) as nat, k);
    }
    lemma_depth_determined(bottom.len(), d, k);
    assert(bottom + Seq::new((pow2(d) - bottom.len()) as nat, |i: int| zero_leaf()) =~= bottom);
}

/// Climbing a linked layer stack: after `k` levels the replay of the first
/// `k` sibling-and-marker pairs of a well-formed proof for leaf index `i0`
/// reaches the stack's value at the climbing index.
#[verifier::rlimit(100)]
proof fn lemma_climb(p: MerkleProof, layers: Seq<Seq<int>>, depth: nat, i0: int, k: nat)
    requires
        layers_linked(layers, depth),
        layers.len() == depth + 1,
        forall|j: int| 0 <= j <= depth ==> (#[trigger] layers[j]).len() == pow2((depth - j) as nat),
        0 <= i0 < pow2(depth),
        proof_matches(p, layers, depth, i0),
        p.leaf@ == layers[0][i0],
        k <= depth,
    ensures
        replay(p.leaf@, p.sibling_seq().take(k as int), p.marker_seq().take(k as int))
            == layers[k as int][climb_index(i0, k)],
    decreases k,
{
    lemma2_to64();
    lemma_pow2_pos(k);
    if k == 0 {
        assert(p.sibling_seq().take(0) =~= Seq::<int>::empty());
        assert(p.marker_seq().take(0) =~= Seq::<int>::empty());
        assert(climb_index(i0, 0) == i0);
    } else {
        let km1 = (k - 1) as nat;
        lemma_climb(p, layers, depth, i0, km1);
        let cur = climb_index(i0, km1);
        let sibs = p.sibling_seq().take(km1 as int);
        let marks = p.marker_seq().take(km1 as int);
        assert(p.sibling_seq().take(k as int) =~= sibs.push(p.sibling_seq()[km1 as int]));
        assert(p.marker_seq().take(k as int) =~= marks.push(p.marker_seq()[km1 as int]));
        lemma_replay_snoc(
            p.leaf@,
            sibs,
            marks,
            p.sibling_seq()[km1 as int],
            p.marker_seq()[km1 as int],
        );
        lemma_pow2_unfold((depth - km1) as nat);
        lemma_fundamental_div_mod(cur, 2);
        let q = cur / 2;
        let half = pow2((depth - k) as nat);
        assert(0 <= cur < 2 * half) by {
            vstd::arithmetic::power2::lemma_pow2_adds(km1, (depth - km1) as nat);
            vstd::arithmetic::div_mod::lemma_div_pos_is_pos(i0, pow2(km1) as int);
            vstd::arithmetic::div_mod::lemma_multiply_divide_lt(
                i0,
                pow2(km1) as int,
                pow2((depth - km1) as nat) as int,
            );
        }
        assert(0 <= q < half);
        assert(layers[km1 as int + 1] == layer_up(layers[km1 as int]));
        assert(layer_up(layers[km1 as int])[q] == hash2(
            layers[km1 as int][2 * q],
            layers[km1 as int][2 * q + 1],
        ));
        lemma_pow2_pos(km1);
        lemma_div_denominator(i0, pow2(km1) as int, 2);
        assert(pow2(k) == 2 * pow2(km1)) by {
            lemma_pow2_unfold(k);
        }
        assert(climb_index(i0, k) == q);
        assert(p.marker_seq()[km1 as int] == cur % 2);
        assert(p.sibling_seq()[km1 as int] == layers[km1 as int][sibling_index(i0, km1)]);
        if cur % 2 == 0 {
            assert(sibling_index(i0, km1) == cur + 1);
            assert(cur == 2 * q);
            assert(step(layers[km1 as int][cur], p.sibling_seq()[km1 as int], p.marker_seq()[km1 as int])
                == hash2(layers[km1 as int][2 * q], layers[km1 as int][2 * q + 1]));
        } else {
            assert(sibling_index(i0, km1) == cur - 1);
            assert(cur == 2 * q + 1);
            assert(step(layers[km1 as int][cur], p.sibling_seq()[km1 as int], p.marker_seq()[km1 as int])
                == hash2(layers[km1 as int][2 * q], layers[km1 as int][2 * q + 1]));
        }
        assert(replay(p.leaf@, p.sibling_seq().take(k as int), p.marker_seq().take(k as int))
            == step(layers[km1 as int][cur], p.sibling_seq()[km1 as int], p.marker_seq()[km1 as int]));
        assert(layers[k as int][q] == hash2(layers[km1 as int][2 * q], layers[km1 as int][2 * q + 1]));
    }
}

/// A proof derived from a linked layer stack verifies: replaying its
/// sibling and marker sequences from its leaf reproduces the stack's root.
pub proof fn lemma_created_proof_verifies(p: MerkleProof, layers: Seq<Seq<int>>, depth: nat, i0: int)
    requires
        layers_linked(layers, depth),
        layers.len() == depth + 1,
        forall|j: int| 0 <= j <= depth ==> (#[trigger] layers[j]).len() == pow2((depth - j) as nat),
        0 <= i0 < pow2(depth),
        proof_matches(p, layers, depth, i0),
        p.leaf@ == layers[0][i0],
    ensures
        replay(p.leaf@, p.sibling_seq(), p.marker_seq()) == layers[depth as int][0],
{
    lemma_climb(p, layers, depth, i0, depth);
    assert(p.sibling_seq().take(depth as int) =~= p.sibling_seq());
    assert(p.marker_seq().take(depth as int) =~= p.marker_seq());
    lemma_pow2_pos(depth);
    assert(climb_index(i0, depth) == 0) by {
        vstd::arithmetic::div_mod::lemma_basic_div(i0, pow2(depth) as int);
    }
}

} // verus!
