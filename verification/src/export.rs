//! Proof records tagged with the leaf's address: the leaf value's low
//! twenty big-endian bytes rendered as a 0x-prefixed hexadecimal string,
//! alongside the decimal proof record.

use vstd::prelude::*;
use crate::codec::{enc_felt, lemma_enc_felt_len, lemma_le_bytes_len, push_limb};
use crate::field::limb_radix;
use crate::field::{dec_of, hex_of, lemma_view_is_limbs, Felt};
use crate::hashing::hex_lower;
use crate::records::u64_to_decimal;
use crate::tree::MerkleProof;

verus! {

/// An inclusion proof as a record of decimal strings, without the leaf.
#[allow(non_snake_case)]
pub struct MerkleProofJson {
    pub siblings: Vec<[String; 1]>,
    pub pathIndices: Vec<String>,
    pub root: String,
}

/// A proof record together with the address its leaf stands for.
pub struct MerkleProofJsonWithAddress {
    pub address: String,
    pub merkleProof: MerkleProofJson,
}

/// The address bytes of a leaf value: the low twenty bytes of its 32-byte
/// rendering, in big-endian order.
pub open spec fn address_bytes(v: int) -> Seq<u8> {
    enc_felt(v).take(20).reverse()
}

impl MerkleProof {
    /// The proof as an address-tagged record of strings.
    pub fn to_json_with_address(&self) -> (r: MerkleProofJsonWithAddress)
        ensures
            r.address@ == ("0x")@ + hex_of(address_bytes(self.leaf@)),
            r.merkleProof.siblings@.len() == self.siblings@.len(),
            forall|k: int| 0 <= k < r.merkleProof.siblings@.len()
                ==> (#[trigger] r.merkleProof.siblings@[k])[0]@ == dec_of(
                self.sibling_seq()[k] as nat,
            ),
            r.merkleProof.pathIndices@.len() == self.path_indices@.len(),
            forall|k: int| 0 <= k < r.merkleProof.pathIndices@.len()
                ==> (#[trigger] r.merkleProof.pathIndices@[k])@ == dec_of(
                self.marker_seq()[k] as nat,
            ),
            r.merkleProof.root@ == dec_of(self.root@ as nat),
    {
        let leaf = self.leaf;
        proof {
            use_type_invariant(&leaf);
            lemma_view_is_limbs(leaf);
            crate::field::lemma_limbs_decompose(leaf.d0, leaf.d1, leaf.d2, leaf.d3);
        }
        let mut le: Vec<u8> = Vec::new();
        push_limb(&mut le, leaf.d0);
        push_limb(&mut le, leaf.d1);
        push_limb(&mut le, leaf.d2);
        proof {
            let v = leaf@;
            lemma_enc_felt_len(v);
            lemma_le_bytes_len(v % limb_radix(), 8);
            lemma_le_bytes_len((v / limb_radix()) % limb_radix(), 8);
            lemma_le_bytes_len(((v / limb_radix()) / limb_radix()) % limb_radix(), 8);
            lemma_le_bytes_len(leaf.d0 as int, 8);
            lemma_le_bytes_len(leaf.d1 as int, 8);
            lemma_le_bytes_len(leaf.d2 as int, 8);
            assert(le@ =~= enc_felt(leaf@).take(24));
            assert(le@.len() == 24);
        }
        let mut rev: Vec<u8> = Vec::new();
        let mut j: usize = 0;
        while j < 20
            invariant
                j <= 20,
                le@.len() == 24,
                le@ == enc_felt(leaf@).take(24),
                rev@.len() == j,
                forall|q: int| 0 <= q < j ==> rev@[q] == le@[19 - q],
            decreases 20 - j,
        {
            rev.push(le[19 - j]);
            j = j + 1;
        }
        proof {
            assert(rev@ =~= address_bytes(leaf@));
        }
        let hex = hex_lower(rev.as_slice());
        let mut address = String::new();
        address.append("0x");
        address.append(hex.as_str());
        proof {
            assert(address@ =~= ("0x")@ + hex_of(address_bytes(leaf@)));
        }

        let mut siblings: Vec<[String; 1]> = Vec::new();
        let mut i: usize = 0;
        while i < self.siblings.len()
            invariant
                i <= self.siblings@.len(),
                siblings@.len() == i,
                forall|k: int| 0 <= k < i ==> (#[trigger] siblings@[k])[0]@ == dec_of(
                    self.sibling_seq()[k] as nat,
                ),
            decreases self.siblings@.len() - i,
        {
            let d = self.siblings[i].to_decimal();
            siblings.push([d]);
            i = i + 1;
        }
        let mut path_strings: Vec<String> = Vec::new();
        let mut k: usize = 0;
        while k < self.path_indices.len()
            invariant
                k <= self.path_indices@.len(),
                path_strings@.len() == k,
                forall|q: int| 0 <= q < k ==> (#[trigger] path_strings@[q])@ == dec_of(
                    self.marker_seq()[q] as nat,
                ),
            decreases self.path_indices@.len() - k,
        {
            let d = u64_to_decimal(self.path_indices[k] as u64);
            path_strings.push(d);
            k = k + 1;
        }
        MerkleProofJsonWithAddress {
            address,
            merkleProof: MerkleProofJson {
                siblings,
                pathIndices: path_strings,
                root: self.root.to_decimal(),
            },
        }
    }
}

} // verus!
