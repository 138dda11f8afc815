//! A fixed-arity (binary) Merkle commitment tree over the secp256k1 base
//! field, hashed with a Poseidon permutation, with compact inclusion proofs,
//! a zero-subtree shortcut for padded regions, and a canonical binary
//! persistence format.

pub mod field;
pub mod hashing;
pub mod tree;
pub mod codec;
pub mod get_proofs;
pub mod records;
pub mod export;
pub mod ingest;
