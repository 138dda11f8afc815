//! The trusted boundary to the outside hash engine and number formatting.
//!
//! Everything the tree engine needs from the arkworks crates is declared
//! here: the Poseidon sponge configuration, the pair-hash it computes, the
//! reduction of raw big-endian bytes into a field element, and the decimal
//! and hexadecimal renderings of values. Each item's contract is what the
//! outside source shows; the hash itself is left as an uninterpreted
//! function of the configuration's contents and the two child values.

use vstd::prelude::*;
use ark_crypto_primitives::sponge::poseidon::{find_poseidon_ark_and_mds, PoseidonConfig, PoseidonSponge};
use ark_crypto_primitives::sponge::{CryptographicSponge, FieldBasedCryptographicSponge};
use ark_ff::{BigInt, PrimeField};
use ark_secp256k1::Fq;
use crate::field::{be_val, dec_of, fq_modulus, hex_of, Felt};

verus! {

/// The hash engine's configuration: the Poseidon round constants, matrix
/// and shape, held opaquely. Verus sees nothing inside; the contracts below
/// speak of its contents through `config_model`.
#[verifier::external_body]
pub struct HashConfig {
    inner: PoseidonConfig<Fq>,
}

/// The contents of a Poseidon configuration — its round constants, matrix
/// entries and shape — flattened into one sequence of integers.
pub uninterp spec fn config_model(c: HashConfig) -> Seq<int>;

/// The contents of the configuration that `find_poseidon_ark_and_mds`
/// generates for this field at the given rate with the rounds used here.
pub uninterp spec fn standard_config_model(rate: int) -> Seq<int>;

/// The element that the Poseidon sponge squeezes after absorbing the pair
/// `(left, right)` under a configuration with the given contents.
pub uninterp spec fn hash_with(cfg: Seq<int>, left: int, right: int) -> int;

/// The compression of one pair of child values into a parent value.
pub open spec fn hash2(left: int, right: int) -> int {
    hash_with(standard_config_model(2), left, right)
}

/// Relies on `find_poseidon_ark_and_mds` and `PoseidonConfig::new` of
/// ark-crypto-primitives: the generated constants are a deterministic
/// function of the field and of the parameters passed here (rate 2,
/// capacity 1, 8 full and 57 partial rounds, S-box exponent 5).
#[verifier::external_body]
pub(crate) fn poseidon_tree_config() -> (c: HashConfig)
    ensures
        config_model(c) == standard_config_model(2),
{
    let (ark, mds) = find_poseidon_ark_and_mds::<Fq>(Fq::MODULUS_BIT_SIZE as u64, 2, 8, 57, 0);
    HashConfig { inner: PoseidonConfig::new(8, 57, 5, mds, ark, 2, 1) }
}

/// Relies on `PoseidonSponge` of ark-crypto-primitives: with a fixed
/// configuration, absorbing two native elements and squeezing one is a
/// deterministic function of the configuration's contents and the two
/// inputs, and the squeezed element is reduced. `from_bigint` cannot fail
/// here because every `Felt` holds a reduced value.
#[verifier::external_body]
pub(crate) fn hash_pair(config: &HashConfig, left: &Felt, right: &Felt) -> (out: Felt)
    ensures
        out@ == hash_with(config_model(*config), left@, right@),
{
    let l = Fq::from_bigint(BigInt::new([left.d0, left.d1, left.d2, left.d3])).unwrap();
    let r = Fq::from_bigint(BigInt::new([right.d0, right.d1, right.d2, right.d3])).unwrap();
    let mut sponge = PoseidonSponge::new(&config.inner);
    sponge.absorb(&vec![l, r]);
    let out = sponge.squeeze_native_field_elements(1)[0].into_bigint().0;
    Felt { d0: out[0], d1: out[1], d2: out[2], d3: out[3] }
}

/// Relies on `PrimeField::from_be_bytes_mod_order` of ark-ff: the bytes are
/// read as one big-endian integer and reduced modulo the field prime.
#[verifier::external_body]
pub(crate) fn element_from_be_bytes(bytes: &[u8]) -> (out: Felt)
    ensures
        out@ == be_val(bytes@) % fq_modulus(),
{
    let limbs = Fq::from_be_bytes_mod_order(bytes).into_bigint().0;
    Felt { d0: limbs[0], d1: limbs[1], d2: limbs[2], d3: limbs[3] }
}

/// Relies on `num_bigint::BigUint`: `from_bytes_le` reads the bytes as one
/// little-endian integer, and `to_string` renders it in decimal with no
/// leading zeros.
#[verifier::external_body]
pub(crate) fn felt_to_decimal(x: &Felt) -> (r: String)
    ensures
        r@ == dec_of(x@ as nat),
{
    let mut bytes: Vec<u8> = Vec::new();
    bytes.extend_from_slice(&x.d0.to_le_bytes());
    bytes.extend_from_slice(&x.d1.to_le_bytes());
    bytes.extend_from_slice(&x.d2.to_le_bytes());
    bytes.extend_from_slice(&x.d3.to_le_bytes());
    num_bigint::BigUint::from_bytes_le(&bytes).to_string()
}

/// Relies on `hex::encode`: two lowercase hexadecimal digits per input
/// byte, in order.
#[verifier::external_body]
pub(crate) fn hex_lower(bytes: &[u8]) -> (r: String)
    ensures
        r@ == hex_of(bytes@),
{
    hex::encode(bytes)
}

impl Felt {
    /// The decimal rendering of the element's integer value.
    pub fn to_decimal(&self) -> (r: String)
        ensures
            r@ == dec_of(self@ as nat),
    {
        felt_to_decimal(self)
    }
}

} // verus!
