//! Field elements of the secp256k1 base field, stored as four 64-bit limbs
//! in little-endian order. Every `Felt` value is reduced: its integer value is
//! below the field prime.

use vstd::prelude::*;
use vstd::arithmetic::div_mod::{lemma_fundamental_div_mod_converse};

verus! {

/// 2^64, the radix of the limb representation.
pub open spec fn limb_radix() -> int {
    0x10000000000000000
}

/// The prime modulus of the secp256k1 base field:
/// 2^256 - 2^32 - 977.
pub open spec fn fq_modulus() -> int {
    limb_radix() * limb_radix() * limb_radix() * limb_radix() - 0x100000000 - 977
}

/// The integer value of four little-endian 64-bit limbs.
pub open spec fn limbs_value(d0: u64, d1: u64, d2: u64, d3: u64) -> int {
    (((d3 as int) * limb_radix() + d2) * limb_radix() + d1) * limb_radix() + d0
}

/// An element of the secp256k1 base field. The sole value type for leaves
/// and internal nodes of the tree.
#[derive(Clone, Copy, PartialEq, Eq, Structural, Debug)]
pub struct Felt {
    pub(crate) d0: u64,
    pub(crate) d1: u64,
    pub(crate) d2: u64,
    pub(crate) d3: u64,
}

impl View for Felt {
    type V = int;

    closed spec fn view(&self) -> int {
        limbs_value(self.d0, self.d1, self.d2, self.d3)
    }
}

impl Felt {
    #[verifier::type_invariant]
    pub(crate) open spec fn inv(self) -> bool {
        0 <= self@ < fq_modulus()
    }

    /// The zero element, used for padding.
    pub fn zero() -> (r: Felt)
        ensures
            r@ == 0,
    {
        Felt { d0: 0, d1: 0, d2: 0, d3: 0 }
    }

    /// The element standing for a small unsigned integer.
    pub fn from_u64(x: u64) -> (r: Felt)
        ensures
            r@ == x,
    {
        Felt { d0: x, d1: 0, d2: 0, d3: 0 }
    }

    /// Builds an element from four little-endian 64-bit limbs; `None` when
    /// the limbs encode an integer at or above the field prime.
    pub fn from_limbs(limbs: [u64; 4]) -> (r: Option<Felt>)
        ensures
            limbs_value(limbs[0], limbs[1], limbs[2], limbs[3]) < fq_modulus() ==> (match r {
                Some(f) => f@ == limbs_value(limbs[0], limbs[1], limbs[2], limbs[3]),
                None => false,
            }),
            limbs_value(limbs[0], limbs[1], limbs[2], limbs[3]) >= fq_modulus() ==> r is None,
    {
        Felt::from_limbs_parts(limbs[0], limbs[1], limbs[2], limbs[3])
    }

    /// As `from_limbs`, with the limbs passed singly.
    pub fn from_limbs_parts(d0: u64, d1: u64, d2: u64, d3: u64) -> (r: Option<Felt>)
        ensures
            limbs_value(d0, d1, d2, d3) < fq_modulus() ==> (match r {
                Some(f) => f@ == limbs_value(d0, d1, d2, d3),
                None => false,
            }),
            limbs_value(d0, d1, d2, d3) >= fq_modulus() ==> r is None,
    {
        if d3 == u64::MAX && d2 == u64::MAX && d1 == u64::MAX && d0 >= 0xFFFFFFFEFFFFFC2F {
            None
        } else {
            Some(Felt { d0, d1, d2, d3 })
        }
    }

    /// The four little-endian 64-bit limbs of the element.
    pub fn limbs(&self) -> (r: [u64; 4])
        ensures
            limbs_value(r[0], r[1], r[2], r[3]) == self@,
            limbs_value(r[0], r[1], r[2], r[3]) < fq_modulus(),
    {
        proof {
            use_type_invariant(self);
        }
        [self.d0, self.d1, self.d2, self.d3]
    }
}

/// The integer value of a big-endian byte sequence.
pub open spec fn be_val(s: Seq<u8>) -> int
    decreases s.len(),
{
    if s.len() == 0 {
        0
    } else {
        be_val(s.drop_last()) * 256 + s.last()
    }
}

/// The digit character of a value below ten.
pub open spec fn dec_digit(n: nat) -> char {
    if n == 0 { '0' } else if n == 1 { '1' } else if n == 2 { '2' } else if n == 3 { '3' }
    else if n == 4 { '4' } else if n == 5 { '5' } else if n == 6 { '6' } else if n == 7 { '7' }
    else if n == 8 { '8' } else { '9' }
}

/// The decimal rendering of a natural number, with no leading zeros.
pub open spec fn dec_of(n: nat) -> Seq<char>
    decreases n,
{
    if n < 10 {
        seq![dec_digit(n)]
    } else {
        dec_of(n / 10).push(dec_digit(n % 10))
    }
}

/// The digit character of a value below sixteen, lowercase.
pub open spec fn hex_digit(n: int) -> char {
    if n == 10 { 'a' } else if n == 11 { 'b' } else if n == 12 { 'c' } else if n == 13 { 'd' }
    else if n == 14 { 'e' } else if n == 15 { 'f' } else { dec_digit(n as nat) }
}

/// The lowercase hexadecimal rendering of a byte sequence, two digits per
/// byte, in order.
pub open spec fn hex_of(s: Seq<u8>) -> Seq<char>
    decreases s.len(),
{
    if s.len() == 0 {
        Seq::empty()
    } else {
        hex_of(s.drop_last()) + seq![hex_digit(s.last() as int / 16), hex_digit(s.last() as int % 16)]
    }
}

/// Two elements are equal exactly when they stand for the same integer:
/// the limb representation of a value is unique.
pub proof fn lemma_value_injective(a: Felt, b: Felt)
    ensures
        (a@ == b@) <==> (a == b),
{
    if a@ == b@ {
        lemma_limbs_unique(a.d0, a.d1, a.d2, a.d3, b.d0, b.d1, b.d2, b.d3);
    }
}

/// An element's value is the value of its limbs.
pub(crate) proof fn lemma_view_is_limbs(f: Felt)
    ensures
        f@ == limbs_value(f.d0, f.d1, f.d2, f.d3),
{
}

/// The limbs of a value are its base-2^64 digits.
pub(crate) proof fn lemma_limbs_decompose(d0: u64, d1: u64, d2: u64, d3: u64)
    ensures
        limbs_value(d0, d1, d2, d3) >= 0,
        limbs_value(d0, d1, d2, d3) % limb_radix() == d0,
        (limbs_value(d0, d1, d2, d3) / limb_radix()) % limb_radix() == d1,
        ((limbs_value(d0, d1, d2, d3) / limb_radix()) / limb_radix()) % limb_radix() == d2,
        ((limbs_value(d0, d1, d2, d3) / limb_radix()) / limb_radix()) / limb_radix() == d3,
{
    let v: int = limbs_value(d0, d1, d2, d3);
    lemma_fundamental_div_mod_converse(
        v, limb_radix(), ((d3 as int) * limb_radix() + d2) * limb_radix() + d1, d0 as int);
    let v1: int = v / limb_radix();
    lemma_fundamental_div_mod_converse(
        v1, limb_radix(), (d3 as int) * limb_radix() + d2, d1 as int);
    let v2: int = v1 / limb_radix();
    lemma_fundamental_div_mod_converse(v2, limb_radix(), d3 as int, d2 as int);
}

proof fn lemma_limbs_unique(a0: u64, a1: u64, a2: u64, a3: u64, b0: u64, b1: u64, b2: u64, b3: u64)
    requires
        limbs_value(a0, a1, a2, a3) == limbs_value(b0, b1, b2, b3),
    ensures
        a0 == b0 && a1 == b1 && a2 == b2 && a3 == b3,
{
    let v: int = limbs_value(a0, a1, a2, a3);
    lemma_fundamental_div_mod_converse(
        v, limb_radix(), ((a3 as int) * limb_radix() + a2) * limb_radix() + a1, a0 as int);
    lemma_fundamental_div_mod_converse(
        v, limb_radix(), ((b3 as int) * limb_radix() + b2) * limb_radix() + b1, b0 as int);
    let v1: int = v / limb_radix();
    lemma_fundamental_div_mod_converse(
        v1, limb_radix(), (a3 as int) * limb_radix() + a2, a1 as int);
    lemma_fundamental_div_mod_converse(
        v1, limb_radix(), (b3 as int) * limb_radix() + b2, b1 as int);
    let v2: int = v1 / limb_radix();
    lemma_fundamental_div_mod_converse(v2, limb_radix(), a3 as int, a2 as int);
    lemma_fundamental_div_mod_converse(v2, limb_radix(), b3 as int, b2 as int);
}

} // verus!
