//! The tree's binary persistence format, and its exact round-trip
//! guarantee.
//!
//! The encoding is canonical: one arity byte (always 2), the depth as eight
//! little-endian bytes, then every stored layer bottom to top, each element
//! as 32 little-endian bytes. Lengths are fixed by the depth, so a byte
//! string is the encoding of at most one tree, and deserialization accepts
//! exactly the strings that some well-formed tree state encodes to.

use vstd::prelude::*;
use vstd::arithmetic::power2::{pow2, lemma_pow2_unfold, lemma2_to64, lemma2_to64_rest};
use vstd::arithmetic::div_mod::{
    lemma_breakdown, lemma_fundamental_div_mod, lemma_fundamental_div_mod_converse,
    lemma_small_mod,
};
use crate::field::{fq_modulus, limb_radix, Felt};
use crate::tree::{copy_vec, felt_seq, layers_model, lemma_tree_model, MerkleTree, TreeError};

verus! {

/// The `n`-byte little-endian rendering of a non-negative value.
pub open spec fn le_bytes(v: int, n: nat) -> Seq<u8>
    decreases n,
{
    if n == 0 {
        Seq::empty()
    } else {
        seq![(v % 256) as u8] + le_bytes(v / 256, (n - 1) as nat)
    }
}

/// The value of a little-endian byte sequence.
pub open spec fn le_val(s: Seq<u8>) -> int
    decreases s.len(),
{
    if s.len() == 0 {
        0
    } else {
        s[0] + 256 * le_val(s.drop_first())
    }
}

/// 256 to the `n`-th power.
pub open spec fn p256(n: nat) -> int
    decreases n,
{
    if n == 0 {
        1
    } else {
        256 * p256((n - 1) as nat)
    }
}

/// The 32-byte encoding of one element value: its four base-2^64 digits,
/// each as eight little-endian bytes.
pub open spec fn enc_felt(v: int) -> Seq<u8> {
    le_bytes(v % limb_radix(), 8) + le_bytes((v / limb_radix()) % limb_radix(), 8) + le_bytes(
        ((v / limb_radix()) / limb_radix()) % limb_radix(),
        8,
    ) + le_bytes(((v / limb_radix()) / limb_radix()) / limb_radix(), 8)
}

/// The concatenated encodings of a sequence of element values.
pub open spec fn enc_elems(f: Seq<int>) -> Seq<u8>
    decreases f.len(),
{
    if f.len() == 0 {
        Seq::empty()
    } else {
        enc_felt(f[0]) + enc_elems(f.drop_first())
    }
}

/// All layers flattened into one element sequence, bottom to top.
pub open spec fn flatten_layers(ls: Seq<Seq<int>>) -> Seq<int>
    decreases ls.len(),
{
    if ls.len() == 0 {
        Seq::empty()
    } else {
        ls[0] + flatten_layers(ls.drop_first())
    }
}

/// The canonical encoding of a finalized tree state.
pub open spec fn encode_tree(depth: nat, layers: Seq<Seq<int>>) -> Seq<u8> {
    seq![2u8] + le_bytes(depth as int, 8) + enc_elems(flatten_layers(layers))
}

/// The shape of a finalized tree's layer stack: one layer per level, layer
/// `k` holding `2^(depth-k)` reduced elements.
pub open spec fn valid_tree_shape(depth: nat, layers: Seq<Seq<int>>) -> bool {
    &&& depth <= 63
    &&& layers.len() == depth + 1
    &&& forall|k: int| 0 <= k <= depth ==> (#[trigger] layers[k]).len() == pow2((depth - k) as nat)
    &&& forall|k: int, i: int|
        0 <= k < layers.len() && 0 <= i < layers[k].len() ==> 0 <= #[trigger] layers[k][i]
            < fq_modulus()
}

/// `bytes` is the canonical encoding of the well-shaped tree state
/// `(depth, layers)`.
pub open spec fn is_tree_encoding(bytes: Seq<u8>, depth: nat, layers: Seq<Seq<int>>) -> bool {
    &&& valid_tree_shape(depth, layers)
    &&& bytes == encode_tree(depth, layers)
}

pub(crate) proof fn lemma_le_bytes_len(v: int, n: nat)
    ensures
        le_bytes(v, n).len() == n,
    decreases n,
{
    if n > 0 {
        lemma_le_bytes_len(v / 256, (n - 1) as nat);
    }
}

proof fn lemma_p256_pos(n: nat)
    ensures
        p256(n) >= 1,
    decreases n,
{
    if n > 0 {
        lemma_p256_pos((n - 1) as nat);
    }
}

proof fn lemma_p256_increases(a: nat, b: nat)
    requires
        a <= b,
    ensures
        p256(a) <= p256(b),
    decreases b,
{
    if a < b {
        lemma_p256_increases(a, (b - 1) as nat);
        lemma_p256_pos((b - 1) as nat);
    }
}

proof fn lemma_p256_8()
    ensures
        p256(8) == limb_radix(),
{
    assert(p256(0) == 1);
    assert(p256(1) == 256);
    assert(p256(2) == 0x10000);
    assert(p256(3) == 0x1000000);
    assert(p256(4) == 0x100000000);
    assert(p256(5) == 0x10000000000);
    assert(p256(6) == 0x1000000000000);
    assert(p256(7) == 0x100000000000000);
    assert(p256(8) == 0x10000000000000000);
}

/// Reading back the little-endian rendering of a value recovers the value,
/// modulo the range of the rendering.
proof fn lemma_le_val_le_bytes(v: int, n: nat)
    requires
        v >= 0,
    ensures
        le_val(le_bytes(v, n)) == v % p256(n),
    decreases n,
{
    lemma_le_bytes_len(v, n);
    if n == 0 {
        lemma_small_mod(0, 1);
        assert(v % 1 == 0) by {
            lemma_fundamental_div_mod(v, 1);
        }
    } else {
        let rest = le_bytes(v / 256, (n - 1) as nat);
        assert((seq![(v % 256) as u8] + rest).drop_first() =~= rest);
        assert((seq![(v % 256) as u8] + rest)[0] == (v % 256) as u8);
        vstd::arithmetic::div_mod::lemma_div_pos_is_pos(v, 256);
        lemma_le_val_le_bytes(v / 256, (n - 1) as nat);
        lemma_p256_pos((n - 1) as nat);
        lemma_breakdown(v, 256, p256((n - 1) as nat));
    }
}

/// A little-endian byte sequence is the rendering of its own value.
proof fn lemma_le_bytes_le_val(s: Seq<u8>)
    ensures
        le_bytes(le_val(s), s.len()) == s,
        0 <= le_val(s) < p256(s.len()),
    decreases s.len(),
{
    if s.len() == 0 {
        assert(le_bytes(0, 0) =~= s);
    } else {
        let rest = s.drop_first();
        lemma_le_bytes_le_val(rest);
        lemma_p256_pos(rest.len());
        let v = le_val(s);
        lemma_fundamental_div_mod_converse(v, 256, le_val(rest), s[0] as int);
        assert(v % 256 == s[0]);
        assert(v / 256 == le_val(rest));
        assert(le_bytes(v, s.len()) =~= s);
    }
}

pub(crate) proof fn lemma_enc_felt_len(v: int)
    ensures
        enc_felt(v).len() == 32,
{
    lemma_le_bytes_len(v % limb_radix(), 8);
    lemma_le_bytes_len((v / limb_radix()) % limb_radix(), 8);
    lemma_le_bytes_len(((v / limb_radix()) / limb_radix()) % limb_radix(), 8);
    lemma_le_bytes_len(((v / limb_radix()) / limb_radix()) / limb_radix(), 8);
}

proof fn lemma_enc_elems_len(f: Seq<int>)
    ensures
        enc_elems(f).len() == 32 * f.len(),
    decreases f.len(),
{
    if f.len() > 0 {
        lemma_enc_felt_len(f[0]);
        lemma_enc_elems_len(f.drop_first());
    }
}

proof fn lemma_enc_elems_snoc(f: Seq<int>, x: int)
    ensures
        enc_elems(f.push(x)) == enc_elems(f) + enc_felt(x),
    decreases f.len(),
{
    reveal_with_fuel(enc_elems, 3);
    if f.len() == 0 {
        assert(f.push(x)[0] == x);
        assert(f.push(x).drop_first() =~= Seq::<int>::empty());
        assert(enc_elems(f.push(x)) =~= enc_felt(x) + Seq::<u8>::empty());
        assert(enc_felt(x) + Seq::<u8>::empty() =~= enc_felt(x));
        assert(enc_elems(f) + enc_felt(x) =~= enc_felt(x));
    } else {
        assert(f.push(x)[0] == f[0]);
        assert(f.push(x).drop_first() =~= f.drop_first().push(x));
        lemma_enc_elems_snoc(f.drop_first(), x);
        assert(enc_elems(f.push(x)) =~= enc_elems(f) + enc_felt(x));
    }
}

proof fn lemma_enc_elems_record(f: Seq<int>, t: int)
    requires
        0 <= t < f.len(),
    ensures
        enc_elems(f).subrange(32 * t, 32 * t + 32) == enc_felt(f[t]),
    decreases t,
{
    lemma_enc_elems_len(f);
    lemma_enc_felt_len(f[0]);
    lemma_enc_elems_len(f.drop_first());
    if t == 0 {
        assert(enc_elems(f).subrange(0, 32) =~= enc_felt(f[0]));
    } else {
        lemma_enc_elems_record(f.drop_first(), t - 1);
        assert(enc_elems(f).subrange(32 * t, 32 * t + 32) =~= enc_elems(
            f.drop_first(),
        ).subrange(32 * (t - 1), 32 * (t - 1) + 32));
    }
}

proof fn lemma_flatten_snoc(ls: Seq<Seq<int>>, l: Seq<int>)
    ensures
        flatten_layers(ls.push(l)) == flatten_layers(ls) + l,
    decreases ls.len(),
{
    reveal_with_fuel(flatten_layers, 3);
    if ls.len() == 0 {
        assert(ls.push(l)[0] == l);
        assert(ls.push(l).drop_first() =~= Seq::<Seq<int>>::empty());
        assert(flatten_layers(ls.push(l)) =~= flatten_layers(ls) + l);
    } else {
        assert(ls.push(l)[0] == ls[0]);
        assert(ls.push(l).drop_first() =~= ls.drop_first().push(l));
        lemma_flatten_snoc(ls.drop_first(), l);
        assert(flatten_layers(ls.push(l)) =~= flatten_layers(ls) + l);
    }
}

/// A well-shaped stack of depth `d` flattens to `2^(d+1) - 1` elements,
/// every one reduced.
proof fn lemma_flatten_shaped(depth: nat, layers: Seq<Seq<int>>)
    requires
        layers.len() == depth + 1,
        forall|k: int| 0 <= k <= depth ==> (#[trigger] layers[k]).len() == pow2(
            (depth - k) as nat,
        ),
        forall|k: int, i: int|
            0 <= k < layers.len() && 0 <= i < layers[k].len() ==> 0 <= #[trigger] layers[k][i]
                < fq_modulus(),
    ensures
        flatten_layers(layers).len() == 2 * pow2(depth) - 1,
        forall|t: int| 0 <= t < flatten_layers(layers).len() ==> 0 <= #[trigger] flatten_layers(
            layers,
        )[t] < fq_modulus(),
    decreases depth,
{
    reveal_with_fuel(flatten_layers, 3);
    lemma2_to64();
    let rest = layers.drop_first();
    if depth == 0 {
        assert(flatten_layers(rest) =~= Seq::<int>::empty());
        assert(flatten_layers(layers) =~= layers[0]);
    } else {
        assert forall|k: int| 0 <= k <= depth - 1 implies (#[trigger] rest[k]).len() == pow2(
            ((depth - 1) - k) as nat,
        ) by {
            assert(rest[k] == layers[k + 1]);
        }
        assert forall|k: int, i: int|
            0 <= k < rest.len() && 0 <= i < rest[k].len() implies 0 <= #[trigger] rest[k][i]
            < fq_modulus() by {
            assert(rest[k] == layers[k + 1]);
        }
        lemma_flatten_shaped((depth - 1) as nat, rest);
        lemma_pow2_unfold(depth);
        assert(flatten_layers(layers) == layers[0] + flatten_layers(rest));
        assert forall|t: int| 0 <= t < flatten_layers(layers).len() implies 0
            <= #[trigger] flatten_layers(layers)[t] < fq_modulus() by {
            if t < layers[0].len() {
                assert(flatten_layers(layers)[t] == layers[0][t]);
            } else {
                assert(flatten_layers(layers)[t] == flatten_layers(rest)[t - layers[0].len()]);
            }
        }
    }
}

/// Equal flattenings of two stacks of the same shape come from equal
/// stacks.
proof fn lemma_flatten_injective(depth: nat, l1: Seq<Seq<int>>, l2: Seq<Seq<int>>)
    requires
        l1.len() == depth + 1,
        l2.len() == depth + 1,
        forall|k: int| 0 <= k <= depth ==> (#[trigger] l1[k]).len() == pow2((depth - k) as nat),
        forall|k: int| 0 <= k <= depth ==> (#[trigger] l2[k]).len() == pow2((depth - k) as nat),
        flatten_layers(l1) == flatten_layers(l2),
    ensures
        l1 == l2,
    decreases depth,
{
    reveal_with_fuel(flatten_layers, 3);
    lemma2_to64();
    assert(flatten_layers(l1) == l1[0] + flatten_layers(l1.drop_first()));
    assert(flatten_layers(l2) == l2[0] + flatten_layers(l2.drop_first()));
    assert(l1[0].len() == pow2(depth));
    assert(l2[0].len() == pow2(depth));
    assert(l1[0] =~= flatten_layers(l1).take(pow2(depth) as int));
    assert(l2[0] =~= flatten_layers(l2).take(pow2(depth) as int));
    if depth == 0 {
        assert(l1.drop_first() =~= Seq::<Seq<int>>::empty());
        assert(l2.drop_first() =~= Seq::<Seq<int>>::empty());
        assert(l1 =~= l2);
    } else {
        let r1 = l1.drop_first();
        let r2 = l2.drop_first();
        assert forall|k: int| 0 <= k <= depth - 1 implies (#[trigger] r1[k]).len() == pow2(
            ((depth - 1) - k) as nat,
        ) && (#[trigger] r2[k]).len() == pow2(((depth - 1) - k) as nat) by {
            assert(r1[k] == l1[k + 1]);
            assert(r2[k] == l2[k + 1]);
        }
        assert(flatten_layers(r1) =~= flatten_layers(l1).skip(pow2(depth) as int));
        assert(flatten_layers(r2) =~= flatten_layers(l2).skip(pow2(depth) as int));
        lemma_flatten_injective((depth - 1) as nat, r1, r2);
        assert forall|k: int| 0 <= k < l1.len() implies l1[k] == l2[k] by {
            if k > 0 {
                assert(r1[k - 1] == l1[k]);
                assert(r2[k - 1] == l2[k]);
            }
        }
        assert(l1 =~= l2);
    }
}

/// A byte string is the canonical encoding of at most one well-shaped tree
/// state: the format is injective.
pub proof fn lemma_encoding_injective(
    bytes: Seq<u8>,
    d1: nat,
    l1: Seq<Seq<int>>,
    d2: nat,
    l2: Seq<Seq<int>>,
)
    requires
        is_tree_encoding(bytes, d1, l1),
        is_tree_encoding(bytes, d2, l2),
    ensures
        d1 == d2,
        l1 == l2,
{
    lemma_le_bytes_len(d1 as int, 8);
    lemma_le_bytes_len(d2 as int, 8);
    assert(encode_tree(d1, l1).subrange(1, 9) =~= le_bytes(d1 as int, 8));
    assert(encode_tree(d2, l2).subrange(1, 9) =~= le_bytes(d2 as int, 8));
    lemma_le_val_le_bytes(d1 as int, 8);
    lemma_le_val_le_bytes(d2 as int, 8);
    lemma_p256_8();
    assert(d1 as int % p256(8) == d1 as int) by {
        lemma_small_mod(d1, p256(8) as nat);
    }
    assert(d2 as int % p256(8) == d2 as int) by {
        lemma_small_mod(d2, p256(8) as nat);
    }
    assert(d1 == d2);
    let f1 = flatten_layers(l1);
    let f2 = flatten_layers(l2);
    lemma_flatten_shaped(d1, l1);
    lemma_flatten_shaped(d2, l2);
    lemma_enc_elems_len(f1);
    lemma_enc_elems_len(f2);
    assert(encode_tree(d1, l1).skip(9) =~= enc_elems(f1));
    assert(encode_tree(d2, l2).skip(9) =~= enc_elems(f2));
    assert forall|t: int| 0 <= t < f1.len() implies f1[t] == f2[t] by {
        lemma_enc_elems_record(f1, t);
        lemma_enc_elems_record(f2, t);
        lemma_felt_value_from_bytes(f1[t]);
        lemma_felt_value_from_bytes(f2[t]);
    }
    assert(f1 =~= f2);
    lemma_flatten_injective(d1, l1, l2);
}

/// A reduced element value is recovered from its 32-byte encoding.
proof fn lemma_felt_value_from_bytes(v: int)
    requires
        0 <= v < limb_radix() * limb_radix() * limb_radix() * limb_radix(),
    ensures
        ({
            let r = limb_radix();
            le_val(enc_felt(v).subrange(0, 8)) + r * (le_val(enc_felt(v).subrange(8, 16)) + r * (
            le_val(enc_felt(v).subrange(16, 24)) + r * le_val(enc_felt(v).subrange(24, 32)))) == v
        }),
{
    let r = limb_radix();
    lemma_enc_felt_len(v);
    lemma_le_bytes_len(v % r, 8);
    lemma_le_bytes_len((v / r) % r, 8);
    lemma_le_bytes_len(((v / r) / r) % r, 8);
    lemma_le_bytes_len(((v / r) / r) / r, 8);
    assert(enc_felt(v).subrange(0, 8) =~= le_bytes(v % r, 8));
    assert(enc_felt(v).subrange(8, 16) =~= le_bytes((v / r) % r, 8));
    assert(enc_felt(v).subrange(16, 24) =~= le_bytes(((v / r) / r) % r, 8));
    assert(enc_felt(v).subrange(24, 32) =~= le_bytes(((v / r) / r) / r, 8));
    lemma_p256_8();
    vstd::arithmetic::div_mod::lemma_mod_division_less_than_divisor(v, r);
    vstd::arithmetic::div_mod::lemma_div_pos_is_pos(v, r);
    vstd::arithmetic::div_mod::lemma_mod_division_less_than_divisor(v / r, r);
    vstd::arithmetic::div_mod::lemma_div_pos_is_pos(v / r, r);
    vstd::arithmetic::div_mod::lemma_mod_division_less_than_divisor((v / r) / r, r);
    vstd::arithmetic::div_mod::lemma_div_pos_is_pos((v / r) / r, r);
    lemma_le_val_le_bytes(v % r, 8);
    lemma_small_mod((v % r) as nat, p256(8) as nat);
    lemma_le_val_le_bytes((v / r) % r, 8);
    lemma_small_mod(((v / r) % r) as nat, p256(8) as nat);
    lemma_le_val_le_bytes(((v / r) / r) % r, 8);
    lemma_small_mod((((v / r) / r) % r) as nat, p256(8) as nat);
    lemma_le_val_le_bytes(((v / r) / r) / r, 8);
    lemma_fundamental_div_mod(v, r);
    lemma_fundamental_div_mod(v / r, r);
    lemma_fundamental_div_mod((v / r) / r, r);
    assert(((v / r) / r) / r < r) by {
        vstd::arithmetic::div_mod::lemma_multiply_divide_lt(v, r, r * r * r);
        vstd::arithmetic::div_mod::lemma_multiply_divide_lt(v / r, r, r * r);
        vstd::arithmetic::div_mod::lemma_multiply_divide_lt((v / r) / r, r, r);
    }
    lemma_small_mod((((v / r) / r) / r) as nat, p256(8) as nat);
}

/// Appends the eight little-endian bytes of one limb.
pub(crate) fn push_limb(out: &mut Vec<u8>, x: u64)
    ensures
        final(out)@ == old(out)@ + le_bytes(x as int, 8),
{
    let ghost start = out@;
    let mut t: u64 = x;
    let mut j: usize = 0;
    while j < 8
        invariant
            j <= 8,
            out@ + le_bytes(t as int, (8 - j) as nat) =~= start + le_bytes(x as int, 8),
        decreases 8 - j,
    {
        let b = (t % 256) as u8;
        proof {
            assert(le_bytes(t as int, (8 - j) as nat) == seq![(t as int % 256) as u8] + le_bytes(
                t as int / 256,
                (8 - j - 1) as nat,
            ));
            assert(out@.push(b) + le_bytes(t as int / 256, (8 - j - 1) as nat) =~= out@ + le_bytes(
                t as int,
                (8 - j) as nat,
            ));
        }
        out.push(b);
        t = t / 256;
        j = j + 1;
    }
    proof {
        assert(le_bytes(t as int, 0) =~= Seq::<u8>::empty());
        assert(out@ + Seq::<u8>::empty() =~= out@);
    }
}

/// Reads one limb from eight little-endian bytes.
fn read_limb(bytes: &[u8], start: usize) -> (r: u64)
    requires
        start + 8 <= bytes@.len(),
    ensures
        r as int == le_val(bytes@.subrange(start as int, start as int + 8)),
{
    proof {
        lemma_p256_8();
    }
    let blen = bytes.len();
    let mut acc: u64 = 0;
    let mut j: usize = 8;
    while j > 0
        invariant
            j <= 8,
            start + 8 <= blen,
            blen == bytes@.len(),
            acc as int == le_val(bytes@.subrange(start as int + j, start as int + 8)),
            acc < p256((8 - j) as nat),
        decreases j,
    {
        proof {
            lemma_p256_8();
            lemma_p256_pos((8 - j) as nat);
            lemma_p256_increases((9 - j) as nat, 8);
            let s = bytes@.subrange(start as int + j - 1, start as int + 8);
            assert(s.drop_first() =~= bytes@.subrange(start as int + j, start as int + 8));
            assert(le_val(s) == s[0] + 256 * le_val(s.drop_first()));
        }
        j = j - 1;
        let b = bytes[start + j];
        acc = acc * 256 + b as u64;
    }
    proof {
        lemma_le_bytes_le_val(bytes@.subrange(start as int, start as int + 8));
    }
    acc
}

impl MerkleTree {
    /// Encodes the complete finalized tree state — depth, every layer and
    /// hence leaves and root — canonically. Valid only once the tree is
    /// ready.
    pub fn serialize(&self) -> (r: Result<Vec<u8>, TreeError>)
        ensures
            !self.is_ready() ==> r == Result::<Vec<u8>, TreeError>::Err(TreeError::NotFinalized),
            self.is_ready() ==> (r matches Ok(b) && is_tree_encoding(
                b@,
                self.depth_val(),
                self.layer_seq(),
            )),
    {
        proof {
            use_type_invariant(&*self);
            lemma_tree_model(*self);
        }
        if !self.is_tree_ready {
            return Err(TreeError::NotFinalized);
        }
        let depth = match self.depth {
            Some(d) => d,
            None => 0,
        };
        let ghost big_l = self.layer_seq();
        let ghost d = self.depth_val();
        let mut out: Vec<u8> = Vec::new();
        out.push(2u8);
        push_limb(&mut out, depth as u64);
        proof {
            assert(felt_seq(Seq::<Felt>::empty()) =~= Seq::<int>::empty());
            assert(flatten_layers(big_l.take(0)) =~= Seq::<int>::empty());
            assert(out@ =~= seq![2u8] + le_bytes(d as int, 8) + enc_elems(
                flatten_layers(big_l.take(0)),
            ));
        }
        let mut k: usize = 0;
        let nlayers = self.layers.len();
        while k < nlayers
            invariant
                self.inv(),
                self.is_tree_ready,
                k <= nlayers,
                nlayers == self.layers@.len(),
                big_l == layers_model(self.layers@),
                big_l.len() == nlayers,
                d == (match self.depth {
                    Some(dd) => dd as nat,
                    None => 0,
                }),
                out@ == seq![2u8] + le_bytes(d as int, 8) + enc_elems(
                    flatten_layers(big_l.take(k as int)),
                ),
            decreases nlayers - k,
        {
            let layer = &self.layers[k];
            let ghost flat_before = flatten_layers(big_l.take(k as int));
            proof {
                assert(big_l.len() == nlayers);
                assert(big_l[k as int] == felt_seq(self.layers@[k as int]@));
            }
            let mut i: usize = 0;
            while i < layer.len()
                invariant
                    self.inv(),
                    self.is_tree_ready,
                    k < nlayers,
                    nlayers == self.layers@.len(),
                    big_l == layers_model(self.layers@),
                    big_l.len() == nlayers,
                    d == (match self.depth {
                        Some(dd) => dd as nat,
                        None => 0,
                    }),
                    i <= layer@.len(),
                    layer == &self.layers@[k as int],
                    flat_before == flatten_layers(big_l.take(k as int)),
                    out@ == seq![2u8] + le_bytes(d as int, 8) + enc_elems(
                        flat_before + big_l[k as int].take(i as int),
                    ),
                decreases layer@.len() - i,
            {
                let f = layer[i];
                proof {
                    assert(f == self.layers@[k as int]@[i as int]);
                    assert(big_l[k as int] == felt_seq(self.layers@[k as int]@));
                    assert(big_l[k as int][i as int] == self.layers@[k as int]@[i as int]@);
                    use_type_invariant(&f);
                    crate::field::lemma_limbs_decompose(f.d0, f.d1, f.d2, f.d3);
                    assert(f@ == crate::field::limbs_value(f.d0, f.d1, f.d2, f.d3)) by {
                        crate::field::lemma_view_is_limbs(f);
                    }
                }
                push_limb(&mut out, f.d0);
                push_limb(&mut out, f.d1);
                push_limb(&mut out, f.d2);
                push_limb(&mut out, f.d3);
                proof {
                    assert(enc_felt(f@) =~= le_bytes(f.d0 as int, 8) + le_bytes(f.d1 as int, 8)
                        + le_bytes(f.d2 as int, 8) + le_bytes(f.d3 as int, 8));
                    let prev = flat_before + big_l[k as int].take(i as int);
                    lemma_enc_elems_snoc(prev, f@);
                    assert(big_l[k as int][i as int] == f@);
                    assert(prev.push(f@) =~= flat_before + big_l[k as int].take(i as int + 1));
                    assert(out@ =~= seq![2u8] + le_bytes(d as int, 8) + enc_elems(
                        flat_before + big_l[k as int].take(i as int + 1),
                    ));
                }
                i = i + 1;
            }
            proof {
                assert(big_l.len() == nlayers);
                assert(big_l[k as int].len() == layer@.len());
                lemma_flatten_snoc(big_l.take(k as int), big_l[k as int]);
                assert(big_l.take(k as int).push(big_l[k as int]) =~= big_l.take(k as int + 1));
                assert(big_l[k as int].take(layer@.len() as int) =~= big_l[k as int]);
            }
            k = k + 1;
        }
        proof {
            assert(big_l.take(nlayers as int) =~= big_l);
            assert(out@ == encode_tree(d, big_l));
            assert forall|kk: int| 0 <= kk <= d implies (#[trigger] big_l[kk]).len() == pow2(
                (d - kk) as nat,
            ) by {
                assert(self.layers@[kk]@.len() == pow2((d - kk) as nat));
            }
            assert forall|kk: int, ii: int|
                0 <= kk < big_l.len() && 0 <= ii < big_l[kk].len() implies 0
                <= #[trigger] big_l[kk][ii] < fq_modulus() by {
                assert(big_l[kk][ii] == self.layers@[kk]@[ii]@);
            }
            assert(valid_tree_shape(d, big_l));
        }
        Ok(out)
    }
}

/// What the header of a canonical encoding holds.
proof fn lemma_encoding_header(bytes: Seq<u8>, d2: nat, l2: Seq<Seq<int>>)
    requires
        is_tree_encoding(bytes, d2, l2),
    ensures
        bytes.len() == 9 + 32 * (2 * pow2(d2) - 1),
        bytes[0] == 2,
        bytes.subrange(1, 9) == le_bytes(d2 as int, 8),
        le_val(bytes.subrange(1, 9)) == d2,
        d2 <= 63,
{
    lemma_le_bytes_len(d2 as int, 8);
    lemma_flatten_shaped(d2, l2);
    lemma_enc_elems_len(flatten_layers(l2));
    assert(bytes.subrange(1, 9) =~= le_bytes(d2 as int, 8));
    lemma_le_val_le_bytes(d2 as int, 8);
    lemma_p256_8();
    lemma_small_mod(d2, p256(8) as nat);
}

/// What one 32-byte record of a canonical encoding holds.
proof fn lemma_encoding_record(bytes: Seq<u8>, d2: nat, l2: Seq<Seq<int>>, t: int)
    requires
        is_tree_encoding(bytes, d2, l2),
        0 <= t < 2 * pow2(d2) - 1,
    ensures
        bytes.subrange(9 + 32 * t, 9 + 32 * t + 32) == enc_felt(flatten_layers(l2)[t]),
        0 <= flatten_layers(l2)[t] < fq_modulus(),
{
    lemma_le_bytes_len(d2 as int, 8);
    lemma_flatten_shaped(d2, l2);
    lemma_enc_elems_len(flatten_layers(l2));
    assert(bytes.skip(9) =~= enc_elems(flatten_layers(l2)));
    lemma_enc_elems_record(flatten_layers(l2), t);
    assert(bytes.subrange(9 + 32 * t, 9 + 32 * t + 32) =~= enc_elems(
        flatten_layers(l2),
    ).subrange(32 * t, 32 * t + 32));
}

/// A value below 2^256 is the value of its four base-2^64 digits.
proof fn lemma_digits_value(w: int)
    requires
        0 <= w < limb_radix() * limb_radix() * limb_radix() * limb_radix(),
    ensures
        ({
            let r = limb_radix();
            w == ((((w / r) / r) / r) * r + ((w / r) / r) % r) * r * r + ((w / r) % r) * r + w % r
        }),
{
    let r = limb_radix();
    lemma_fundamental_div_mod(w, r);
    lemma_fundamental_div_mod(w / r, r);
    lemma_fundamental_div_mod((w / r) / r, r);
}

/// Thirty-two bytes whose four 8-byte pieces read back as the four digits
/// of `w` are exactly `w`'s record encoding.
proof fn lemma_record_encodes(rec: Seq<u8>, l0: u64, l1: u64, l2p: u64, l3: u64, w: int)
    requires
        rec.len() == 32,
        w == crate::field::limbs_value(l0, l1, l2p, l3),
        l0 as int == le_val(rec.subrange(0, 8)),
        l1 as int == le_val(rec.subrange(8, 16)),
        l2p as int == le_val(rec.subrange(16, 24)),
        l3 as int == le_val(rec.subrange(24, 32)),
    ensures
        rec == enc_felt(w),
{
    crate::field::lemma_limbs_decompose(l0, l1, l2p, l3);
    lemma_le_bytes_le_val(rec.subrange(0, 8));
    lemma_le_bytes_le_val(rec.subrange(8, 16));
    lemma_le_bytes_le_val(rec.subrange(16, 24));
    lemma_le_bytes_le_val(rec.subrange(24, 32));
    assert(enc_felt(w) =~= le_bytes(l0 as int, 8) + le_bytes(l1 as int, 8) + le_bytes(
        l2p as int,
        8,
    ) + le_bytes(l3 as int, 8));
    assert(rec =~= rec.subrange(0, 8) + rec.subrange(8, 16) + rec.subrange(16, 24) + rec.subrange(
        24,
        32,
    ));
}

/// The record at position `t` of a canonical encoding pins the four limbs
/// read from it: they are the digits of the recorded element.
proof fn lemma_record_determines(
    bytes: Seq<u8>,
    d2: nat,
    l2: Seq<Seq<int>>,
    t: int,
    l0: u64,
    l1: u64,
    l2p: u64,
    l3: u64,
)
    requires
        is_tree_encoding(bytes, d2, l2),
        0 <= t < 2 * pow2(d2) - 1,
        l0 as int == le_val(bytes.subrange(9 + 32 * t, 9 + 32 * t + 8)),
        l1 as int == le_val(bytes.subrange(9 + 32 * t + 8, 9 + 32 * t + 16)),
        l2p as int == le_val(bytes.subrange(9 + 32 * t + 16, 9 + 32 * t + 24)),
        l3 as int == le_val(bytes.subrange(9 + 32 * t + 24, 9 + 32 * t + 32)),
    ensures
        crate::field::limbs_value(l0, l1, l2p, l3) == flatten_layers(l2)[t],
        0 <= flatten_layers(l2)[t] < fq_modulus(),
{
    let rbig = limb_radix();
    lemma_le_bytes_len(d2 as int, 8);
    lemma_flatten_shaped(d2, l2);
    lemma_enc_elems_len(flatten_layers(l2));
    lemma_encoding_record(bytes, d2, l2, t);
    let w2 = flatten_layers(l2)[t];
    let rec = bytes.subrange(9 + 32 * t, 9 + 32 * t + 32);
    lemma_enc_felt_len(w2);
    assert(rec == enc_felt(w2));
    assert(rec.subrange(0, 8) =~= bytes.subrange(9 + 32 * t, 9 + 32 * t + 8));
    assert(rec.subrange(8, 16) =~= bytes.subrange(9 + 32 * t + 8, 9 + 32 * t + 16));
    assert(rec.subrange(16, 24) =~= bytes.subrange(9 + 32 * t + 16, 9 + 32 * t + 24));
    assert(rec.subrange(24, 32) =~= bytes.subrange(9 + 32 * t + 24, 9 + 32 * t + 32));
    lemma_le_bytes_len(w2 % rbig, 8);
    lemma_le_bytes_len((w2 / rbig) % rbig, 8);
    lemma_le_bytes_len(((w2 / rbig) / rbig) % rbig, 8);
    lemma_le_bytes_len(((w2 / rbig) / rbig) / rbig, 8);
    assert(rec.subrange(0, 8) =~= le_bytes(w2 % rbig, 8));
    assert(rec.subrange(8, 16) =~= le_bytes((w2 / rbig) % rbig, 8));
    assert(rec.subrange(16, 24) =~= le_bytes(((w2 / rbig) / rbig) % rbig, 8));
    assert(rec.subrange(24, 32) =~= le_bytes(((w2 / rbig) / rbig) / rbig, 8));
    lemma_p256_8();
    vstd::arithmetic::div_mod::lemma_mod_division_less_than_divisor(w2, rbig);
    vstd::arithmetic::div_mod::lemma_div_pos_is_pos(w2, rbig);
    vstd::arithmetic::div_mod::lemma_mod_division_less_than_divisor(w2 / rbig, rbig);
    vstd::arithmetic::div_mod::lemma_div_pos_is_pos(w2 / rbig, rbig);
    vstd::arithmetic::div_mod::lemma_mod_division_less_than_divisor((w2 / rbig) / rbig, rbig);
    vstd::arithmetic::div_mod::lemma_div_pos_is_pos((w2 / rbig) / rbig, rbig);
    assert(((w2 / rbig) / rbig) / rbig < rbig) by {
        vstd::arithmetic::div_mod::lemma_multiply_divide_lt(w2, rbig, rbig * rbig * rbig);
        vstd::arithmetic::div_mod::lemma_multiply_divide_lt(w2 / rbig, rbig, rbig * rbig);
        vstd::arithmetic::div_mod::lemma_multiply_divide_lt((w2 / rbig) / rbig, rbig, rbig);
    }
    lemma_le_val_le_bytes(w2 % rbig, 8);
    lemma_le_val_le_bytes((w2 / rbig) % rbig, 8);
    lemma_le_val_le_bytes(((w2 / rbig) / rbig) % rbig, 8);
    lemma_le_val_le_bytes(((w2 / rbig) / rbig) / rbig, 8);
    lemma_small_mod((w2 % rbig) as nat, p256(8) as nat);
    lemma_small_mod(((w2 / rbig) % rbig) as nat, p256(8) as nat);
    lemma_small_mod((((w2 / rbig) / rbig) % rbig) as nat, p256(8) as nat);
    lemma_small_mod(((((w2 / rbig) / rbig) / rbig)) as nat, p256(8) as nat);
    assert(l0 as int == w2 % rbig);
    assert(l1 as int == (w2 / rbig) % rbig);
    assert(l2p as int == ((w2 / rbig) / rbig) % rbig);
    assert(l3 as int == ((w2 / rbig) / rbig) / rbig);
    lemma_digits_value(w2);
}

impl MerkleTree {
    /// Rebuilds a tree from its canonical encoding, without recomputing any
    /// hash. Succeeds exactly on the byte strings that encode a well-shaped
    /// finalized tree state; anything else is refused as malformed.
    #[verifier::rlimit(100)]
    pub fn from_compressed_bytes(bytes: &[u8]) -> (r: Result<MerkleTree, TreeError>)
        ensures
            match r {
                Ok(t) => {
                    &&& t.is_ready()
                    &&& is_tree_encoding(bytes@, t.depth_val(), t.layer_seq())
                    &&& t.leaf_seq() == t.layer_seq()[0]
                    &&& t.layer_seq().len() == t.depth_val() + 1
                    &&& t.root_val() == t.layer_seq()[t.depth_val() as int][0]
                },
                Err(e) => {
                    &&& e == TreeError::MalformedEncoding
                    &&& forall|d2: nat, l2: Seq<Seq<int>>| !#[trigger] is_tree_encoding(
                        bytes@,
                        d2,
                        l2,
                    )
                },
            },
    {
        let blen = bytes.len();
        if blen < 9 {
            proof {
                assert forall|d2: nat, l2: Seq<Seq<int>>| !#[trigger] is_tree_encoding(
                    bytes@,
                    d2,
                    l2,
                ) by {
                    if is_tree_encoding(bytes@, d2, l2) {
                        lemma_encoding_header(bytes@, d2, l2);
                        vstd::arithmetic::power2::lemma_pow2_pos(d2);
                    }
                }
            }
            return Err(TreeError::MalformedEncoding);
        }
        if bytes[0] != 2 {
            proof {
                assert forall|d2: nat, l2: Seq<Seq<int>>| !#[trigger] is_tree_encoding(
                    bytes@,
                    d2,
                    l2,
                ) by {
                    if is_tree_encoding(bytes@, d2, l2) {
                        lemma_encoding_header(bytes@, d2, l2);
                    }
                }
            }
            return Err(TreeError::MalformedEncoding);
        }
        let dl = read_limb(bytes, 1);
        if dl > 63 {
            proof {
                assert forall|d2: nat, l2: Seq<Seq<int>>| !#[trigger] is_tree_encoding(
                    bytes@,
                    d2,
                    l2,
                ) by {
                    if is_tree_encoding(bytes@, d2, l2) {
                        lemma_encoding_header(bytes@, d2, l2);
                    }
                }
            }
            return Err(TreeError::MalformedEncoding);
        }
        let depth: usize = dl as usize;
        let ghost d = depth as nat;

        // The element count 2^(depth+1) - 1 and the expected byte length,
        // computed wide enough not to overflow.
        let mut cap: u128 = 1;
        let mut kk: usize = 0;
        proof {
            lemma2_to64();
        }
        while kk < depth
            invariant
                kk <= depth,
                depth <= 63,
                cap == pow2(kk as nat),
            decreases depth - kk,
        {
            proof {
                lemma2_to64_rest();
                if kk as nat >= 63 {
                    assert(false);
                }
                if (kk as nat) < 62 {
                    vstd::arithmetic::power2::lemma_pow2_strictly_increases(kk as nat, 62);
                }
                lemma2_to64_rest();
                lemma_pow2_unfold((kk + 1) as nat);
            }
            cap = cap * 2;
            kk = kk + 1;
        }
        proof {
            lemma2_to64_rest();
            if d < 63 {
                vstd::arithmetic::power2::lemma_pow2_strictly_increases(d, 63);
            }
            assert(cap <= 0x8000000000000000);
        }
        let total128: u128 = 2 * cap - 1;
        let expected: u128 = 9 + 32 * total128;
        if (blen as u128) != expected {
            proof {
                assert forall|d2: nat, l2: Seq<Seq<int>>| !#[trigger] is_tree_encoding(
                    bytes@,
                    d2,
                    l2,
                ) by {
                    if is_tree_encoding(bytes@, d2, l2) {
                        lemma_encoding_header(bytes@, d2, l2);
                        assert(d2 == dl as nat);
                        assert(bytes@.len() == 9 + 32 * (2 * pow2(d) - 1));
                    }
                }
            }
            return Err(TreeError::MalformedEncoding);
        }
        let total: usize = (blen - 9) / 32;
        proof {
            assert(blen as int == 9 + 32 * (2 * pow2(d) - 1));
            assert(total as int == 2 * pow2(d) - 1) by {
                assert((blen - 9) as int == 32 * (2 * pow2(d) - 1));
                vstd::arithmetic::div_mod::lemma_div_multiples_vanish(
                    2 * pow2(d) - 1,
                    32,
                );
            }
        }

        // Parse every element record.
        let ghost rbig = limb_radix();
        let mut flat_v: Vec<Felt> = Vec::new();
        let mut t: usize = 0;
        proof {
            assert(felt_seq(flat_v@) =~= Seq::<int>::empty());
            assert(bytes@.take(9) =~= seq![2u8] + bytes@.subrange(1, 9));
            lemma_le_bytes_le_val(bytes@.subrange(1, 9));
            assert(bytes@.subrange(1, 9) == le_bytes(d as int, 8));
            assert(bytes@.take(9 + 32 * t as int) =~= seq![2u8] + le_bytes(d as int, 8)
                + enc_elems(felt_seq(flat_v@)));
        }
        while t < total
            invariant
                t <= total,
                blen == bytes@.len(),
                blen as int == 9 + 32 * (total as int),
                flat_v@.len() == t,
                bytes@.take(9 + 32 * t as int) == seq![2u8] + le_bytes(d as int, 8) + enc_elems(
                    felt_seq(flat_v@),
                ),
                forall|q: int| 0 <= q < flat_v@.len() ==> 0 <= (#[trigger] flat_v@[q])@
                    < fq_modulus(),
                total as int == 2 * pow2(d) - 1,
                d <= 63,
                le_val(bytes@.subrange(1, 9)) == d as int,
            decreases total - t,
        {
            let base = 9 + 32 * t;
            let l0 = read_limb(bytes, base);
            let l1 = read_limb(bytes, base + 8);
            let l2p = read_limb(bytes, base + 16);
            let l3 = read_limb(bytes, base + 24);
            let ghost rec = bytes@.subrange(base as int, base as int + 32);
            proof {
                assert(rec.subrange(0, 8) =~= bytes@.subrange(base as int, base as int + 8));
                assert(rec.subrange(8, 16) =~= bytes@.subrange(base as int + 8, base as int + 16));
                assert(rec.subrange(16, 24) =~= bytes@.subrange(
                    base as int + 16,
                    base as int + 24,
                ));
                assert(rec.subrange(24, 32) =~= bytes@.subrange(
                    base as int + 24,
                    base as int + 32,
                ));
            }
            match Felt::from_limbs_parts(l0, l1, l2p, l3) {
                Some(f) => {
                    proof {
                        crate::field::lemma_view_is_limbs(f);
                        lemma_record_encodes(rec, l0, l1, l2p, l3, f@);
                        let prev = felt_seq(flat_v@);
                        lemma_enc_elems_snoc(prev, f@);
                        assert(felt_seq(flat_v@.push(f)) =~= prev.push(f@));
                        assert(bytes@.take(9 + 32 * (t + 1) as int) =~= bytes@.take(
                            9 + 32 * t as int,
                        ) + rec);
                    }
                    flat_v.push(f);
                },
                None => {
                    proof {
                        let w = crate::field::limbs_value(l0, l1, l2p, l3);
                        assert forall|d2: nat, l2: Seq<Seq<int>>| !#[trigger] is_tree_encoding(
                            bytes@,
                            d2,
                            l2,
                        ) by {
                            if is_tree_encoding(bytes@, d2, l2) {
                                lemma_encoding_header(bytes@, d2, l2);
                                assert(d2 == d);
                                lemma_record_determines(bytes@, d2, l2, t as int, l0, l1, l2p, l3);
                            }
                        }
                    }
                    return Err(TreeError::MalformedEncoding);
                },
            }
            t = t + 1;
        }
        proof {
            assert(bytes@.take(blen as int) =~= bytes@);
        }

        // Split the flat element sequence into the layers.
        let first_sz: usize = (total + 1) / 2;
        proof {
            assert(2 * pow2(d) == total as int + 1);
            assert(first_sz as int == pow2(d)) by {
                vstd::arithmetic::div_mod::lemma_div_multiples_vanish(pow2(d) as int, 2);
            }
        }
        let mut layers_v: Vec<Vec<Felt>> = Vec::new();
        let mut pos: usize = 0;
        let mut sz: usize = first_sz;
        let mut k: usize = 0;
        proof {
            assert(layers_model(layers_v@) =~= Seq::<Seq<int>>::empty());
            assert(flatten_layers(layers_model(layers_v@)) =~= Seq::<int>::empty());
            assert(felt_seq(flat_v@).take(0) =~= Seq::<int>::empty());
        }
        while k <= depth
            invariant
                k <= depth + 1,
                d == depth as nat,
                d <= 63,
                flat_v@.len() == total,
                total as int == 2 * pow2(d) - 1,
                k <= depth ==> sz as int == pow2((d - k) as nat),
                k <= depth ==> pos as int + 2 * (sz as int) - 1 == total as int,
                k > depth ==> pos == total,
                layers_v@.len() == k,
                flatten_layers(layers_model(layers_v@)) == felt_seq(flat_v@).take(pos as int),
                forall|kk2: int| 0 <= kk2 < k ==> (#[trigger] layers_v@[kk2])@.len() == pow2(
                    (d - kk2) as nat,
                ),
                forall|kk2: int, ii: int|
                    0 <= kk2 < layers_v@.len() && 0 <= ii < layers_v@[kk2]@.len() ==> 0 <= (
                    #[trigger] layers_v@[kk2]@[ii])@ < fq_modulus(),
                forall|q: int| 0 <= q < flat_v@.len() ==> 0 <= (#[trigger] flat_v@[q])@
                    < fq_modulus(),
            decreases depth + 1 - k,
        {
            proof {
                lemma2_to64();
                vstd::arithmetic::power2::lemma_pow2_pos((d - k) as nat);
            }
            let mut layer: Vec<Felt> = Vec::new();
            let mut i: usize = 0;
            while i < sz
                invariant
                    i <= sz,
                    flat_v@.len() == total,
                    pos + sz <= total,
                    layer@ =~= flat_v@.subrange(pos as int, pos as int + i as int),
                decreases sz - i,
            {
                layer.push(flat_v[pos + i]);
                i = i + 1;
                proof {
                    assert(layer@ =~= flat_v@.subrange(pos as int, pos as int + i as int));
                }
            }
            let ghost old_model = layers_model(layers_v@);
            layers_v.push(layer);
            proof {
                assert(layers_model(layers_v@) =~= old_model.push(
                    felt_seq(flat_v@.subrange(pos as int, pos as int + sz as int)),
                ));
                lemma_flatten_snoc(
                    old_model,
                    felt_seq(flat_v@.subrange(pos as int, pos as int + sz as int)),
                );
                assert(felt_seq(flat_v@.subrange(pos as int, pos as int + sz as int)) =~= felt_seq(
                    flat_v@,
                ).subrange(pos as int, pos as int + sz as int));
                assert(felt_seq(flat_v@).take(pos as int) + felt_seq(flat_v@).subrange(
                    pos as int,
                    pos as int + sz as int,
                ) =~= felt_seq(flat_v@).take(pos as int + sz as int));
            }
            pos = pos + sz;
            if k < depth {
                proof {
                    lemma_pow2_unfold((d - k) as nat);
                }
                sz = sz / 2;
            }
            k = k + 1;
        }

        let root = layers_v[depth][0];
        let leaves = copy_vec(&layers_v[0]);
        proof {
            lemma2_to64();
            assert(felt_seq(flat_v@).take(total as int) =~= felt_seq(flat_v@));
            assert(leaves@ == layers_v@[0]@);
            assert forall|ii: int| 0 <= ii < leaves@.len() implies 0 <= (#[trigger] leaves@[ii])@
                < fq_modulus() by {
                assert(leaves@[ii] == layers_v@[0]@[ii]);
            }
            assert(felt_seq(leaves@) =~= layers_model(layers_v@)[0]);
        }
        let ghost lm = layers_model(layers_v@);
        proof {
            assert(encode_tree(d, lm) == bytes@);
            assert(valid_tree_shape(d, lm)) by {
                assert forall|kk2: int| 0 <= kk2 <= d implies (#[trigger] lm[kk2]).len() == pow2(
                    (d - kk2) as nat,
                ) by {
                    assert(layers_v@[kk2]@.len() == pow2((d - kk2) as nat));
                }
                assert forall|kk2: int, ii: int|
                    0 <= kk2 < lm.len() && 0 <= ii < lm[kk2].len() implies 0 <= #[trigger] lm[
                    kk2][ii] < fq_modulus() by {
                    assert(lm[kk2][ii] == layers_v@[kk2]@[ii]@);
                }
            }
        }
        let tree = MerkleTree::assemble_ready(leaves, layers_v, depth, root);
        Ok(tree)
    }
}

} // verus!
