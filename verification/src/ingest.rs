//! Turning raw input into leaves: a flat buffer of 32-byte big-endian
//! chunks, each reduced into a field element.

use vstd::prelude::*;
use vstd::math::min;
use vstd::slice::slice_subrange;
use crate::field::{be_val, fq_modulus, Felt};
use crate::hashing::element_from_be_bytes;

verus! {

/// Splits the buffer into 32-byte chunks (the last may be shorter), each
/// read as one big-endian integer and reduced modulo the field prime.
pub fn leaves_from_be_bytes(bytes: &[u8]) -> (r: Vec<Felt>)
    ensures
        r@.len() == (bytes@.len() + 31) / 32,
        forall|i: int| 0 <= i < r@.len() ==> (#[trigger] r@[i])@ == be_val(
            bytes@.subrange(32 * i, min(32 * (i + 1), bytes@.len() as int)),
        ) % fq_modulus(),
{
    let n = bytes.len();
    let mut r: Vec<Felt> = Vec::new();
    let mut pos: usize = 0;
    while pos < n
        invariant
            n == bytes@.len(),
            pos <= n,
            (pos as int == 32 * r@.len() && pos <= n) || (pos == n && r@.len() == (n + 31) / 32),
            forall|i: int| 0 <= i < r@.len() ==> (#[trigger] r@[i])@ == be_val(
                bytes@.subrange(32 * i, min(32 * (i + 1), bytes@.len() as int)),
            ) % fq_modulus(),
        decreases n - pos,
    {
        proof {
            assert(pos as int == 32 * r@.len());
        }
        let end = if n - pos >= 32 {
            pos + 32
        } else {
            n
        };
        let chunk = slice_subrange(bytes, pos, end);
        let f = element_from_be_bytes(chunk);
        r.push(f);
        proof {
            assert(pos as int == 32 * (r@.len() - 1));
            assert(end as int == min(32 * (r@.len() - 1) + 32, bytes@.len() as int));
            if end < n {
                assert(end as int == 32 * r@.len());
            } else {
                assert(r@.len() == (n + 31) / 32);
            }
        }
        pos = end;
    }
    proof {
        if n == 0 {
            assert(r@.len() == 0);
        }
    }
    r
}

} // verus!
