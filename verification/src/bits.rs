//! Scalar values carried by the library.
//!
//! Every scalar that flows through the core — cutoffs, pair vector components,
//! tensor entries — is the 64-bit pattern of an IEEE 754 binary64 number.
//! Keeping the raw patterns makes every computed value a bit-exact function of
//! the inputs, and lets the few operations the core needs (negation, validity
//! tests) be stated and verified precisely: negating a binary64 value flips
//! exactly its sign bit.

use vstd::prelude::*;

verus! {

/// Sign bit of an IEEE 754 binary64 bit pattern.
pub const SIGN_BIT: u64 = 0x8000_0000_0000_0000;

/// A cutoff is valid when the number its bits encode is strictly positive and
/// finite: the sign bit is clear, the pattern is not that of positive zero,
/// and the exponent field is not all ones (which would mean infinity or NaN).
pub open spec fn cutoff_is_valid(bits: u64) -> bool {
    &&& bits >> 63u64 == 0u64
    &&& bits != 0u64
    &&& (bits >> 52u64) & 0x7ffu64 != 0x7ffu64
}

/// Runtime test matching [`cutoff_is_valid`].
pub fn check_cutoff(bits: u64) -> (r: bool)
    ensures
        r == cutoff_is_valid(bits),
{
    bits >> 63u64 == 0u64 && bits != 0u64 && (bits >> 52u64) & 0x7ffu64 != 0x7ffu64
}

/// Negation of a binary64 value: flip the sign bit, leave the rest untouched.
pub open spec fn spec_neg_bits(bits: u64) -> u64 {
    bits ^ SIGN_BIT
}

/// Negate the binary64 value behind a bit pattern.
pub fn neg_bits(bits: u64) -> (r: u64)
    ensures
        r == spec_neg_bits(bits),
{
    bits ^ SIGN_BIT
}

/// Negation undoes itself bit for bit.
pub proof fn lemma_neg_bits_involutive(bits: u64)
    ensures
        spec_neg_bits(spec_neg_bits(bits)) == bits,
{
    assert((bits ^ 0x8000_0000_0000_0000u64) ^ 0x8000_0000_0000_0000u64 == bits) by (bit_vector);
}

/// A triple of binary64 bit patterns: the displacement vector of a pair.
#[derive(Clone, Copy, Debug, PartialEq, Eq, Structural)]
pub struct Vector3Bits {
    pub x: u64,
    pub y: u64,
    pub z: u64,
}

/// Componentwise negation of a displacement vector.
pub open spec fn spec_neg_vector(v: Vector3Bits) -> Vector3Bits {
    Vector3Bits { x: spec_neg_bits(v.x), y: spec_neg_bits(v.y), z: spec_neg_bits(v.z) }
}

/// Negate all three components of a displacement vector.
pub fn neg_vector(v: Vector3Bits) -> (r: Vector3Bits)
    ensures
        r == spec_neg_vector(v),
{
    Vector3Bits { x: neg_bits(v.x), y: neg_bits(v.y), z: neg_bits(v.z) }
}

/// Negating a vector twice gives the vector back.
pub proof fn lemma_neg_vector_involutive(v: Vector3Bits)
    ensures
        spec_neg_vector(spec_neg_vector(v)) == v,
{
    lemma_neg_bits_involutive(v.x);
    lemma_neg_bits_involutive(v.y);
    lemma_neg_bits_involutive(v.z);
}

/// Component of a vector selected by spatial direction 0, 1 or 2.
pub open spec fn vector_component(v: Vector3Bits, d: int) -> u64 {
    if d == 0 {
        v.x
    } else if d == 1 {
        v.y
    } else {
        v.z
    }
}

} // verus!
