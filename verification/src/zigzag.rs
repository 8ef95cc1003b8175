//! The zigzag mapping between signed and unsigned 64-bit integers, which
//! sends numbers of small magnitude to small numbers.

use vstd::prelude::*;

verus! {

/// The zigzag code of `x`: `(x << 1) ^ (x >> 63)`, the shift right being
/// arithmetic.
pub open spec fn zigzag(x: i64) -> u64 {
    ((x << 1) ^ (x >> 63)) as u64
}

/// The number whose zigzag code is `u`.
pub open spec fn unzigzag(u: u64) -> i64 {
    ((u >> 1) as i64) ^ (-((u & 1) as i64)) as i64
}

/// The bits of `x` read as an unsigned number.
pub open spec fn bits_of(x: i64) -> u64 {
    x as u64
}

/// The bits of `u` read as a two's complement number.
pub open spec fn signed_of(u: u64) -> i64 {
    u as i64
}

/// Encodes a signed number.
pub fn zigzag_encode(x: i64) -> (r: u64)
    ensures
        r == zigzag(x),
{
    #[verifier::truncate]
    (((x << 1) ^ (x >> 63)) as u64)
}

/// Decodes a zigzag code.
pub fn zigzag_decode(u: u64) -> (r: i64)
    ensures
        r == unzigzag(u),
{
    assert((u >> 1) <= 0x7FFF_FFFF_FFFF_FFFF) by (bit_vector);
    assert((u & 1) <= 1) by (bit_vector);
    let a: i64 = (u >> 1) as i64;
    let b: i64 = (u & 1) as i64;
    a ^ (-b)
}

/// Reads the bits of an unsigned number as a two's complement number.
pub fn to_signed(u: u64) -> (r: i64)
    ensures
        r == signed_of(u),
{
    #[verifier::truncate]
    (u as i64)
}

/// Reads the bits of a two's complement number as an unsigned number.
pub fn to_unsigned(x: i64) -> (r: u64)
    ensures
        r == bits_of(x),
{
    #[verifier::truncate]
    (x as u64)
}

/// Decoding the zigzag code of a number gives the number back.
pub proof fn lemma_zigzag_round_trip(x: i64)
    ensures
        unzigzag(zigzag(x)) == x,
{
    assert(unzigzag(zigzag(x)) == x) by (bit_vector);
}

/// Encoding the number that a code stands for gives the code back.
pub proof fn lemma_unzigzag_round_trip(u: u64)
    ensures
        zigzag(unzigzag(u)) == u,
{
    assert(zigzag(unzigzag(u)) == u) by (bit_vector);
}

/// Reading bits as signed and back as unsigned changes nothing.
pub proof fn lemma_signed_bits(u: u64, x: i64)
    ensures
        bits_of(signed_of(u)) == u,
        signed_of(bits_of(x)) == x,
{
    assert((u as i64) as u64 == u) by (bit_vector);
    assert((x as u64) as i64 == x) by (bit_vector);
}

} // verus!
