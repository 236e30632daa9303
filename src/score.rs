//! Similarity scores as order keys.
//!
//! A score is produced as an `f32`. The library orders scores without doing
//! float arithmetic: it maps the score's bit pattern to an unsigned key whose
//! integer order is the float order (negative values below positive ones,
//! larger magnitudes further from zero; `-0.0` sits just below `+0.0`).
use vstd::prelude::*;

verus! {

pub const SIGN_BIT: u32 = 0x8000_0000;

/// The order key of the score whose bit pattern is `bits`.
pub open spec fn key_of_bits(bits: u32) -> u32 {
    if bits & SIGN_BIT != 0 {
        !bits
    } else {
        bits | SIGN_BIT
    }
}

/// The bit pattern of the score whose order key is `key`.
pub open spec fn bits_of_key(key: u32) -> u32 {
    if key & SIGN_BIT != 0 {
        key & !SIGN_BIT
    } else {
        !key
    }
}

/// Maps a score's bit pattern (`f32::to_bits`) to its order key.
pub fn score_key(bits: u32) -> (r: u32)
    ensures
        r == key_of_bits(bits),
{
    if bits & SIGN_BIT != 0 {
        !bits
    } else {
        bits | SIGN_BIT
    }
}

/// Maps an order key back to the score's bit pattern (`f32::from_bits`).
pub fn score_bits(key: u32) -> (r: u32)
    ensures
        r == bits_of_key(key),
{
    if key & SIGN_BIT != 0 {
        key & !SIGN_BIT
    } else {
        !key
    }
}

/// The two maps are inverse to each other: no score is lost by carrying it
/// as a key, and every key stands for exactly one bit pattern.
pub proof fn lemma_score_key_round_trip(bits: u32, key: u32)
    ensures
        bits_of_key(key_of_bits(bits)) == bits,
        key_of_bits(bits_of_key(key)) == key,
{
    assert(bits & 0x8000_0000u32 != 0 ==> (!bits) & 0x8000_0000u32 == 0 && !(!bits) == bits)
        by (bit_vector);
    assert(bits & 0x8000_0000u32 == 0 ==> (bits | 0x8000_0000u32) & 0x8000_0000u32 != 0 && (
    bits | 0x8000_0000u32) & !0x8000_0000u32 == bits) by (bit_vector);
    assert(key & 0x8000_0000u32 != 0 ==> (key & !0x8000_0000u32) & 0x8000_0000u32 == 0 && ((key
        & !0x8000_0000u32) | 0x8000_0000u32) == key) by (bit_vector);
    assert(key & 0x8000_0000u32 == 0 ==> (!key) & 0x8000_0000u32 != 0 && !(!key) == key)
        by (bit_vector);
}

} // verus!
