//! Deterministic per-parcel coin flips: a stateless 64-bit mix of (parcel index, time, seed).
use vstd::prelude::*;

verus! {

/// Rotate the 64 bits of `x` left by 17.
pub open spec fn rotl17(x: u64) -> u64 {
    (x << 17u64) | (x >> 47u64)
}

/// The mixed 64-bit word for parcel `i` at the time whose IEEE-754 bits are `t_bits`.
pub open spec fn spec_mix(i: u64, t_bits: u64, seed: u64) -> u64 {
    let x0 = i.wrapping_mul(0x9E37_79B9_7F4A_7C15u64) ^ rotl17(t_bits) ^ seed.wrapping_mul(
        0xD1B5_4A32_D192_ED03u64,
    );
    let x1 = x0 ^ (x0 >> 31u64);
    let x2 = x1.wrapping_mul(0x7FB5_D329_728E_A185u64);
    let x3 = x2 ^ (x2 >> 27u64);
    let x4 = x3.wrapping_mul(0x81DA_DEF4_BC2D_D44Du64);
    x4 ^ (x4 >> 33u64)
}

/// The top 53 bits of the mixed word: divided by 2^53 they give a uniform number in [0, 1).
pub fn hash_bits(i: u64, t_bits: u64, seed: u64) -> (r: u64)
    ensures
        r == spec_mix(i, t_bits, seed) >> 11u64,
        r < 0x20_0000_0000_0000,
{
    let rot: u64 = (t_bits << 17u64) | (t_bits >> 47u64);
    let mut x: u64 = i.wrapping_mul(0x9E37_79B9_7F4A_7C15u64) ^ rot ^ seed.wrapping_mul(0xD1B5_4A32_D192_ED03u64);
    x = x ^ (x >> 31u64);
    x = x.wrapping_mul(0x7FB5_D329_728E_A185u64);
    x = x ^ (x >> 27u64);
    x = x.wrapping_mul(0x81DA_DEF4_BC2D_D44Du64);
    x = x ^ (x >> 33u64);
    let r = x >> 11u64;
    assert(x >> 11u64 < 0x20_0000_0000_0000u64) by (bit_vector);
    r
}

} // verus!
