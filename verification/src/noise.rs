//! Integer hashing of lattice coordinates: the seeded, deterministic
//! priorities the site thinning draws.

use vstd::prelude::*;

verus! {

/// The splitmix64 finaliser: an invertible scramble of a 64-bit word.
pub open spec fn spec_mix(h: u64) -> u64 {
    let a = (h ^ (h >> 30u64)).wrapping_mul(0xBF58_476D_1CE4_E5B9u64);
    let b = (a ^ (a >> 27u64)).wrapping_mul(0x94D0_49BB_1331_11EBu64);
    b ^ (b >> 31u64)
}

/// A coordinate pair and a seed hashed to a 64-bit word: each input folded
/// in and scrambled in turn.
pub open spec fn spec_hash_u64(q: i64, r: i64, seed: u64) -> u64 {
    spec_mix(spec_mix(spec_mix(seed ^ 0x9E37_79B9_7F4A_7C15u64) ^ (q as u64)) ^ (r as u64))
}

fn mix(h: u64) -> (out: u64)
    ensures
        out == spec_mix(h),
{
    let a = (h ^ (h >> 30u64)).wrapping_mul(0xBF58_476D_1CE4_E5B9u64);
    let b = (a ^ (a >> 27u64)).wrapping_mul(0x94D0_49BB_1331_11EBu64);
    b ^ (b >> 31u64)
}

/// The hash of a coordinate pair under a seed.
pub fn hash_u64(q: i64, r: i64, seed: u64) -> (h: u64)
    ensures
        h == spec_hash_u64(q, r, seed),
{
    mix(mix(mix(seed ^ 0x9E37_79B9_7F4A_7C15u64) ^ (q as u64)) ^ (r as u64))
}

} // verus!
