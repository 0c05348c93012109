//! Seeded SplitMix-style mixing used for every deterministic draw.

use vstd::prelude::*;

verus! {

/// Multiplier shared by the seed increment and the ordinal spread.
pub const GOLDEN_GAMMA: u64 = 0x9E37_79B9_7F4A_7C15;

pub open spec fn wrap_mul(x: u64, y: u64) -> u64 {
    vstd::wrapping::u64_specs::wrapping_mul(x, y)
}

pub open spec fn wrap_add(x: u64, y: u64) -> u64 {
    vstd::wrapping::u64_specs::wrapping_add(x, y)
}

/// The finalizer applied to the mixed state.
pub open spec fn spec_finalize(state: u64) -> u64 {
    let a = wrap_mul(state ^ (state >> 30u64), 0xBF58_476D_1CE4_E5B9u64);
    let b = wrap_mul(a ^ (a >> 27u64), 0x94D0_49BB_1331_11EBu64);
    b ^ (b >> 31u64)
}

/// Deterministic 64-bit draw for a seed and an ordinal.
pub open spec fn spec_deterministic_u64(seed: u64, ordinal: u64) -> u64 {
    spec_finalize(wrap_add(seed ^ wrap_mul(ordinal, GOLDEN_GAMMA), GOLDEN_GAMMA))
}

/// Deterministic 64-bit draw for a seed and an ordinal.
pub fn deterministic_u64(seed: u64, ordinal: u64) -> (r: u64)
    ensures
        r == spec_deterministic_u64(seed, ordinal),
{
    let mut state = seed ^ ordinal.wrapping_mul(GOLDEN_GAMMA);
    state = state.wrapping_add(GOLDEN_GAMMA);
    let mut output = state;
    output = (output ^ (output >> 30u64)).wrapping_mul(0xBF58_476D_1CE4_E5B9u64);
    output = (output ^ (output >> 27u64)).wrapping_mul(0x94D0_49BB_1331_11EBu64);
    output ^ (output >> 31u64)
}

} // verus!
