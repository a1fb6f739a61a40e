//! SplitMix64: a small deterministic pseudo-random generator.
use vstd::prelude::*;
use vstd::wrapping::u64_specs;

verus! {

/// Increment of the SplitMix64 state.
pub const SPLITMIX_GAMMA: u64 = 0x9E37_79B9_7F4A_7C15;

/// The state after one step.
pub open spec fn splitmix_state(s: u64) -> u64 {
    u64_specs::wrapping_add(s, SPLITMIX_GAMMA)
}

/// The output mixed from a (stepped) state `z`.
pub open spec fn splitmix_mix(z: u64) -> u64 {
    let z1 = u64_specs::wrapping_mul(z ^ (z >> 30u64), 0xBF58_476D_1CE4_E5B9);
    let z2 = u64_specs::wrapping_mul(z1 ^ (z1 >> 27u64), 0x94D0_49BB_1331_11EB);
    z2 ^ (z2 >> 31u64)
}

/// The state after `n` steps from `s`.
pub open spec fn splitmix_advance(s: u64, n: nat) -> u64
    decreases n,
{
    if n == 0 {
        s
    } else {
        splitmix_state(splitmix_advance(s, (n - 1) as nat))
    }
}

/// Output number `j` (counting from 1) of the stream started at state `s`.
pub open spec fn splitmix_output(s: u64, j: nat) -> u64 {
    splitmix_mix(splitmix_advance(s, j))
}

/// The stream is a function of the seed: a generator created with seed `s`
/// that has produced `j` outputs is in state `splitmix_advance(s, j)`, and
/// its next output is output number `j + 1` of the stream of `s`. Two
/// generators with the same seed therefore produce the same stream.
pub proof fn lemma_same_seed_same_stream(s: u64, j: nat)
    ensures
        splitmix_state(splitmix_advance(s, j)) == splitmix_advance(s, j + 1),
        splitmix_mix(splitmix_state(splitmix_advance(s, j))) == splitmix_output(s, j + 1),
{
    assert(splitmix_advance(s, j + 1) == splitmix_state(splitmix_advance(s, (j + 1 - 1) as nat)));
}

/// SplitMix64: tiny, fast, and statistically fine for test sampling.
pub struct SplitMix64(pub u64);

impl SplitMix64 {
    /// Seeded construction; the same seed always yields the same stream.
    pub fn new(seed: u64) -> (r: Self)
        ensures
            r.0 == seed,
    {
        SplitMix64(seed)
    }

    /// Next 64 pseudo-random bits.
    pub fn next(&mut self) -> (r: u64)
        ensures
            final(self).0 == splitmix_state(old(self).0),
            r == splitmix_mix(final(self).0),
    {
        self.0 = self.0.wrapping_add(SPLITMIX_GAMMA);
        let z = self.0;
        let z = (z ^ (z >> 30)).wrapping_mul(0xBF58_476D_1CE4_E5B9);
        let z = (z ^ (z >> 27)).wrapping_mul(0x94D0_49BB_1331_11EB);
        z ^ (z >> 31)
    }
}

} // verus!
