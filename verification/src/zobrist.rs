//! Fixed-seed pseudo-random key material for Zobrist position hashing.
//!
//! Keys come from `rand_chacha::ChaCha12Rng` seeded with a game-specific
//! constant, so position keys are stable across processes and runs.

use rand::Rng;
use rand::SeedableRng;
use rand_chacha::ChaCha12Rng;
use vstd::prelude::*;

verus! {

/// The first `count` values drawn with `Rng::gen::<u64>()` from
/// `ChaCha12Rng::seed_from_u64(seed)`.
pub uninterp spec fn chacha12_u64_draws(seed: u64, count: nat) -> Seq<u64>;

/// Calls `ChaCha12Rng::seed_from_u64(seed)` and then `gen::<u64>()`
/// `count` times. Claimed of it: the result is the named draw sequence
/// for `(seed, count)` (the generator is deterministic in its seed), and
/// it holds `count` values. The values themselves are not stated.
#[verifier::external_body]
pub(crate) fn chacha12_u64s(seed: u64, count: usize) -> (draws: Vec<u64>)
    ensures
        draws@ == chacha12_u64_draws(seed, count as nat),
        draws@.len() == count,
{
    let mut rng = ChaCha12Rng::seed_from_u64(seed);
    (0..count).map(|_| rng.gen::<u64>()).collect()
}

} // verus!
