//! The seeded generator behind the jittered shuffle.

use vstd::prelude::*;
use rand::Rng;
use rand::SeedableRng;

verus! {

/// The number that a ChaCha generator seeded with `seed` hands out first
/// when it is asked for a number from `low` up to, but not including,
/// `high`.
pub uninterp spec fn seeded_draw(seed: u64, low: u128, high: u128) -> u128;

/// Draws a number from `low` up to, but not including, `high`.
///
/// Builds a generator with `rand_chacha::ChaCha20Rng::seed_from_u64` and
/// asks it once, through `rand::Rng::gen_range`, for a number of that
/// half-open range. Nothing here is proved. Taken on trust from the two
/// crates: the number lies in the range, which must not be empty, and it
/// is settled by the three arguments, since the generator is built from
/// the seed by fixed arithmetic and serves this one request only.
#[verifier::external_body]
pub(crate) fn draw_between(seed: u64, low: u128, high: u128) -> (draw: u128)
    requires
        low < high,
    ensures
        draw == seeded_draw(seed, low, high),
        low <= draw < high,
{
    rand_chacha::ChaCha20Rng::seed_from_u64(seed).gen_range(low, high)
}

} // verus!
