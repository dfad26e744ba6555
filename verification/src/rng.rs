//! Randomness for map generation, behind a small trusted boundary.
//!
//! Generation draws every random number from an explicitly threaded,
//! seedable generator, so runs are reproducible. Nothing is assumed about
//! the values drawn beyond their range.

use vstd::prelude::*;

use rand::RngExt;
use rand::SeedableRng;

verus! {

#[verifier::external_type_specification]
#[verifier::external_body]
pub struct ExStdRng(rand::rngs::StdRng);

/// The generator threaded through map generation: rand's `StdRng`.
pub type GenRng = rand::rngs::StdRng;

/// Relies on rand's `SeedableRng::seed_from_u64` for `StdRng`: it builds a
/// generator deterministically from a 64-bit seed and never fails.
#[verifier::external_body]
pub fn rng_from_seed(seed: u64) -> GenRng {
    rand::rngs::StdRng::seed_from_u64(seed)
}

/// Relies on rand's `RngExt::random_range` over `0..n`: it panics only on an
/// empty range, and otherwise returns a uniform draw strictly below `n`.
#[verifier::external_body]
pub fn rng_below(rng: &mut GenRng, n: u32) -> (r: u32)
    requires
        n >= 1,
    ensures
        r < n,
{
    rng.random_range(0..n)
}

} // verus!
