//! Primitives shared by every layer: identifiers, timers and random hashes.

use vstd::prelude::*;

pub mod id;
pub mod timer;

verus! {

/// Draws 64 uniformly random bits from `rand`'s thread-local generator
/// (`RngCore::next_u64` on `thread_rng()`). Nothing is claimed of the value.
#[verifier::external_body]
pub(crate) fn next_u64() -> u64 {
    rand::RngCore::next_u64(&mut rand::thread_rng())
}

/// Draws a number below `high`, uniformly, from `rand`'s thread-local
/// generator (`Rng::gen_range(0, high)` on `thread_rng()`). The generator
/// panics on an empty range, so `high` must be positive; the number drawn is
/// below `high`, and nothing else is claimed of it.
#[verifier::external_body]
pub(crate) fn random_below(high: u64) -> (r: u64)
    requires
        high > 0,
    ensures
        r < high,
{
    rand::Rng::gen_range(&mut rand::thread_rng(), 0u64, high)
}

/// A fresh random 64-bit hash, used to tag tickets and broadcast messages.
pub fn get_hash() -> u64 {
    next_u64()
}

} // verus!
