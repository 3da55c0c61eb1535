//! Trusted boundary to the `rand` crate: the one source of randomness the
//! kernel consumes when seeding a board.

use vstd::prelude::*;

verus! {

/// Declares rand's `ThreadRng` so that a generator handed in by the caller
/// can pass through the library; the library sees nothing inside it.
#[verifier::external_type_specification]
#[verifier::external_body]
pub struct ExThreadRng(rand::rngs::ThreadRng);

/// Relies on rand's `RngExt::random_range`: the draw is uniform over
/// `0..bound`, so in particular it is below `bound`. Nothing more is assumed
/// of it; which value comes back is up to the generator.
#[verifier::external_body]
pub(crate) fn random_below(rng: &mut rand::rngs::ThreadRng, bound: u64) -> (draw: u64)
    requires
        bound >= 1,
    ensures
        draw < bound,
{
    rand::RngExt::random_range(rng, 0..bound)
}

} // verus!
