//! Randomness, obtained from the `rand` crate behind trusted wrappers.

use rand::Rng;
use vstd::prelude::*;

verus! {

/// Relies on `rand::Rng::gen_range` (through `rand::thread_rng`): the result
/// is drawn uniformly from the given range, here `0..10`.
#[verifier::external_body]
pub(crate) fn random_axis() -> (r: u8)
    ensures
        r < 10,
{
    rand::thread_rng().gen_range(0..10)
}

/// Relies on `rand::random::<bool>`: a fair coin flip. Nothing is promised of
/// the outcome.
#[verifier::external_body]
pub(crate) fn random_flip() -> bool {
    rand::random::<bool>()
}

} // verus!
