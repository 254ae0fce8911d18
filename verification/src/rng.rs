//! The random number generator the robots draw their moves from.
use rand::rngs::StdRng;
use rand::RngExt;
use vstd::prelude::*;

verus! {

#[verifier::external_type_specification]
#[verifier::external_body]
pub struct ExStdRng(StdRng);

/// Draws a number in `0..bound` by `rand`'s `RngExt::random_range` on the standard generator.
///
/// Trusted: `random_range` samples from the range it is given, so the result lies below
/// `bound`. Which number comes out depends on the generator's state, and nothing more is
/// stated of it.
#[verifier::external_body]
pub(crate) fn random_below(rng: &mut StdRng, bound: usize) -> (r: usize)
    requires
        bound > 0,
    ensures
        r < bound,
{
    rng.random_range(0..bound)
}

} // verus!
