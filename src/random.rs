use vstd::prelude::*;

verus! {

/// The pseudo-random generator that the engine's operators draw from.
#[verifier::external_type_specification]
#[verifier::external_body]
pub struct ExSmallRng(rand::rngs::SmallRng);

/// Relies on rand::Rng::random_range: a value drawn from the non-empty range `0..bound`.
#[verifier::external_body]
pub(crate) fn draw_below(rng: &mut rand::rngs::SmallRng, bound: usize) -> (r: usize)
    requires
        bound > 0,
    ensures
        r < bound,
{
    rand::Rng::random_range(rng, 0..bound)
}

} // verus!
