//! The random number generator that the engine draws from.

use vstd::prelude::*;
use rand::Rng;
use crate::vertex::Vertex;

verus! {

#[verifier::external_type_specification]
#[verifier::external_body]
pub struct ExStdRng(rand::StdRng);

/// Calls `rand::Rng::gen_range` with the bounds 0 and `high`. The outside
/// function returns a value of the half-open range between its bounds and
/// panics if the range is empty; so `high` must be positive and the result
/// lies below it. Nothing else is claimed of the result.
#[verifier::external_body]
pub(crate) fn random_below(rng: &mut rand::StdRng, high: usize) -> (r: usize)
    requires
        high > 0,
    ensures
        r < high,
{
    rng.gen_range(0, high)
}

/// Calls `rand::Rng::shuffle`, which exchanges entries of the slice in
/// place: afterwards the vector holds the same entries, each as often as
/// before. Nothing is claimed of their order.
#[verifier::external_body]
pub(crate) fn shuffle_moves(rng: &mut rand::StdRng, values: &mut Vec<(Vertex, usize)>)
    ensures
        final(values)@.to_multiset() == old(values)@.to_multiset(),
{
    rng.shuffle(values)
}

/// Calls `rand::Rng::gen` for a `u64`, which draws the next 64 bits of the
/// generator. Nothing is claimed of the result.
#[verifier::external_body]
pub(crate) fn random_key(rng: &mut rand::StdRng) -> (r: u64)
{
    rng.gen()
}

} // verus!
