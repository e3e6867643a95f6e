//! The one source of randomness: a caller-provided generator handle threaded
//! through every stochastic operation, behind a single trusted draw.
use vstd::prelude::*;

verus! {

#[verifier::external_type_specification]
#[verifier::external_body]
pub struct ExThreadRng(rand::rngs::ThreadRng);

/// Relies on rand::Rng::gen_range over the half-open range `0..bound`: the
/// sampled value lies below `bound`. With `bound >= 1` the range is
/// non-empty, so the call does not panic. Nothing more is assumed of the
/// draw: every result below `bound` is possible.
#[verifier::external_body]
pub(crate) fn rand_below(rng: &mut rand::rngs::ThreadRng, bound: usize) -> (r: usize)
    requires
        bound >= 1,
    ensures
        r < bound,
{
    rand::Rng::gen_range(rng, 0..bound)
}

} // verus!
