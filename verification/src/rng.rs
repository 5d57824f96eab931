//! The randomness source behind the random walk: a generator from the rand
//! crate, sampled through a trusted wrapper.

use vstd::prelude::*;

verus! {

#[verifier::external_type_specification]
#[verifier::external_body]
pub struct ExStdRng(rand::rngs::StdRng);

/// Relies on rand's `Rng::gen_range`: a sample from the range `0..4` lies
/// below 4 (the call panics only on an empty range, and `0..4` is not empty).
#[verifier::external_body]
pub(crate) fn random_direction_index(rng: &mut rand::rngs::StdRng) -> (r: u32)
    ensures
        r < 4,
{
    rand::Rng::gen_range(rng, 0u32..4u32)
}

} // verus!
