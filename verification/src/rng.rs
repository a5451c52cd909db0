//! The random-number source for trials: a small, seedable generator from
//! the `rand` crate, consumed through a single trusted wrapper.

use vstd::prelude::*;

verus! {

#[verifier::external_type_specification]
#[verifier::external_body]
pub struct ExSmallRng(rand::rngs::SmallRng);

/// Relies on rand's `Rng::gen_range` over `0..n`: a uniformly random
/// integer in `[0, n)`. The call panics only on an empty range, which the
/// precondition rules out; nothing more is promised of any one outcome.
#[verifier::external_body]
pub(crate) fn random_below(rng: &mut rand::rngs::SmallRng, n: usize) -> (r: usize)
    requires
        n >= 1,
    ensures
        r < n,
{
    rand::Rng::gen_range(rng, 0..n)
}

} // verus!
