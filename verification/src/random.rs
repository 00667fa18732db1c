use vstd::prelude::*;

use rand::rngs::ThreadRng;
use rand::RngExt;

verus! {

/// `rand::rngs::ThreadRng`, the thread-local generator, carried through as an opaque value.
#[verifier::external_type_specification]
#[verifier::external_body]
pub struct ExThreadRng(ThreadRng);

/// `rand::RngExt::random::<u64>` on the thread-local generator: some value;
/// nothing is promised of which.
#[verifier::external_body]
pub(crate) fn random_seed(rng: &mut ThreadRng) -> u64 {
    rng.random::<u64>()
}

/// `rand::RngExt::random_range(0..bound)` on the thread-local generator: some value
/// below `bound`. It panics on an empty range, which `requires` leaves out.
#[verifier::external_body]
pub(crate) fn random_below(rng: &mut ThreadRng, bound: usize) -> (r: usize)
    requires
        bound > 0,
    ensures
        r < bound,
{
    rng.random_range(0..bound)
}

} // verus!
