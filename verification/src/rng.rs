//! Randomness, obtained from the `rand` crate behind trusted wrappers.
//! Nothing can be promised about an individual sample beyond its range,
//! and every function that consumes samples is verified for all values
//! in that range.

use vstd::prelude::*;

verus! {

#[verifier::external_type_specification]
#[verifier::external_body]
pub struct ExThreadRng(rand::rngs::ThreadRng);

/// Relies on rand::thread_rng: hands out the thread-local,
/// cryptographically seeded generator.
#[verifier::external_body]
pub(crate) fn fresh_rng() -> rand::rngs::ThreadRng {
    rand::thread_rng()
}

/// Relies on rand::Rng::gen_range on the half-open range `0..q`: the
/// sample lies in that range, which must be non-empty or the call panics.
#[verifier::external_body]
pub(crate) fn sample_below(rng: &mut rand::rngs::ThreadRng, q: u64) -> (r: u64)
    requires
        q >= 1,
    ensures
        r < q,
{
    rand::Rng::gen_range(rng, 0..q)
}

} // verus!
