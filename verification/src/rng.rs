//! The injectable source of randomness: a thin trusted boundary around
//! the `rand` crate. Nothing is assumed about which value comes back,
//! only that it lies in the requested range, so everything downstream is
//! verified for every possible draw.

use vstd::prelude::*;
use rand::Rng;

verus! {

/// The `rand` crate's handle to the thread-local generator.
#[verifier::external_type_specification]
#[verifier::external_body]
pub struct ExThreadRng(rand::rngs::ThreadRng);

/// Relies on rand::thread_rng: hands out the thread-local generator.
/// Nothing is assumed about its state.
#[verifier::external_body]
pub(crate) fn fresh_rng() -> rand::rngs::ThreadRng {
    rand::thread_rng()
}

/// Relies on Rng::gen_range over the inclusive range `lo..=hi`, which for
/// `lo <= hi` is nonempty and returns a value inside it. Which value comes
/// back depends on the generator's state, so no more is assumed.
#[verifier::external_body]
pub(crate) fn draw_in_range(rng: &mut rand::rngs::ThreadRng, lo: i128, hi: i128) -> (r: i128)
    requires
        lo <= hi,
    ensures
        lo <= r <= hi,
{
    rng.gen_range(lo..=hi)
}

} // verus!
