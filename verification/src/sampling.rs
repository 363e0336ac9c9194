//! The randomness source used to seed absorbing sites.
//!
//! The simulation itself is deterministic; only absorber placement draws from
//! a pseudo-random generator, supplied by the `rand` crate behind the trusted
//! wrapper below.

use rand::Rng;
use vstd::prelude::*;

verus! {

/// `rand::rngs::ThreadRng`, the thread-local generator; opaque here, created
/// by callers with `rand::rng()`.
#[verifier::external_type_specification]
#[verifier::external_body]
pub struct ExThreadRng(rand::rngs::ThreadRng);

/// Relies on `rand::Rng::random_range`: on the non-empty range `0..bound` it
/// returns a value of that range and does not panic.  Nothing is assumed
/// about which value comes back.
#[verifier::external_body]
pub(crate) fn draw_below(rng: &mut rand::rngs::ThreadRng, bound: u64) -> (r: u64)
    requires
        bound >= 1,
    ensures
        r < bound,
{
    rng.random_range(0..bound)
}

} // verus!
