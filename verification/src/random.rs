//! Sources of randomness.

use rand::rngs::OsRng;
use rand::Rng;
use vstd::prelude::*;

verus! {

/// A source of random numbers, as a generator draws from it. The generator
/// is proved against the contract of `below`, so an implementation has to
/// keep it.
pub trait RandomSource {
    /// A number from `0` up to, not including, `bound`. Every number in that
    /// range should be as likely as any other.
    fn below(&mut self, bound: u64) -> (draw: u64)
        requires
            bound > 0,
        ensures
            draw < bound,
    ;
}

/// `rand::rngs::OsRng`, the handle on the operating system's random number
/// generator. Nothing is known of what it yields.
#[verifier::external_type_specification]
#[verifier::external_body]
pub struct ExOsRng(OsRng);

/// Draws a number from `0` up to, not including, `bound`, with
/// `Rng::gen_range` of the `rand` crate on the operating system's generator.
/// The contract claims only the range, which `gen_range` documents and which
/// holds of every outcome; that the draw is uniform is not stated.
/// `gen_range` panics on an empty range, which `bound > 0` excludes. It also
/// panics where the operating system fails to give random bytes, which no
/// condition on the arguments can exclude.
#[verifier::external_body]
fn draw_below(rng: &mut OsRng, bound: u64) -> (draw: u64)
    requires
        bound > 0,
    ensures
        draw < bound,
{
    rng.gen_range(0, bound)
}

impl RandomSource for OsRng {
    fn below(&mut self, bound: u64) -> (draw: u64) {
        draw_below(self, bound)
    }
}

} // verus!
