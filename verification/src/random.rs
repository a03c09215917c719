//! The seedable random source the engine depends on: a uniform shuffle of the
//! palette and a uniform choice among a placement's candidate cells. Both run
//! on `rand`'s standard generator behind trusted wrappers, so every proof in
//! this crate holds for every outcome the generator can produce.

use vstd::prelude::*;

use crate::color::Color;

verus! {

#[verifier::external_type_specification]
#[verifier::external_body]
pub struct ExStdRng(rand::rngs::StdRng);

/// A seedable random source. A fixed seed gives a reproducible run.
pub struct Rng {
    inner: rand::rngs::StdRng,
}

impl Rng {
    /// Relies on rand::SeedableRng::seed_from_u64 to build rand's standard
    /// generator from a 64-bit seed. The generator state is opaque, so
    /// nothing is claimed about it.
    #[verifier::external_body]
    pub fn from_seed(seed: u64) -> Rng {
        Rng { inner: <rand::rngs::StdRng as rand::SeedableRng>::seed_from_u64(seed) }
    }

    /// Relies on rand::seq::SliceRandom::shuffle, a Fisher-Yates shuffle that
    /// permutes the slice in place: the colors afterwards are exactly the
    /// colors before, in some order.
    #[verifier::external_body]
    pub fn shuffle_colors(&mut self, colors: &mut Vec<Color>)
        ensures
            final(colors)@.to_multiset() == old(colors)@.to_multiset(),
            final(colors)@.len() == old(colors)@.len(),
    {
        rand::seq::SliceRandom::shuffle(colors.as_mut_slice(), &mut self.inner)
    }

    /// Relies on rand::Rng::gen_range on the range 0..n: the result is
    /// uniform in [0, n). gen_range panics on an empty range, which the
    /// precondition rules out.
    #[verifier::external_body]
    pub fn pick(&mut self, n: usize) -> (k: usize)
        requires
            n >= 1,
        ensures
            k < n,
    {
        rand::Rng::gen_range(&mut self.inner, 0..n)
    }
}

} // verus!
