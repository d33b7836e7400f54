//! Random choices, drawn from `rand`'s small fast generator.

use rand::rngs::SmallRng;
use rand::seq::SliceRandom;
use rand::Rng;
use rand::SeedableRng;
use vstd::prelude::*;

verus! {

/// The generator type that every random choice of the library draws from.
#[verifier::external_type_specification]
#[verifier::external_body]
pub struct ExSmallRng(SmallRng);

/// `SmallRng::from_entropy`: a generator seeded from the operating system's entropy.
/// Nothing is stated of the seed; `from_entropy` panics only when the system has no entropy source.
#[verifier::external_body]
pub(crate) fn new_rng() -> SmallRng {
    SmallRng::from_entropy()
}

/// `Rng::gen_range` over the inclusive range `lo..=hi`: the result lies in the range
/// (rand documents that it panics on an empty range, which `requires` rules out).
/// Which value comes out is left to chance.
#[verifier::external_body]
pub(crate) fn random_in(rng: &mut SmallRng, lo: usize, hi: usize) -> (r: usize)
    requires
        lo <= hi,
    ensures
        lo <= r <= hi,
{
    rng.gen_range(lo..=hi)
}

/// `SliceRandom::shuffle` on a vector of indices: the vector is permuted in place
/// (the same items, each as many times). Which permutation comes out is left to chance.
#[verifier::external_body]
pub(crate) fn shuffle_indices(v: &mut Vec<usize>, rng: &mut SmallRng)
    ensures
        final(v)@.to_multiset() == old(v)@.to_multiset(),
        final(v)@.len() == old(v)@.len(),
{
    v.shuffle(rng)
}

} // verus!
