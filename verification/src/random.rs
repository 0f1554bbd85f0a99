//! The random draws of the genetic algorithm, taken from the `rand` crate.
use vstd::prelude::*;
use rand::distr::{Distribution, Uniform};
use rand::rngs::ThreadRng;
use rand::seq::SliceRandom;
use rand::Rng;

verus! {

/// The thread-local random number generator of `rand`.
#[verifier::external_type_specification]
#[verifier::external_body]
pub struct ExThreadRng(ThreadRng);

/// Draws a number from `0..upper` with `rand`'s `Uniform::try_from(0..upper)` and
/// `Distribution::sample`. `rand` documents `Uniform` over a half-open range as yielding
/// values at least the lower and below the upper bound, and its `try_from` as failing
/// exactly on an empty range, so a non-empty range is required and the draw is below
/// `upper`. Which number comes is left to chance and not stated.
#[verifier::external_body]
pub(crate) fn sample_below(upper: usize, rng: &mut ThreadRng) -> (r: usize)
    requires
        upper > 0,
    ensures
        r < upper,
{
    Uniform::try_from(0..upper).unwrap().sample(rng)
}

/// Draws a fair coin with `rand`'s `Rng::random::<bool>()`. Nothing is stated of the
/// result: it is left to chance.
#[verifier::external_body]
pub(crate) fn random_bool(rng: &mut ThreadRng) -> bool {
    rng.random::<bool>()
}

/// Shuffles the list in place with `rand`'s `SliceRandom::shuffle`, which the crate
/// documents as shuffling a slice in place (a Fisher-Yates shuffle): the result is a
/// permutation of the list. Which permutation comes is left to chance and not stated.
#[verifier::external_body]
pub(crate) fn shuffle_indices(v: &mut Vec<usize>, rng: &mut ThreadRng)
    ensures
        final(v)@.len() == old(v)@.len(),
        final(v)@.to_multiset() == old(v)@.to_multiset(),
{
    v.shuffle(rng)
}

} // verus!
