//! The calls into `rand`: every random decision of the library goes through here.

use rand::RngExt;
use rand::rngs::ThreadRng;
use rand::seq::SliceRandom;
use vstd::prelude::*;

verus! {

#[verifier::external_type_specification]
#[verifier::external_body]
pub struct ExThreadRng(ThreadRng);

/// Calls `RngExt::random_range` on the inclusive range `low..=high`.
/// Claimed: the value lies in `low..=high` (rand panics on an empty range, so
/// `low <= high` is required). Which value comes is chance and is not stated.
#[verifier::external_body]
pub(crate) fn random_in(rng: &mut ThreadRng, low: usize, high: usize) -> (value: usize)
    requires
        low <= high,
    ensures
        low <= value <= high,
{
    rng.random_range(low..=high)
}

/// Calls `SliceRandom::shuffle` on the whole vector.
/// Claimed: the result is a permutation of the input (same length, same
/// multiset of items). Which permutation is chance and is not stated.
#[verifier::external_body]
pub(crate) fn shuffle<T>(rng: &mut ThreadRng, items: &mut Vec<T>)
    ensures
        final(items)@.len() == old(items)@.len(),
        final(items)@.to_multiset() == old(items)@.to_multiset(),
{
    items.as_mut_slice().shuffle(rng)
}

} // verus!
