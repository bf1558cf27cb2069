//! Trusted boundary to the `rand` crate: the only randomness the simulator
//! draws. Nothing is assumed about the values drawn beyond what the crate's
//! source shows of every outcome.

use vstd::prelude::*;

use crate::message::NodeId;
use rand::seq::SliceRandom;

verus! {

#[verifier::external_type_specification]
#[verifier::external_body]
pub struct ExThreadRng(rand::rngs::ThreadRng);

/// Relies on rand::thread_rng: returns the lazily-initialized thread-local
/// random number generator. Nothing is promised of it.
#[verifier::external_body]
pub(crate) fn new_thread_rng() -> rand::rngs::ThreadRng {
    rand::thread_rng()
}

/// Relies on SliceRandom::shuffle of rand: an in-place Fisher-Yates shuffle,
/// which only swaps elements, so the result is a permutation of the input.
/// Which permutation comes out is random, so only the multiset of elements
/// (and hence the length) is promised.
#[verifier::external_body]
pub(crate) fn shuffle_ids(ids: &mut Vec<NodeId>, rng: &mut rand::rngs::ThreadRng)
    ensures
        final(ids)@.to_multiset() == old(ids)@.to_multiset(),
        final(ids)@.len() == old(ids)@.len(),
{
    ids.as_mut_slice().shuffle(rng);
}

/// Relies on rand::random: one value drawn from the thread-local generator.
/// Nothing can be promised of a random value, so there is no `ensures`.
pub assume_specification<T>[ rand::random::<T> ]() -> (r: T)
    where
        rand::distributions::Standard: rand::distributions::Distribution<T>,
;

} // verus!
