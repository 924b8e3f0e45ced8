//! The calls into the `rand` crate. Their contracts are taken on trust.

use rand::rngs::ThreadRng;
use rand::seq::{IndexedRandom, SliceRandom};
use vstd::prelude::*;

verus! {

/// The thread-local generator of `rand`, opaque to the verifier.
#[verifier::external_type_specification]
#[verifier::external_body]
pub struct ExThreadRng(ThreadRng);

/// `rand::rng` hands out a handle to the thread-local generator. Nothing is claimed of
/// its state. On its first call in a thread it seeds the generator from the operating
/// system, and panics if that fails.
pub assume_specification[ rand::rng ]() -> (rng: ThreadRng);

/// `SliceRandom::shuffle` of `rand` reorders a slice in place by swapping its elements:
/// the slice holds the same values afterwards, each as often as before. Nothing is
/// claimed of their order.
#[verifier::external_body]
pub(crate) fn shuffle_indices(indices: &mut Vec<usize>, rng: &mut ThreadRng)
    ensures
        final(indices)@.to_multiset() == old(indices)@.to_multiset(),
{
    indices.shuffle(rng);
}

/// `IndexedRandom::choose` of `rand` returns `None` for an empty slice and otherwise one
/// of the slice's elements. Nothing is claimed of which one.
#[verifier::external_body]
pub(crate) fn choose_index(indices: &Vec<usize>, rng: &mut ThreadRng) -> (picked: Option<usize>)
    ensures
        indices@.len() == 0 ==> picked is None,
        indices@.len() > 0 ==> picked is Some && indices@.contains(picked->0),
{
    indices.choose(rng).copied()
}

} // verus!
