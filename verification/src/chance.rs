//! The one place where chance comes in.

use rand::seq::SliceRandom;
use rand::thread_rng;
use vstd::prelude::*;

verus! {

/// `SliceRandom::shuffle` with the generator of `rand::thread_rng`: the items
/// are swapped about in place, so whatever the generator yields, the same
/// items are there afterwards, each as often as before. Which order comes out
/// is left open. The generator is seeded by the system when a thread first
/// asks for it, and gives up only where the system has no randomness to give.
#[verifier::external_body]
pub(crate) fn shuffle_in_place(items: &mut Vec<usize>)
    ensures
        final(items)@.to_multiset() == old(items)@.to_multiset(),
{
    items.shuffle(&mut thread_rng());
}

} // verus!
