//! The library's source of randomness.

use vstd::prelude::*;
use rand::Rng;
use rand::seq::SliceRandom;

verus! {

/// Draws a number below `bound` from the thread's generator.
///
/// Calls `rand::Rng::gen_range` on `rand::thread_rng()` with the range
/// `0..bound`.  The generator returns a member of the range; it panics on an
/// empty range, which the precondition rules out.  Nothing else is claimed:
/// two calls with the same bound may differ.
#[verifier::external_body]
pub(crate) fn random_below(bound: u128) -> (r: u128)
    requires
        bound > 0,
    ensures
        r < bound,
{
    rand::thread_rng().gen_range(0..bound)
}

/// Reorders `items` at random.
///
/// Calls `rand::seq::SliceRandom::shuffle` with `rand::thread_rng()`.  The
/// shuffle only swaps elements of the slice, so the vector afterwards holds
/// the same elements as before, each as often as before.
#[verifier::external_body]
pub(crate) fn shuffle(items: &mut Vec<usize>)
    ensures
        final(items)@.to_multiset() == old(items)@.to_multiset(),
{
    items.shuffle(&mut rand::thread_rng());
}

} // verus!
