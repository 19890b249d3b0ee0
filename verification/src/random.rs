//! Chance, from the `rand` crate. Nothing here is proved: each item states
//! only what holds of every outcome.
use vstd::prelude::*;
use rand::seq::SliceRandom;

verus! {

/// Calls `rand::seq::SliceRandom::shuffle` with the thread-local generator.
/// Its source swaps elements in place, so the result is some permutation of
/// the input: the same items, as many times each. Which permutation is left
/// unsaid: it rests on chance.
#[verifier::external_body]
pub(crate) fn shuffle<T>(items: &mut Vec<T>)
    ensures
        final(items)@.to_multiset() == old(items)@.to_multiset(),
{
    items.shuffle(&mut rand::thread_rng());
}

/// Calls `rand::seq::SliceRandom::choose` with the thread-local generator,
/// and copies the chosen item. Its source returns `None` exactly when the
/// slice is empty, and otherwise one of the slice's items; which one is left
/// unsaid: it rests on chance.
#[verifier::external_body]
pub(crate) fn choose_one<T: Copy>(items: &Vec<T>) -> (picked: Option<T>)
    ensures
        picked is None <==> items@.len() == 0,
        picked matches Some(item) ==> items@.contains(item),
{
    items.choose(&mut rand::thread_rng()).copied()
}

} // verus!
