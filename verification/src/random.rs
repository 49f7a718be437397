//! The random choices of the search, made by the `rand` crate.

use rand::rngs::ThreadRng;
use rand::seq::IteratorRandom;
use rand::seq::SliceRandom;
use vstd::prelude::*;

verus! {

/// `rand::rngs::ThreadRng`, the random source that the search is handed. The
/// proofs know nothing of what it holds or yields.
#[verifier::external_type_specification]
#[verifier::external_body]
pub struct ExThreadRng(ThreadRng);

/// `rand::seq::SliceRandom::choose` on the slice of `items`.
///
/// Trusted: `choose` gives `None` for an empty slice and otherwise one of the
/// slice's elements. Which element is left open.
#[verifier::external_body]
pub(crate) fn pick_from_slice(items: &Vec<usize>, rng: &mut ThreadRng) -> (picked: Option<usize>)
    ensures
        items@.len() == 0 ==> picked is None,
        items@.len() > 0 ==> picked is Some && items@.contains(picked->0),
{
    items.choose(rng).copied()
}

/// `rand::seq::IteratorRandom::choose` on the iterator that owns `items`.
///
/// Trusted: `choose` gives `None` if and only if the iterator is empty, and
/// otherwise one of the items it yields. Which item is left open.
#[verifier::external_body]
pub(crate) fn pick_from_iter(items: Vec<usize>, rng: &mut ThreadRng) -> (picked: Option<usize>)
    ensures
        items@.len() == 0 ==> picked is None,
        items@.len() > 0 ==> picked is Some && items@.contains(picked->0),
{
    items.into_iter().choose(rng)
}

} // verus!
