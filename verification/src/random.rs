//! Random choices, by way of the `rand` crate.
//!
//! Nothing is known of a choice but the range it lies in, and nothing of a
//! shuffle but that it keeps the items.
use rand::rngs::ThreadRng;
use rand::seq::SliceRandom;
use rand::Rng;
use vstd::prelude::*;

verus! {

/// The thread-local generator of the `rand` crate.
#[verifier::external_type_specification]
#[verifier::external_body]
pub struct ExThreadRng(ThreadRng);

/// `Rng::gen_range`: a random number from `from` up to, not including, `to`.
/// It panics on an empty range. Which number it is, is left to chance.
#[verifier::external_body]
pub(crate) fn choose_in(rng: &mut ThreadRng, from: usize, to: usize) -> (r: usize)
    requires
        from < to,
    ensures
        from <= r < to,
{
    rng.gen_range(from..to)
}

/// `SliceRandom::shuffle`: puts the items into a random order. Which order it
/// is, is left to chance; the items stay the same.
#[verifier::external_body]
pub(crate) fn shuffle<T>(items: &mut Vec<T>, rng: &mut ThreadRng)
    ensures
        final(items)@.to_multiset() == old(items)@.to_multiset(),
{
    items.shuffle(rng);
}

} // verus!
