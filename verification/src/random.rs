//! The random decisions of the engine, drawn from a seeded ChaCha generator.
//!
//! Nothing here is proved: each function hands one call to the `rand` crates.
//! A ChaCha generator is a pure state machine, so what a call returns and the
//! state it leaves behind are functions of the arguments and of the state
//! before the call. Those functions are long; they are given names here, and
//! the contracts say which name each call computes.

use vstd::prelude::*;
use rand::seq::IteratorRandom;
use rand::seq::SliceRandom;
use rand::Rng;
use rand::SeedableRng;
use rand_chacha::ChaCha8Rng;

verus! {

/// `rand_chacha::ChaCha8Rng`, carried through as an opaque value.
#[verifier::external_type_specification]
#[verifier::external_body]
pub struct ExChaCha8Rng(rand_chacha::ChaCha8Rng);

/// The generator that `SeedableRng::seed_from_u64` makes from `seed`.
pub uninterp spec fn seeded(seed: u64) -> ChaCha8Rng;

/// The order that `SliceRandom::shuffle` gives `items` with the generator in
/// state `rng`.
pub uninterp spec fn shuffled(items: Seq<usize>, rng: ChaCha8Rng) -> Seq<usize>;

/// The state in which `SliceRandom::shuffle` leaves the generator after it
/// has shuffled `count` items from state `rng`.
pub uninterp spec fn after_shuffle(count: nat, rng: ChaCha8Rng) -> ChaCha8Rng;

/// The number that `Rng::gen_range` draws from `low..high` with the generator
/// in state `rng`.
pub uninterp spec fn drawn_in_range(low: i32, high: i32, rng: ChaCha8Rng) -> i32;

/// The state in which `Rng::gen_range` leaves the generator after a draw from
/// `low..high` in state `rng`.
pub uninterp spec fn after_draw(low: i32, high: i32, rng: ChaCha8Rng) -> ChaCha8Rng;

/// The index that `IteratorRandom::choose` picks among `0..count` with the
/// generator in state `rng`.
pub uninterp spec fn chosen_index(count: usize, rng: ChaCha8Rng) -> Option<usize>;

/// The state in which `IteratorRandom::choose` leaves the generator after a
/// choice among `0..count` in state `rng`.
pub uninterp spec fn after_choice(count: usize, rng: ChaCha8Rng) -> ChaCha8Rng;

/// `SeedableRng::seed_from_u64`: expands the seed and sets the generator up
/// with it. Claimed: the generator is the one that the seed determines.
#[verifier::external_body]
pub(crate) fn seeded_generator(seed: u64) -> (rng: ChaCha8Rng)
    ensures
        rng == seeded(seed),
{
    ChaCha8Rng::seed_from_u64(seed)
}

/// `SliceRandom::shuffle`: reorders `items` in place by swapping elements at
/// indices drawn from the generator. Claimed: the items afterwards are the
/// items before, in the order that the items and the generator's state
/// determine, and the generator is left in the state that the number of items
/// and its state before determine.
#[verifier::external_body]
pub(crate) fn shuffle(items: &mut Vec<usize>, rng: &mut ChaCha8Rng)
    ensures
        final(items)@.to_multiset() == old(items)@.to_multiset(),
        final(items)@ == shuffled(old(items)@, *old(rng)),
        *final(rng) == after_shuffle(old(items)@.len(), *old(rng)),
{
    items.shuffle(rng);
}

/// `Rng::gen_range` on the half-open range `low..high`, which panics when the
/// range is empty. Claimed: the number drawn lies in the range and is the one
/// that the range and the generator's state determine, as is the state that
/// the generator is left in.
#[verifier::external_body]
pub(crate) fn random_in_range(rng: &mut ChaCha8Rng, low: i32, high: i32) -> (drawn: i32)
    requires
        low < high,
    ensures
        low <= drawn < high,
        drawn == drawn_in_range(low, high, *old(rng)),
        *final(rng) == after_draw(low, high, *old(rng)),
{
    rng.gen_range(low..high)
}

/// `IteratorRandom::choose` on the indices `0..count`. Claimed: nothing is
/// chosen if and only if there is no index, a chosen index is below `count`,
/// and the choice is the one that `count` and the generator's state
/// determine, as is the state that the generator is left in.
#[verifier::external_body]
pub(crate) fn choose_index(rng: &mut ChaCha8Rng, count: usize) -> (chosen: Option<usize>)
    ensures
        chosen is None <==> count == 0,
        chosen matches Some(index) ==> index < count,
        chosen == chosen_index(count, *old(rng)),
        *final(rng) == after_choice(count, *old(rng)),
{
    (0..count).choose(rng)
}

} // verus!
