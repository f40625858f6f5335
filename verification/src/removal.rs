//! Removal: emptying cells of a complete grid at random to leave a puzzle.

use vstd::prelude::*;
use crate::board::{is_complete, Board};
use crate::random::{after_draw, drawn_in_range, random_in_range, seeded, seeded_generator};
use rand_chacha::ChaCha8Rng;

verus! {

/// The number of filled cells.
pub open spec fn hint_count(cells: Seq<u8>) -> int {
    cells.len() - cells.to_multiset().count(0u8)
}

/// The cell at `index` is filled, and `n` filled cells come before it.
pub open spec fn is_nth_filled(cells: Seq<u8>, n: int, index: int) -> bool {
    &&& 0 <= index < cells.len()
    &&& cells[index] != 0
    &&& hint_count(cells.take(index)) == n
}

/// The index of the filled cell that has `n` filled cells before it.
pub open spec fn nth_filled(cells: Seq<u8>, n: int) -> int {
    choose|index: int| is_nth_filled(cells, n, index)
}

/// The cells after `count` filled cells have been emptied, one after the
/// other: each time a number below the count of the cells still filled is
/// drawn from the generator, from state `rng` on, and the filled cell with
/// that many filled cells before it is emptied.
pub open spec fn randomly_cleared(cells: Seq<u8>, rng: ChaCha8Rng, count: nat) -> Seq<u8>
    decreases count,
{
    if count == 0 {
        cells
    } else {
        let filled = hint_count(cells) as i32;
        let pick = drawn_in_range(0, filled, rng);
        randomly_cleared(
            cells.update(nth_filled(cells, pick as int), 0),
            after_draw(0, filled, rng),
            (count - 1) as nat,
        )
    }
}

/// The state of the generator after those `count` draws.
pub open spec fn after_clearing(cells: Seq<u8>, rng: ChaCha8Rng, count: nat) -> ChaCha8Rng
    decreases count,
{
    if count == 0 {
        rng
    } else {
        let filled = hint_count(cells) as i32;
        let pick = drawn_in_range(0, filled, rng);
        after_clearing(
            cells.update(nth_filled(cells, pick as int), 0),
            after_draw(0, filled, rng),
            (count - 1) as nat,
        )
    }
}

/// The number of hints that the generator seeded with `seed` draws from
/// `min..max`.
pub open spec fn drawn_hints(seed: u64, min: i32, max: i32) -> i32 {
    drawn_in_range(min, max, seeded(seed))
}

/// The puzzle that removal leaves of `cells`: the generator seeded with
/// `seed` draws the number of hints and then picks the cells to empty.
pub open spec fn puzzle_from(cells: Seq<u8>, seed: u64, min: i32, max: i32) -> Seq<u8> {
    randomly_cleared(
        cells,
        after_draw(min, max, seeded(seed)),
        cells_to_clear(hint_count(cells), drawn_hints(seed, min, max) as int) as nat,
    )
}

/// Removal is fixed by the board, the seed and the bounds.
pub proof fn lemma_same_seed_same_puzzle(
    first: Seq<u8>,
    second: Seq<u8>,
    first_seed: u64,
    second_seed: u64,
    min: i32,
    max: i32,
)
    requires
        first == second,
        first_seed == second_seed,
    ensures
        puzzle_from(first, first_seed, min, max) == puzzle_from(second, second_seed, min, max),
{
}

/// How many cells are emptied in order to leave `hints` of `filled`: those
/// that 81 cells have too many, as far as there are filled cells to empty.
pub open spec fn cells_to_clear(filled: int, hints: int) -> int {
    if 81 - hints <= 0 {
        0
    } else if 81 - hints >= filled {
        filled
    } else {
        81 - hints
    }
}

/// `cells` is `before` with some cells emptied.
pub open spec fn only_emptied(before: Seq<u8>, cells: Seq<u8>) -> bool {
    &&& cells.len() == before.len()
    &&& forall|i: int|
        0 <= i < before.len() ==> #[trigger] cells[i] == before[i] || cells[i] == 0
}

/// The bounds of removal: a hint count drawn from `min..max` leaves more
/// than `81 - max` and at most `81 - min` cells to empty. The hint count
/// itself lies within those same bounds where the two ranges coincide, which
/// is where `min + max` is 82.
pub proof fn lemma_removal_bounds(min: int, max: int, hints: int)
    requires
        min <= hints < max,
    ensures
        81 - max < 81 - hints <= 81 - min,
        min + max == 82 ==> 81 - max < hints <= 81 - min,
{
}

/// A complete grid holds 81 hints.
pub proof fn lemma_complete_hint_count(cells: Seq<u8>)
    requires
        cells.len() == 81,
        is_complete(cells),
    ensures
        hint_count(cells) == 81,
{
    broadcast use vstd::seq_lib::to_multiset_contains;

    if cells.to_multiset().count(0u8) > 0 {
        assert(cells.contains(0u8));
        let k = choose|k: int| 0 <= k < cells.len() && cells[k] == 0u8;
        assert(cells[k] != 0);
    }
}

/// One more cell counts as a hint when it is filled.
pub proof fn lemma_hint_count_step(cells: Seq<u8>, upto: int)
    requires
        0 <= upto < cells.len(),
    ensures
        hint_count(cells.take(upto + 1)) == hint_count(cells.take(upto)) + if cells[upto] != 0 {
            1int
        } else {
            0int
        },
        0 <= hint_count(cells.take(upto)) <= upto,
{
    broadcast use {
        vstd::seq_lib::to_multiset_build,
        vstd::seq_lib::to_multiset_len,
        vstd::multiset::group_multiset_axioms,
    };

    assert(cells.take(upto + 1) =~= cells.take(upto).push(cells[upto]));
    vstd::seq_lib::to_multiset_len(cells.take(upto));
    vstd::multiset::axiom_count_le_len(cells.take(upto).to_multiset(), 0u8);
}

/// A longer stretch of cells holds no fewer hints.
pub proof fn lemma_hint_count_grows(cells: Seq<u8>, lower: int, upper: int)
    requires
        0 <= lower <= upper <= cells.len(),
    ensures
        hint_count(cells.take(lower)) <= hint_count(cells.take(upper)),
    decreases upper - lower,
{
    if lower < upper {
        lemma_hint_count_grows(cells, lower, upper - 1);
        lemma_hint_count_step(cells, upper - 1);
    }
}

/// Only one filled cell has `n` filled cells before it.
pub proof fn lemma_nth_filled_unique(cells: Seq<u8>, n: int, first: int, second: int)
    requires
        is_nth_filled(cells, n, first),
        is_nth_filled(cells, n, second),
    ensures
        first == second,
{
    if first < second {
        lemma_hint_count_step(cells, first);
        lemma_hint_count_grows(cells, first + 1, second);
    } else if second < first {
        lemma_hint_count_step(cells, second);
        lemma_hint_count_grows(cells, second + 1, first);
    }
}

/// Emptying a filled cell leaves one hint less.
pub proof fn lemma_hint_count_cleared(cells: Seq<u8>, index: int)
    requires
        0 <= index < cells.len(),
        cells[index] != 0,
    ensures
        hint_count(cells.update(index, 0)) == hint_count(cells) - 1,
{
    broadcast use {vstd::seq_lib::to_multiset_update, vstd::multiset::group_multiset_axioms};

}

impl Board {
    /// The number of filled cells.
    pub fn count_hints(&self) -> (count: usize)
        ensures
            count == hint_count(self@),
            count <= 81,
    {
        proof {
            use_type_invariant(self);
            self.lemma_is_grid();
            assert(self@.take(0) =~= Seq::<u8>::empty());
            vstd::seq_lib::to_multiset_len(self@.take(0));
            vstd::multiset::axiom_count_le_len(self@.take(0).to_multiset(), 0u8);
        }
        let mut count: usize = 0;
        let mut index: usize = 0;
        while index < 81
            invariant
                index <= 81,
                self@.len() == 81,
                count == hint_count(self@.take(index as int)),
                count <= index,
            decreases 81 - index,
        {
            proof {
                lemma_hint_count_step(self@, index as int);
                assert(index / 9 * 9 + index % 9 == index);
            }
            if self.cell(index / 9, index % 9) != 0 {
                count += 1;
            }
            index += 1;
        }
        assert(self@.take(81) =~= self@);
        count
    }

    /// Empties the filled cell that has `n` filled cells before it in
    /// row-major order, and answers with its linear index.
    pub fn clear_nth_filled(&mut self, n: usize) -> (index: usize)
        requires
            n < hint_count(old(self)@),
        ensures
            is_nth_filled(old(self)@, n as int, index as int),
            index == nth_filled(old(self)@, n as int),
            final(self)@ == old(self)@.update(index as int, 0),
    {
        proof {
            use_type_invariant(&*self);
            self.lemma_is_grid();
            assert(self@.take(0) =~= Seq::<u8>::empty());
            vstd::seq_lib::to_multiset_len(self@.take(0));
            vstd::multiset::axiom_count_le_len(self@.take(0).to_multiset(), 0u8);
        }
        let mut seen: usize = 0;
        let mut index: usize = 0;
        while index < 81
            invariant
                index <= 81,
                self@ == old(self)@,
                self@.len() == 81,
                n < hint_count(self@),
                seen == hint_count(self@.take(index as int)),
                seen <= n,
            decreases 81 - index,
        {
            proof {
                lemma_hint_count_step(self@, index as int);
                assert(index / 9 * 9 + index % 9 == index);
            }
            if self.cell(index / 9, index % 9) != 0 {
                if seen == n {
                    proof {
                        assert(is_nth_filled(self@, n as int, index as int));
                        lemma_nth_filled_unique(
                            self@,
                            n as int,
                            index as int,
                            nth_filled(self@, n as int),
                        );
                    }
                    self.set_cell(index / 9, index % 9, 0);
                    return index;
                }
                seen += 1;
            }
            index += 1;
        }
        proof {
            assert(self@.take(81) =~= self@);
        }
        vstd::pervasive::unreached()
    }
}

/// Empties `count` filled cells, each picked at random among the cells that
/// are still filled: the generator draws a number below their count, and the
/// filled cell with that many filled cells before it is emptied.
pub fn clear_random_cells(board: &mut Board, rng: &mut ChaCha8Rng, count: usize)
    requires
        count <= hint_count(old(board)@),
    ensures
        final(board)@ == randomly_cleared(old(board)@, *old(rng), count as nat),
        *final(rng) == after_clearing(old(board)@, *old(rng), count as nat),
        only_emptied(old(board)@, final(board)@),
        hint_count(final(board)@) == hint_count(old(board)@) - count,
{
    let ghost start = *rng;
    let mut filled = board.count_hints();
    let mut cleared: usize = 0;
    while cleared < count
        invariant
            cleared <= count,
            count <= hint_count(old(board)@),
            filled == hint_count(board@),
            filled <= 81,
            only_emptied(old(board)@, board@),
            hint_count(board@) == hint_count(old(board)@) - cleared,
            randomly_cleared(board@, *rng, (count - cleared) as nat) == randomly_cleared(
                old(board)@,
                start,
                count as nat,
            ),
            after_clearing(board@, *rng, (count - cleared) as nat) == after_clearing(
                old(board)@,
                start,
                count as nat,
            ),
        decreases count - cleared,
    {
        let ghost before = board@;
        let ghost state = *rng;
        let pick = random_in_range(rng, 0, filled as i32);
        let index = board.clear_nth_filled(pick as usize);
        proof {
            lemma_hint_count_cleared(before, index as int);
            assert(filled as i32 == hint_count(before) as i32);
            assert(randomly_cleared(before, state, (count - cleared) as nat) == randomly_cleared(
                board@,
                *rng,
                (count - cleared - 1) as nat,
            ));
            assert(after_clearing(before, state, (count - cleared) as nat) == after_clearing(
                board@,
                *rng,
                (count - cleared - 1) as nat,
            ));
        }
        filled -= 1;
        cleared += 1;
    }
}

/// Takes a completed board and randomly removes cells from it. The number of
/// hints to leave is drawn from `minimum_hints..maximum_hints`, and cells are
/// emptied until 81 less that many have gone, or until none is left to
/// empty. Every random decision is drawn from one generator seeded with
/// `seed`, so that the puzzle is fixed by the board, the seed and the bounds.
/// Answers with the number of hints that remain.
pub fn remove_board_cells(
    board: &mut Board,
    seed: u64,
    minimum_hints: i32,
    maximum_hints: i32,
) -> (hints: i32)
    requires
        minimum_hints < maximum_hints,
    ensures
        final(board)@ == puzzle_from(old(board)@, seed, minimum_hints, maximum_hints),
        minimum_hints <= drawn_hints(seed, minimum_hints, maximum_hints) < maximum_hints,
        only_emptied(old(board)@, final(board)@),
        hints == hint_count(final(board)@),
        hint_count(final(board)@) == hint_count(old(board)@) - cells_to_clear(
            hint_count(old(board)@),
            drawn_hints(seed, minimum_hints, maximum_hints) as int,
        ),
        is_complete(old(board)@) && 0 <= minimum_hints && maximum_hints <= 82 ==> {
            &&& hints == drawn_hints(seed, minimum_hints, maximum_hints)
            &&& minimum_hints <= hints < maximum_hints
            &&& 81 - maximum_hints < 81 - hints <= 81 - minimum_hints
        },
{
    let mut rng = seeded_generator(seed);
    let drawn = random_in_range(&mut rng, minimum_hints, maximum_hints);
    let filled = board.count_hints();
    let surplus: i64 = 81 - (drawn as i64);
    let count: usize = if surplus <= 0 {
        0
    } else if surplus >= filled as i64 {
        filled
    } else {
        surplus as usize
    };
    proof {
        assert(count == cells_to_clear(hint_count(board@), drawn as int));
        if is_complete(board@) {
            use_type_invariant(&*board);
            board.lemma_is_grid();
            lemma_complete_hint_count(board@);
        }
    }
    clear_random_cells(board, &mut rng, count);
    (filled - count) as i32
}

} // verus!
