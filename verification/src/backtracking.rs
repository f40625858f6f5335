//! Backtracking: taking back the latest move and deciding its cell anew.

use vstd::prelude::*;
use rand_chacha::ChaCha8Rng;
use crate::board::{is_complete, Board};
use crate::entropy::{candidates, entropy, is_candidate, is_least_entropy_cell, lemma_candidates};
use crate::moves::{history, touched_from, touches, without_moves, BoardMove, MoveModel};
use crate::random::{after_choice, choose_index, chosen_index};

verus! {

/// Some empty cell has no candidate left.
pub open spec fn is_stuck(cells: Seq<u8>) -> bool {
    exists|j: int| 0 <= j < 81 && cells[j] == 0 && #[trigger] entropy(cells, j) == 0
}

/// A cell is still empty, and every empty cell has a candidate.
pub open spec fn is_open(cells: Seq<u8>) -> bool {
    !is_complete(cells) && !is_stuck(cells)
}

/// The test that `substitutes` filters by.
pub open spec fn substitute_test(cells: Seq<u8>, m: MoveModel) -> spec_fn(u8) -> bool {
    |value: u8| value != m.value && is_open(cells.update(m.cell, value))
}

/// The digits that may replace the digit of a move that was taken back: the
/// candidates of its cell, less the digit that failed and less those that
/// would complete the board or leave a cell without a candidate at once.
pub open spec fn substitutes(cells: Seq<u8>, m: MoveModel) -> Seq<u8> {
    candidates(cells, m.cell / 9, m.cell % 9).filter(substitute_test(cells, m))
}

/// No move from `level` on has a substitute, each looked at with the later
/// moves taken back.
pub open spec fn exhausted_from(cells: Seq<u8>, moves: Seq<MoveModel>, level: int) -> bool {
    forall|k: int|
        level <= k < moves.len() ==> (#[trigger] substitutes(
            without_moves(cells, moves, k),
            moves[k],
        )).len() == 0
}

/// The move at `level` was taken back, together with all later ones, and
/// decided anew with `value`.
pub open spec fn redecided_at(
    cells: Seq<u8>,
    moves: Seq<MoveModel>,
    level: int,
    value: u8,
    end_cells: Seq<u8>,
    end_moves: Seq<MoveModel>,
) -> bool {
    let cleared = without_moves(cells, moves, level);
    &&& 0 <= level < moves.len()
    &&& substitutes(cleared, moves[level]).contains(value)
    &&& end_cells == cleared.update(moves[level].cell, value)
    &&& end_moves == moves.take(level).push(
        MoveModel { cell: moves[level].cell, value, cascades: Seq::empty() },
    )
}

/// The state of the generator once the moves from `level` on have been
/// looked at, the latest first: for each of them one choice is made among its
/// substitutes, from state `rng` on.
pub open spec fn generator_past(
    cells: Seq<u8>,
    moves: Seq<MoveModel>,
    rng: ChaCha8Rng,
    level: int,
) -> ChaCha8Rng
    decreases moves.len() - level,
{
    if level >= moves.len() {
        rng
    } else {
        after_choice(
            substitutes(without_moves(cells, moves, level), moves[level]).len() as usize,
            generator_past(cells, moves, rng, level + 1),
        )
    }
}

/// `value` is the substitute that the generator chooses for the move at
/// `level`, in the state that the later moves left it in.
pub open spec fn picked_at(
    cells: Seq<u8>,
    moves: Seq<MoveModel>,
    rng: ChaCha8Rng,
    level: int,
    value: u8,
) -> bool {
    let options = substitutes(without_moves(cells, moves, level), moves[level]);
    chosen_index(options.len() as usize, generator_past(cells, moves, rng, level + 1))
        matches Some(pick) && pick < options.len() && options[pick as int] == value
}

/// A backtracking that succeeds at `level`: no later move has a substitute,
/// the move at `level` is decided anew with the substitute that the
/// generator chooses, and the generator is left as that choice leaves it.
pub open spec fn backtracked_to(
    cells: Seq<u8>,
    moves: Seq<MoveModel>,
    rng: ChaCha8Rng,
    level: int,
    value: u8,
    end_cells: Seq<u8>,
    end_moves: Seq<MoveModel>,
    end_rng: ChaCha8Rng,
) -> bool {
    &&& redecided_at(cells, moves, level, value, end_cells, end_moves)
    &&& exhausted_from(cells, moves, level + 1)
    &&& picked_at(cells, moves, rng, level, value)
    &&& end_rng == generator_past(cells, moves, rng, level)
}

/// What the selector's answer tells of a board: it is open exactly when the
/// selected cell has a candidate.
pub proof fn lemma_selected(cells: Seq<u8>, index: int)
    requires
        cells.len() == 81,
        is_least_entropy_cell(cells, index),
    ensures
        !is_complete(cells),
        is_open(cells) <==> entropy(cells, index) > 0,
{
    assert(cells[index] == 0);
    if entropy(cells, index) > 0 {
        assert forall|j: int| 0 <= j < 81 && cells[j] == 0 implies #[trigger] entropy(cells, j)
            != 0 by {}
    }
}

/// A substitute is a candidate of the cell, differs from the digit that
/// failed, and leaves the board open.
pub proof fn lemma_substitute(cells: Seq<u8>, m: MoveModel, value: u8)
    requires
        substitutes(cells, m).contains(value),
    ensures
        is_candidate(cells, m.cell / 9, m.cell % 9, value),
        value != m.value,
        is_open(cells.update(m.cell, value)),
{
    let options = candidates(cells, m.cell / 9, m.cell % 9);
    let test = substitute_test(cells, m);
    let k = choose|k: int| 0 <= k < options.filter(test).len() && options.filter(test)[k] == value;
    options.lemma_filter_pred(test, k);
    options.lemma_filter_contains_rev(test, value);
    lemma_candidates(cells, m.cell / 9, m.cell % 9);
}

impl Board {
    /// The digits that may replace the digit of a move that was just taken
    /// back, in ascending order: each candidate of its cell but the digit that
    /// failed is written into a copy of the board, and kept if the selector
    /// then finds an empty cell that has a candidate.
    pub fn viable_substitutes(&self, last_move: &BoardMove) -> (values: Vec<u8>)
        requires
            self@[last_move@.cell] == 0,
        ensures
            values@ == substitutes(self@, last_move@),
    {
        proof {
            use_type_invariant(self);
            self.lemma_is_grid();
        }
        let position = last_move.position();
        let row = position[0];
        let col = position[1];
        let failed = last_move.new_value();
        let ghost m = last_move@;
        let ghost test = substitute_test(self@, m);
        assert(m.cell == row * 9 + col && m.cell / 9 == row && m.cell % 9 == col);
        let options = self.calculate_entropy_at_cell(row, col).unwrap();
        proof {
            lemma_candidates(self@, row as int, col as int);
            reveal(Seq::filter);
            assert(options@.take(0) =~= Seq::<u8>::empty());
        }
        let mut values: Vec<u8> = Vec::new();
        let mut k: usize = 0;
        while k < options.len()
            invariant
                k <= options.len(),
                row < 9,
                col < 9,
                m.cell == row * 9 + col,
                m.value == failed,
                test == substitute_test(self@, m),
                self@.len() == 81,
                options@ == candidates(self@, row as int, col as int),
                forall|i: int|
                    0 <= i < options@.len() ==> is_candidate(
                        self@,
                        row as int,
                        col as int,
                        #[trigger] options@[i],
                    ),
                values@ == options@.take(k as int).filter(test),
            decreases options.len() - k,
        {
            let value = options[k];
            assert(is_candidate(self@, row as int, col as int, options@[k as int]));
            let ghost after = self@.update(m.cell, value);
            let mut keep = false;
            if value != failed {
                let trial = self.with_cell(row, col, value);
                if let Some(((next_row, next_col), next_options)) = trial.find_least_entropy() {
                    proof {
                        lemma_selected(after, next_row * 9 + next_col);
                    }
                    keep = next_options.len() > 0;
                }
            }
            assert(keep == test(value));
            proof {
                assert(options@.take(k + 1) =~= options@.take(k as int).push(value));
                options@.take(k as int).lemma_filter_push(value, test);
            }
            if keep {
                values.push(value);
            }
            k += 1;
        }
        assert(options@.take(options@.len() as int) =~= options@);
        values
    }

    /// Decides anew the cell of a move that was taken back: writes
    /// `substitute` into it, records the new move at the end of the history,
    /// and answers with the cell that the selector finds next.
    pub fn redecide(
        &mut self,
        previous_moves: &mut Vec<BoardMove>,
        undone: &BoardMove,
        substitute: u8,
    ) -> (next: ((usize, usize), Vec<u8>))
        requires
            substitutes(old(self)@, undone@).contains(substitute),
        ensures
            final(self)@ == old(self)@.update(undone@.cell, substitute),
            history(final(previous_moves)@) == history(old(previous_moves)@).push(
                MoveModel { cell: undone@.cell, value: substitute, cascades: Seq::empty() },
            ),
            next.0.0 < 9,
            next.0.1 < 9,
            is_least_entropy_cell(final(self)@, next.0.0 * 9 + next.0.1),
            next.1@ == candidates(final(self)@, next.0.0 as int, next.0.1 as int),
            next.1@.len() > 0,
    {
        proof {
            use_type_invariant(&*self);
            self.lemma_is_grid();
            lemma_substitute(self@, undone@, substitute);
        }
        let position = undone.position();
        self.set_cell(position[0], position[1], substitute);
        let new_move = BoardMove::new(position, substitute, Vec::new());
        proof {
            assert(new_move@.cascades =~= Seq::<int>::empty());
            assert(history(previous_moves@.push(new_move)) =~= history(previous_moves@).push(
                new_move@,
            ));
        }
        previous_moves.push(new_move);
        match self.find_least_entropy() {
            Some(next) => {
                proof {
                    lemma_selected(self@, next.0.0 * 9 + next.0.1);
                }
                next
            },
            None => vstd::pervasive::unreached(),
        }
    }

    /// Backtracking moves when a mistake is made. Takes back the latest move,
    /// re-evaluates the entropy at its cell, excluding the value that it took
    /// the first time and the values that lead to an invalid board state at
    /// once, and decides the cell anew with one of the remaining values, chosen
    /// by the generator. A move without such a value is dropped and the move
    /// before it is taken back in turn. Answers with the cell that the selector
    /// finds after the new decision, or with `None` when no move is left.
    pub fn backtrack(
        &mut self,
        previous_moves: &mut Vec<BoardMove>,
        rng: &mut ChaCha8Rng,
    ) -> (next: Option<((usize, usize), Vec<u8>)>)
        ensures
            next is None <==> exhausted_from(old(self)@, history(old(previous_moves)@), 0),
            next is None ==> {
                &&& final(previous_moves)@.len() == 0
                &&& final(self)@ == without_moves(old(self)@, history(old(previous_moves)@), 0)
                &&& *final(rng) == generator_past(
                    old(self)@,
                    history(old(previous_moves)@),
                    *old(rng),
                    0,
                )
            },
            next matches Some(((row, col), options)) ==> {
                &&& exists|level: int, value: u8|
                    #[trigger] backtracked_to(
                        old(self)@,
                        history(old(previous_moves)@),
                        *old(rng),
                        level,
                        value,
                        final(self)@,
                        history(final(previous_moves)@),
                        *final(rng),
                    )
                &&& row < 9
                &&& col < 9
                &&& is_least_entropy_cell(final(self)@, row * 9 + col)
                &&& options@ == candidates(final(self)@, row as int, col as int)
                &&& options@.len() > 0
            },
    {
        let ghost start = self@;
        let ghost moves = history(previous_moves@);
        let ghost start_rng = *rng;
        proof {
            use_type_invariant(&*self);
            self.lemma_is_grid();
            assert(moves.take(moves.len() as int) =~= moves);
            assert(without_moves(start, moves, moves.len() as int) =~= start);
        }
        while previous_moves.len() > 0
            invariant
                start == old(self)@,
                moves == history(old(previous_moves)@),
                start_rng == *old(rng),
                *rng == generator_past(start, moves, start_rng, previous_moves@.len() as int),
                start.len() == 81,
                previous_moves@.len() <= moves.len(),
                history(previous_moves@) == moves.take(previous_moves@.len() as int),
                self@ == without_moves(start, moves, previous_moves@.len() as int),
                exhausted_from(start, moves, previous_moves@.len() as int),
            decreases previous_moves@.len(),
        {
            let ghost before = previous_moves@;
            let last_move = previous_moves.pop().unwrap();
            let ghost level = previous_moves@.len() as int;
            proof {
                assert(history(before)[level] == last_move@);
                assert(moves[level] == last_move@);
                assert(history(previous_moves@) =~= moves.take(level));
            }
            self.undo_move(&last_move);
            proof {
                let cleared = without_moves(start, moves, level);
                assert forall|i: int| 0 <= i < 81 implies self@[i] == cleared[i] by {
                    if touched_from(moves, level, i) {
                        let k = choose|k: int|
                            level <= k < moves.len() && touches(#[trigger] moves[k], i);
                        if k > level {
                            assert(touched_from(moves, level + 1, i));
                        }
                    }
                    if touched_from(moves, level + 1, i) {
                        let k = choose|k: int|
                            level + 1 <= k < moves.len() && touches(#[trigger] moves[k], i);
                        assert(touched_from(moves, level, i));
                    }
                    if touches(moves[level], i) {
                        assert(touched_from(moves, level, i));
                    }
                }
                assert(self@ =~= cleared);
                use_type_invariant(&last_move);
                last_move.lemma_on_board();
                assert(touches(last_move@, last_move@.cell));
            }
            let values = self.viable_substitutes(&last_move);
            match choose_index(rng, values.len()) {
                Some(pick) => {
                    let value = values[pick];
                    assert(substitutes(self@, last_move@).contains(value));
                    let next = self.redecide(previous_moves, &last_move, value);
                    proof {
                        assert(substitutes(without_moves(start, moves, level), moves[level]).len()
                            > 0);
                        assert(redecided_at(
                            start,
                            moves,
                            level,
                            value,
                            self@,
                            history(previous_moves@),
                        ));
                        assert(picked_at(start, moves, start_rng, level, value));
                        assert(backtracked_to(
                            start,
                            moves,
                            start_rng,
                            level,
                            value,
                            self@,
                            history(previous_moves@),
                            *rng,
                        ));
                    }
                    return Some(next);
                },
                None => {},
            }
        }
        None
    }
}

} // verus!
