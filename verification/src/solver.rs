//! The solver: collapse the cell with the least entropy, and when a cell is
//! left without a candidate, rewind the latest decision and try another digit.

use vstd::prelude::*;
use rand_chacha::ChaCha8Rng;
use crate::backtracking::{
    backtracked_to, exhausted_from, generator_past, lemma_substitute, redecided_at,
};
use crate::board::{is_complete, is_valid, Board};
use crate::collapse::{collapsed, is_greedy_choice};
use crate::entropy::{
    candidates, entropy, is_candidate, is_least_entropy_cell, least_entropy_cell,
    lemma_candidates, lemma_least_entropy_cell_unique,
};
use crate::moves::{history, touched_from, touches, without_moves, BoardMove, MoveModel};
use crate::rules::{lemma_emptying_keeps_valid, lemma_fill_keeps_valid};

verus! {

/// Why the solver gave up.
#[derive(Debug, Clone, Copy, PartialEq, Eq, Structural)]
pub enum SolveError {
    /// A cell was left without a candidate and no move was left to take back.
    Unsolvable,
    /// The step limit was reached with cells still empty.
    StepLimit,
}

/// Every cell that a move of the history would empty is a cell of the board
/// that `puzzle` leaves empty.
pub open spec fn history_within(moves: Seq<MoveModel>, puzzle: Seq<u8>) -> bool {
    forall|k: int, i: int|
        0 <= k < moves.len() && #[trigger] touches(moves[k], i) ==> 0 <= i < 81 && puzzle[i] == 0
}

/// Every filled cell of `puzzle` holds the same digit in `cells`.
pub open spec fn extends(cells: Seq<u8>, puzzle: Seq<u8>) -> bool {
    forall|i: int| 0 <= i < 81 && puzzle[i] != 0 ==> #[trigger] cells[i] == puzzle[i]
}

/// A state of the solver: the cells of the board, the moves that can still
/// be taken back, oldest first, and the state of the generator.
pub struct SolverState {
    pub cells: Seq<u8>,
    pub moves: Seq<MoveModel>,
    pub rng: ChaCha8Rng,
}

/// One step of the solver. On a board with an empty cell the selector picks
/// its cell. Where that cell has no candidate the step is a backtracking:
/// the latest move that has a substitute is decided anew with the one that
/// the generator chooses. Otherwise the step is the collapse of that cell,
/// which leaves the generator as it is.
pub open spec fn is_step(before: SolverState, after: SolverState) -> bool {
    let index = least_entropy_cell(before.cells);
    &&& !is_complete(before.cells)
    &&& if entropy(before.cells, index) == 0 {
        exists|level: int, value: u8|
            #[trigger] backtracked_to(
                before.cells,
                before.moves,
                before.rng,
                level,
                value,
                after.cells,
                after.moves,
                after.rng,
            )
    } else {
        &&& collapsed(
            before.cells,
            before.moves,
            index,
            candidates(before.cells, index / 9, index % 9),
            after.cells,
            after.moves,
        )
        &&& after.rng == before.rng
    }
}

/// A run of the solver on `puzzle` with a generator in state `rng`: it
/// starts from the puzzle without a move, and each state follows from the
/// one before it by one step.
pub open spec fn is_run(trace: Seq<SolverState>, puzzle: Seq<u8>, rng: ChaCha8Rng) -> bool {
    &&& trace.len() >= 1
    &&& trace[0] == (SolverState { cells: puzzle, moves: Seq::empty(), rng })
    &&& forall|k: int| 0 <= k < trace.len() - 1 ==> is_step(#[trigger] trace[k], trace[k + 1])
}

/// The solver cannot go on from this state: the cell that the selector picks
/// has no candidate, and no move has a substitute.
pub open spec fn is_dead_end(state: SolverState) -> bool {
    &&& !is_complete(state.cells)
    &&& entropy(state.cells, least_entropy_cell(state.cells)) == 0
    &&& exhausted_from(state.cells, state.moves, 0)
}

/// `result`, `end_cells` and `end_rng` are what the run of the solver on
/// `puzzle`, with a generator in state `rng`, leads to within `max_steps`
/// steps: a run that ends on a complete board for `Ok`; a run of `max_steps`
/// steps that ends on an incomplete board for the step limit; and for an
/// unsolvable puzzle a run to a dead end, with every move of its last state
/// looked at and taken back.
pub open spec fn is_outcome(
    puzzle: Seq<u8>,
    rng: ChaCha8Rng,
    max_steps: int,
    result: Result<(), SolveError>,
    end_cells: Seq<u8>,
    end_rng: ChaCha8Rng,
) -> bool {
    exists|trace: Seq<SolverState>|
        {
            &&& #[trigger] is_run(trace, puzzle, rng)
            &&& trace.len() <= max_steps + 1
            &&& match result {
                Ok(_) => {
                    &&& is_complete(trace.last().cells)
                    &&& end_cells == trace.last().cells
                    &&& end_rng == trace.last().rng
                },
                Err(SolveError::StepLimit) => {
                    &&& trace.len() == max_steps + 1
                    &&& !is_complete(trace.last().cells)
                    &&& end_cells == trace.last().cells
                    &&& end_rng == trace.last().rng
                },
                Err(SolveError::Unsolvable) => {
                    &&& is_dead_end(trace.last())
                    &&& end_cells == without_moves(trace.last().cells, trace.last().moves, 0)
                    &&& end_rng == generator_past(
                        trace.last().cells,
                        trace.last().moves,
                        trace.last().rng,
                        0,
                    )
                },
            }
        }
}

/// A backtracking from a board whose selected cell has no candidate is a step.
pub proof fn lemma_step_by_backtracking(
    before: SolverState,
    index: int,
    level: int,
    value: u8,
    after: SolverState,
)
    requires
        before.cells.len() == 81,
        is_least_entropy_cell(before.cells, index),
        entropy(before.cells, index) == 0,
        backtracked_to(
            before.cells,
            before.moves,
            before.rng,
            level,
            value,
            after.cells,
            after.moves,
            after.rng,
        ),
    ensures
        is_step(before, after),
{
    assert(is_least_entropy_cell(before.cells, least_entropy_cell(before.cells)));
    lemma_least_entropy_cell_unique(before.cells, index, least_entropy_cell(before.cells));
    assert(before.cells[index] == 0);
}

/// The collapse of the selected cell, where it has a candidate, is a step.
pub proof fn lemma_step_by_collapse(before: SolverState, index: int, after: SolverState)
    requires
        before.cells.len() == 81,
        is_least_entropy_cell(before.cells, index),
        entropy(before.cells, index) > 0,
        collapsed(
            before.cells,
            before.moves,
            index,
            candidates(before.cells, index / 9, index % 9),
            after.cells,
            after.moves,
        ),
        after.rng == before.rng,
    ensures
        is_step(before, after),
{
    assert(is_least_entropy_cell(before.cells, least_entropy_cell(before.cells)));
    lemma_least_entropy_cell_unique(before.cells, index, least_entropy_cell(before.cells));
    assert(before.cells[index] == 0);
}

/// A run followed by one more step is a run.
pub proof fn lemma_run_goes_on(
    trace: Seq<SolverState>,
    puzzle: Seq<u8>,
    rng: ChaCha8Rng,
    after: SolverState,
)
    requires
        is_run(trace, puzzle, rng),
        is_step(trace.last(), after),
    ensures
        is_run(trace.push(after), puzzle, rng),
{
    let longer = trace.push(after);
    assert forall|k: int| 0 <= k < longer.len() - 1 implies is_step(
        #[trigger] longer[k],
        longer[k + 1],
    ) by {
        if k < trace.len() - 1 {
            assert(is_step(trace[k], trace[k + 1]));
            assert(longer[k] == trace[k] && longer[k + 1] == trace[k + 1]);
        }
    }
}

/// Backtracking that ran out of moves leaves the puzzle's digits in place,
/// breaks no rule, and leaves a cell empty.
pub proof fn lemma_backtracked_out(
    puzzle: Seq<u8>,
    cells: Seq<u8>,
    moves: Seq<MoveModel>,
    end_cells: Seq<u8>,
    empty: int,
)
    requires
        puzzle.len() == 81,
        cells.len() == 81,
        extends(cells, puzzle),
        history_within(moves, puzzle),
        0 <= empty < 81,
        cells[empty] == 0,
        end_cells == without_moves(cells, moves, 0),
    ensures
        extends(end_cells, puzzle),
        is_valid(cells) ==> is_valid(end_cells),
        !is_complete(end_cells),
{
    assert forall|i: int| 0 <= i < 81 && puzzle[i] != 0 implies #[trigger] end_cells[i]
        == puzzle[i] by {
        if touched_from(moves, 0, i) {
            let k = choose|k: int| 0 <= k < moves.len() && touches(#[trigger] moves[k], i);
            assert(puzzle[i] == 0);
        }
    }
    if is_valid(cells) {
        lemma_emptying_keeps_valid(cells, end_cells);
    }
    assert(end_cells[empty] == 0);
}

/// A move decided anew leaves the puzzle's digits in place, breaks no rule,
/// and keeps the history within the cells that the puzzle leaves empty.
pub proof fn lemma_redecided(
    puzzle: Seq<u8>,
    cells: Seq<u8>,
    moves: Seq<MoveModel>,
    level: int,
    value: u8,
    end_cells: Seq<u8>,
    end_moves: Seq<MoveModel>,
)
    requires
        puzzle.len() == 81,
        cells.len() == 81,
        extends(cells, puzzle),
        history_within(moves, puzzle),
        redecided_at(cells, moves, level, value, end_cells, end_moves),
    ensures
        extends(end_cells, puzzle),
        is_valid(cells) ==> is_valid(end_cells),
        history_within(end_moves, puzzle),
        !is_complete(puzzle),
{
    let cleared = without_moves(cells, moves, level);
    let cell = moves[level].cell;
    assert(touches(moves[level], cell));
    assert(0 <= cell < 81 && puzzle[cell] == 0);
    lemma_substitute(cleared, moves[level], value);
    assert forall|i: int| 0 <= i < 81 && puzzle[i] != 0 implies #[trigger] end_cells[i]
        == puzzle[i] by {
        if touched_from(moves, level, i) {
            let k = choose|k: int| level <= k < moves.len() && touches(#[trigger] moves[k], i);
            assert(puzzle[i] == 0);
        }
    }
    if is_valid(cells) {
        lemma_emptying_keeps_valid(cells, cleared);
        lemma_fill_keeps_valid(cleared, cell / 9, cell % 9, value);
        assert(cleared.update((cell / 9) * 9 + cell % 9, value) == end_cells);
    }
    assert forall|k: int, i: int|
        0 <= k < end_moves.len() && #[trigger] touches(end_moves[k], i) implies 0 <= i < 81
        && puzzle[i] == 0 by {
        if k < level {
            assert(end_moves[k] == moves[k]);
            assert(touches(moves[k], i));
        } else {
            assert(end_moves[k].cascades.len() == 0);
            assert(i == cell);
        }
    }
}

/// A collapse leaves the puzzle's digits in place, breaks no rule, and keeps
/// the history within the cells that the puzzle leaves empty.
pub proof fn lemma_collapsed(
    puzzle: Seq<u8>,
    cells: Seq<u8>,
    moves: Seq<MoveModel>,
    index: int,
    options: Seq<u8>,
    end_cells: Seq<u8>,
    end_moves: Seq<MoveModel>,
)
    requires
        puzzle.len() == 81,
        cells.len() == 81,
        0 <= index < 81,
        puzzle[index] == 0,
        extends(cells, puzzle),
        history_within(moves, puzzle),
        options == candidates(cells, index / 9, index % 9),
        options.len() > 0,
        collapsed(cells, moves, index, options, end_cells, end_moves),
    ensures
        extends(end_cells, puzzle),
        is_valid(cells) ==> is_valid(end_cells),
        history_within(end_moves, puzzle),
{
    lemma_candidates(cells, index / 9, index % 9);
    let pick: int = if options.len() == 1 || is_complete(cells.update(index, options[0])) {
        0
    } else {
        choose|pick: int|
            {
                &&& #[trigger] is_greedy_choice(cells, index, options, pick)
                &&& end_cells == cells.update(index, options[pick])
                &&& end_moves == moves.push(
                    MoveModel { cell: index, value: options[pick], cascades: Seq::empty() },
                )
            }
    };
    assert(0 <= pick < options.len());
    assert(end_cells == cells.update(index, options[pick]));
    assert(is_candidate(cells, index / 9, index % 9, options[pick]));
    if is_valid(cells) {
        lemma_fill_keeps_valid(cells, index / 9, index % 9, options[pick]);
        assert(cells.update((index / 9) * 9 + index % 9, options[pick]) == end_cells);
    }
    assert forall|k: int, i: int|
        0 <= k < end_moves.len() && #[trigger] touches(end_moves[k], i) implies 0 <= i < 81
        && puzzle[i] == 0 by {
        if options.len() == 1 {
            if moves.len() > 0 && k == moves.len() - 1 {
                let held = moves[k];
                if i != held.cell && i != index {
                    let q = choose|q: int|
                        0 <= q < end_moves[k].cascades.len() && end_moves[k].cascades[q] == i;
                    assert(held.cascades[q] == i);
                }
                if i != index {
                    assert(touches(held, i));
                }
            } else {
                assert(end_moves[k] == moves[k]);
                assert(touches(moves[k], i));
            }
        } else if is_complete(cells.update(index, options[0])) {
            assert(touches(moves[k], i));
        } else {
            if k < moves.len() {
                assert(end_moves[k] == moves[k]);
                assert(touches(moves[k], i));
            } else {
                assert(end_moves[k].cascades.len() == 0);
                assert(i == index);
            }
        }
    }
}

impl Board {
    /// Solves the sudoku puzzle. Iteratively searches for the cell with least
    /// entropy, promptly collapsing it, and backtracks when a cell is left
    /// without a candidate. Each collapse and each backtracking counts as one
    /// step, and no more than `max_steps` are taken.
    ///
    /// The run is fixed by the puzzle, the state of the generator and the
    /// limit. The digits of the puzzle are never touched, and a board that
    /// broke no rule breaks none afterwards. `Ok` is returned exactly when the
    /// board has been completed; on a complete board nothing is written and
    /// nothing is drawn from the generator.
    pub fn solve_board(&mut self, rng: &mut ChaCha8Rng, max_steps: usize) -> (result: Result<
        (),
        SolveError,
    >)
        ensures
            is_outcome(
                old(self)@,
                *old(rng),
                max_steps as int,
                result,
                final(self)@,
                *final(rng),
            ),
            is_complete(old(self)@) ==> {
                &&& result is Ok
                &&& final(self)@ == old(self)@
                &&& *final(rng) == *old(rng)
            },
            result is Ok <==> is_complete(final(self)@),
            extends(final(self)@, old(self)@),
            is_valid(old(self)@) ==> is_valid(final(self)@),
    {
        let ghost puzzle = self@;
        proof {
            use_type_invariant(&*self);
            self.lemma_is_grid();
        }
        let mut previous_moves: Vec<BoardMove> = Vec::with_capacity(81);
        let mut found = self.find_least_entropy();
        let mut steps: usize = 0;
        let ghost start_rng = *rng;
        let ghost mut trace: Seq<SolverState> = seq![
            SolverState { cells: puzzle, moves: Seq::empty(), rng: start_rng },
        ];
        proof {
            assert(history(previous_moves@) =~= Seq::<MoveModel>::empty());
        }
        while steps < max_steps
            invariant
                steps <= max_steps,
                puzzle == old(self)@,
                start_rng == *old(rng),
                is_run(trace, puzzle, start_rng),
                trace.len() == steps + 1,
                trace.last() == (SolverState {
                    cells: self@,
                    moves: history(previous_moves@),
                    rng: *rng,
                }),
                is_complete(puzzle) ==> *rng == start_rng,
                puzzle.len() == 81,
                self@.len() == 81,
                is_complete(puzzle) ==> self@ == puzzle,
                extends(self@, puzzle),
                is_valid(puzzle) ==> is_valid(self@),
                history_within(history(previous_moves@), puzzle),
                found is None <==> is_complete(self@),
                found matches Some(((row, col), options)) ==> {
                    &&& row < 9
                    &&& col < 9
                    &&& is_least_entropy_cell(self@, row * 9 + col)
                    &&& options@ == candidates(self@, row as int, col as int)
                },
            decreases max_steps - steps,
        {
            let ghost cells = self@;
            let ghost moves = history(previous_moves@);
            let ghost state = *rng;
            match found {
                None => {
                    return Ok(());
                },
                Some(((row, col), options)) => {
                    let ghost index: int = row * 9 + col;
                    proof {
                        assert(cells[index] == 0);
                        assert(puzzle[index] == 0);
                        assert(index / 9 == row && index % 9 == col);
                    }
                    if options.len() == 0 {
                        match self.backtrack(&mut previous_moves, rng) {
                            None => {
                                proof {
                                    lemma_backtracked_out(puzzle, cells, moves, self@, index);
                                    assert(is_least_entropy_cell(
                                        cells,
                                        least_entropy_cell(cells),
                                    ));
                                    lemma_least_entropy_cell_unique(
                                        cells,
                                        index,
                                        least_entropy_cell(cells),
                                    );
                                    assert(is_dead_end(trace.last()));
                                }
                                return Err(SolveError::Unsolvable);
                            },
                            Some(next) => {
                                proof {
                                    let (level, value) = choose|level: int, value: u8|
                                        #[trigger] backtracked_to(
                                            cells,
                                            moves,
                                            state,
                                            level,
                                            value,
                                            self@,
                                            history(previous_moves@),
                                            *rng,
                                        );
                                    lemma_redecided(
                                        puzzle,
                                        cells,
                                        moves,
                                        level,
                                        value,
                                        self@,
                                        history(previous_moves@),
                                    );
                                    use_type_invariant(&*self);
                                    self.lemma_is_grid();
                                    lemma_step_by_backtracking(
                                        trace.last(),
                                        index,
                                        level,
                                        value,
                                        SolverState {
                                            cells: self@,
                                            moves: history(previous_moves@),
                                            rng: *rng,
                                        },
                                    );
                                }
                                found = Some(next);
                            },
                        }
                    } else {
                        found = self.collapse(&mut previous_moves, row, col, &options);
                        proof {
                            lemma_collapsed(
                                puzzle,
                                cells,
                                moves,
                                index,
                                options@,
                                self@,
                                history(previous_moves@),
                            );
                            use_type_invariant(&*self);
                            self.lemma_is_grid();
                            lemma_step_by_collapse(
                                trace.last(),
                                index,
                                SolverState {
                                    cells: self@,
                                    moves: history(previous_moves@),
                                    rng: *rng,
                                },
                            );
                        }
                    }
                },
            }
            proof {
                let after = SolverState {
                    cells: self@,
                    moves: history(previous_moves@),
                    rng: *rng,
                };
                lemma_run_goes_on(trace, puzzle, start_rng, after);
                trace = trace.push(after);
            }
            steps += 1;
        }
        match found {
            None => Ok(()),
            Some(_) => Err(SolveError::StepLimit),
        }
    }
}

} // verus!
