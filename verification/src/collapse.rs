//! Collapse: writing a digit into the cell that the selector found.

use vstd::prelude::*;
use crate::backtracking::{is_open, lemma_selected};
use crate::board::{is_complete, Board};
use crate::entropy::{
    candidates, entropy, is_candidate, is_least_entropy_cell, least_entropy, least_entropy_cell,
    lemma_candidates, lemma_fill_leaves_candidates, lemma_least_entropy_cell_unique,
};
use crate::moves::{history, BoardMove, MoveModel};

verus! {

/// The fewest candidates that an empty cell has once `value` is written at `index`.
pub open spec fn outlook(cells: Seq<u8>, index: int, value: u8) -> nat {
    least_entropy(cells.update(index, value))
}

/// `options[pick]` is the greedy choice for the cell at `index`: among the
/// options that leave the board open it has the smallest outlook, and it is
/// the first of those that have it.
pub open spec fn is_greedy_choice(cells: Seq<u8>, index: int, options: Seq<u8>, pick: int) -> bool {
    &&& 0 <= pick < options.len()
    &&& is_open(cells.update(index, options[pick]))
    &&& forall|q: int|
        0 <= q < options.len() && is_open(cells.update(index, #[trigger] options[q])) ==> outlook(
            cells,
            index,
            options[pick],
        ) <= outlook(cells, index, options[q])
    &&& forall|q: int|
        0 <= q < pick && is_open(cells.update(index, #[trigger] options[q])) ==> outlook(
            cells,
            index,
            options[pick],
        ) < outlook(cells, index, options[q])
}

/// The history after a forced fill of the cell at `index`: the latest move,
/// where there is one, has the cell added to its cascades.
pub open spec fn with_cascade(moves: Seq<MoveModel>, index: int) -> Seq<MoveModel> {
    if moves.len() == 0 {
        moves
    } else {
        moves.update(
            moves.len() - 1,
            MoveModel {
                cell: moves.last().cell,
                value: moves.last().value,
                cascades: moves.last().cascades.push(index),
            },
        )
    }
}

/// One collapse of the cell at `index`, whose candidates are `options`.
/// A single candidate is written and counted as a consequence of the latest
/// move. Where the cell is the last empty one, its first candidate is written
/// and the history stays. Otherwise the greedy choice is written and recorded
/// as a new move.
pub open spec fn collapsed(
    cells: Seq<u8>,
    moves: Seq<MoveModel>,
    index: int,
    options: Seq<u8>,
    end_cells: Seq<u8>,
    end_moves: Seq<MoveModel>,
) -> bool {
    if options.len() == 1 {
        &&& end_cells == cells.update(index, options[0])
        &&& end_moves == with_cascade(moves, index)
    } else if is_complete(cells.update(index, options[0])) {
        &&& end_cells == cells.update(index, options[0])
        &&& end_moves == moves
    } else {
        exists|pick: int|
            {
                &&& #[trigger] is_greedy_choice(cells, index, options, pick)
                &&& end_cells == cells.update(index, options[pick])
                &&& end_moves == moves.push(
                    MoveModel { cell: index, value: options[pick], cascades: Seq::empty() },
                )
            }
    }
}

impl Board {
    /// Collapses the cell at (`row`, `col`) that the selector found, with its
    /// candidates `options`. A single candidate is written and noted as a
    /// cascade of the latest move. Of several, each is written into a copy of
    /// the board and the selector is run on it: those that leave a cell without
    /// a candidate are discarded, and of the others the one that leaves the
    /// fewest candidates to the next cell is written and recorded as a new
    /// move. Answers with the cell that the selector finds next, or with `None`
    /// when the board is complete.
    pub fn collapse(
        &mut self,
        previous_moves: &mut Vec<BoardMove>,
        row: usize,
        col: usize,
        options: &Vec<u8>,
    ) -> (next: Option<((usize, usize), Vec<u8>)>)
        requires
            row < 9,
            col < 9,
            is_least_entropy_cell(old(self)@, row * 9 + col),
            options@ == candidates(old(self)@, row as int, col as int),
            options@.len() > 0,
        ensures
            collapsed(
                old(self)@,
                history(old(previous_moves)@),
                row * 9 + col,
                options@,
                final(self)@,
                history(final(previous_moves)@),
            ),
            next is None <==> is_complete(final(self)@),
            next matches Some(((next_row, next_col), next_options)) ==> {
                &&& next_row < 9
                &&& next_col < 9
                &&& is_least_entropy_cell(final(self)@, next_row * 9 + next_col)
                &&& next_options@ == candidates(final(self)@, next_row as int, next_col as int)
            },
    {
        let ghost start = self@;
        let ghost moves = history(previous_moves@);
        let ghost index: int = row * 9 + col;
        proof {
            use_type_invariant(&*self);
            self.lemma_is_grid();
            lemma_candidates(start, row as int, col as int);
            assert(index / 9 == row && index % 9 == col);
        }
        if options.len() == 1 {
            assert(is_candidate(start, row as int, col as int, options@[0]));
            self.set_cell(row, col, options[0]);
            if previous_moves.len() > 0 {
                let ghost before = previous_moves@;
                let latest = previous_moves.pop().unwrap();
                let ghost held = latest@;
                proof {
                    assert(history(before)[before.len() - 1] == held);
                }
                let last = latest.with_forced([row, col]);
                proof {
                    assert(history(previous_moves@.push(last)) =~= with_cascade(moves, index));
                }
                previous_moves.push(last);
            }
            return self.find_least_entropy();
        }
        let mut best: Option<(usize, ((usize, usize), Vec<u8>))> = None;
        let mut k: usize = 0;
        while k < options.len()
            invariant
                k <= options.len(),
                options.len() >= 2,
                start == old(self)@,
                moves == history(old(previous_moves)@),
                previous_moves@ == old(previous_moves)@,
                self@ == start,
                start.len() == 81,
                row < 9,
                col < 9,
                index == row * 9 + col,
                is_least_entropy_cell(start, index),
                options@ == candidates(start, row as int, col as int),
                entropy(start, index) == options@.len(),
                forall|i: int|
                    0 <= i < options@.len() ==> is_candidate(
                        start,
                        row as int,
                        col as int,
                        #[trigger] options@[i],
                    ),
                forall|q: int|
                    0 <= q < k ==> !is_complete(start.update(index, #[trigger] options@[q])),
                k > 0 ==> best is Some,
                best matches Some((pick, found)) ==> {
                    &&& pick < k
                    &&& is_open(start.update(index, options@[pick as int]))
                    &&& found.0.0 < 9
                    &&& found.0.1 < 9
                    &&& is_least_entropy_cell(
                        start.update(index, options@[pick as int]),
                        found.0.0 * 9 + found.0.1,
                    )
                    &&& found.1@ == candidates(
                        start.update(index, options@[pick as int]),
                        found.0.0 as int,
                        found.0.1 as int,
                    )
                    &&& found.1@.len() == outlook(start, index, options@[pick as int])
                    &&& forall|q: int|
                        0 <= q < k && is_open(start.update(index, #[trigger] options@[q]))
                            ==> found.1@.len() <= outlook(start, index, options@[q])
                    &&& forall|q: int|
                        0 <= q < pick && is_open(start.update(index, #[trigger] options@[q]))
                            ==> found.1@.len() < outlook(start, index, options@[q])
                },
            decreases options.len() - k,
        {
            let value = options[k];
            let ghost after = start.update(index, value);
            assert(is_candidate(start, row as int, col as int, options@[k as int]));
            let trial = self.with_cell(row, col, value);
            match trial.find_least_entropy() {
                None => {
                    self.set_cell(row, col, value);
                    proof {
                        let first = start.update(index, options@[0]);
                        assert(is_candidate(start, row as int, col as int, options@[0]));
                        assert forall|i: int| 0 <= i < first.len() implies #[trigger] first[i]
                            != 0 by {
                            assert(after[i] != 0);
                        }
                        assert(is_complete(first));
                        assert(k == 0);
                    }
                    return None;
                },
                Some(found) => {
                    proof {
                        let found_index = found.0.0 * 9 + found.0.1;
                        assert(found_index / 9 == found.0.0 && found_index % 9 == found.0.1);
                        assert(is_least_entropy_cell(after, least_entropy_cell(after)));
                        lemma_least_entropy_cell_unique(
                            after,
                            found_index,
                            least_entropy_cell(after),
                        );
                        assert(found.1@.len() == outlook(start, index, value));
                        assert forall|j: int|
                            0 <= j < 81 && after[j] == 0 implies #[trigger] entropy(after, j)
                            != 0 by {
                            lemma_fill_leaves_candidates(start, index, value, j);
                        }
                        assert(is_open(after));
                        lemma_selected(after, found_index);
                    }
                    if found.1.len() > 0 {
                        let better = match &best {
                            None => true,
                            Some(held) => found.1.len() < held.1.1.len(),
                        };
                        if better {
                            best = Some((k, found));
                        }
                    }
                },
            }
            k += 1;
        }
        match best {
            Some((pick, found)) => {
                let value = options[pick];
                assert(is_candidate(start, row as int, col as int, options@[pick as int]));
                self.set_cell(row, col, value);
                let new_move = BoardMove::new([row, col], value, Vec::new());
                proof {
                    assert(new_move@.cascades =~= Seq::<int>::empty());
                    assert(history(previous_moves@.push(new_move)) =~= moves.push(new_move@));
                    assert(is_greedy_choice(start, index, options@, pick as int));
                    assert(!is_complete(start.update(index, options@[0])));
                }
                previous_moves.push(new_move);
                Some(found)
            },
            None => vstd::pervasive::unreached(),
        }
    }
}

} // verus!
