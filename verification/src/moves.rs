//! Moves: the decisions that the solver keeps so that it can take them back.

use vstd::prelude::*;
use crate::board::Board;

verus! {

/// What a move records: the cell that was decided, the digit chosen for it,
/// and the cells that were then forced, each as a linear index.
pub struct MoveModel {
    pub cell: int,
    pub value: u8,
    pub cascades: Seq<int>,
}

/// A decision of the solver, kept so that it can be taken back.
#[derive(Debug)]
pub struct BoardMove {
    position: [usize; 2],
    new_value: u8,
    cascades: Vec<[usize; 2]>,
}

/// The linear index of a (row, column) pair.
pub open spec fn linear(position: [usize; 2]) -> int {
    position[0] * 9 + position[1]
}

impl View for BoardMove {
    type V = MoveModel;

    closed spec fn view(&self) -> MoveModel {
        MoveModel {
            cell: linear(self.position),
            value: self.new_value,
            cascades: self.cascades@.map_values(|p: [usize; 2]| linear(p)),
        }
    }
}

/// The moves of a history, oldest first.
pub open spec fn history(moves: Seq<BoardMove>) -> Seq<MoveModel> {
    moves.map_values(|m: BoardMove| m@)
}

/// Taking the move back empties the cell at `index`.
pub open spec fn touches(m: MoveModel, index: int) -> bool {
    index == m.cell || m.cascades.contains(index)
}

/// Taking back the moves from `level` on empties the cell at `index`.
pub open spec fn touched_from(moves: Seq<MoveModel>, level: int, index: int) -> bool {
    exists|k: int| level <= k < moves.len() && touches(#[trigger] moves[k], index)
}

/// The cells with one move taken back.
pub open spec fn without_move(cells: Seq<u8>, m: MoveModel) -> Seq<u8> {
    Seq::new(cells.len(), |i: int| if touches(m, i) { 0u8 } else { cells[i] })
}

/// The cells with the moves from `level` on taken back.
pub open spec fn without_moves(cells: Seq<u8>, moves: Seq<MoveModel>, level: int) -> Seq<u8> {
    Seq::new(cells.len(), |i: int| if touched_from(moves, level, i) { 0u8 } else { cells[i] })
}

impl BoardMove {
    /// The decided cell and the forced cells lie on the board, and the digit
    /// is one of 1..=9.
    #[verifier::type_invariant]
    pub closed spec fn inv(&self) -> bool {
        &&& self.position[0] < 9
        &&& self.position[1] < 9
        &&& 1 <= self.new_value <= 9
        &&& forall|k: int|
            0 <= k < self.cascades@.len() ==> (#[trigger] self.cascades@[k])[0] < 9
                && self.cascades@[k][1] < 9
    }

    /// Records the decision to write `new_value` at `position` (row, column),
    /// with the cells that were forced by it.
    pub fn new(position: [usize; 2], new_value: u8, cascades: Vec<[usize; 2]>) -> (m: BoardMove)
        requires
            position[0] < 9,
            position[1] < 9,
            1 <= new_value <= 9,
            forall|k: int|
                0 <= k < cascades@.len() ==> (#[trigger] cascades@[k])[0] < 9 && cascades@[k][1]
                    < 9,
        ensures
            m@ == (MoveModel {
                cell: linear(position),
                value: new_value,
                cascades: cascades@.map_values(|p: [usize; 2]| linear(p)),
            }),
    {
        BoardMove { position, new_value, cascades }
    }

    /// What the invariant says of the view: the move stays on the board.
    pub proof fn lemma_on_board(&self)
        requires
            self.inv(),
        ensures
            0 <= self@.cell < 81,
            1 <= self@.value <= 9,
            forall|k: int| 0 <= k < self@.cascades.len() ==> 0 <= #[trigger] self@.cascades[k] < 81,
    {
        assert forall|k: int| 0 <= k < self@.cascades.len() implies 0
            <= #[trigger] self@.cascades[k] < 81 by {
            assert(self.cascades@[k][0] < 9 && self.cascades@[k][1] < 9);
        }
    }

    /// The same move with one more cell that it forced.
    pub fn with_forced(self, position: [usize; 2]) -> (m: BoardMove)
        requires
            position[0] < 9,
            position[1] < 9,
        ensures
            m@ == (MoveModel {
                cell: self@.cell,
                value: self@.value,
                cascades: self@.cascades.push(linear(position)),
            }),
    {
        proof {
            use_type_invariant(&self);
        }
        let ghost held = self@;
        let BoardMove { position: cell, new_value, cascades } = self;
        let mut cascades = cascades;
        cascades.push(position);
        let m = BoardMove { position: cell, new_value, cascades };
        proof {
            assert(m@.cascades =~= held.cascades.push(linear(position)));
        }
        m
    }

    /// The (row, column) of the decided cell.
    pub fn position(&self) -> (position: [usize; 2])
        ensures
            position[0] < 9,
            position[1] < 9,
            linear(position) == self@.cell,
    {
        proof {
            use_type_invariant(self);
        }
        self.position
    }

    /// The digit that was chosen.
    pub fn new_value(&self) -> (value: u8)
        ensures
            value == self@.value,
            1 <= value <= 9,
    {
        proof {
            use_type_invariant(self);
        }
        self.new_value
    }
}

impl Board {
    /// Takes a move back: empties the cells that it forced, then its own cell.
    pub fn undo_move(&mut self, last_move: &BoardMove)
        ensures
            final(self)@ == without_move(old(self)@, last_move@),
    {
        proof {
            use_type_invariant(&*self);
            self.lemma_is_grid();
            use_type_invariant(last_move);
        }
        let count = last_move.cascades.len();
        let mut k: usize = 0;
        while k < count
            invariant
                k <= count,
                count == last_move.cascades@.len(),
                last_move.inv(),
                self@.len() == 81,
                forall|i: int|
                    0 <= i < 81 ==> #[trigger] self@[i] == if exists|q: int|
                        0 <= q < k && linear(#[trigger] last_move.cascades@[q]) == i {
                        0u8
                    } else {
                        old(self)@[i]
                    },
            decreases count - k,
        {
            let cascade = last_move.cascades[k];
            self.set_cell(cascade[0], cascade[1], 0);
            k += 1;
        }
        self.set_cell(last_move.position[0], last_move.position[1], 0);
        proof {
            let target = without_move(old(self)@, last_move@);
            assert forall|i: int| 0 <= i < 81 implies self@[i] == target[i] by {
                let listed = last_move@.cascades;
                if listed.contains(i) {
                    let q = choose|q: int| 0 <= q < listed.len() && listed[q] == i;
                    assert(linear(last_move.cascades@[q]) == i);
                }
                if exists|q: int| 0 <= q < count && linear(#[trigger] last_move.cascades@[q]) == i {
                    let q = choose|q: int|
                        0 <= q < count && linear(#[trigger] last_move.cascades@[q]) == i;
                    assert(listed[q] == i);
                }
            }
            assert(self@ =~= target);
        }
    }
}

} // verus!
