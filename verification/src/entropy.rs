//! Entropy: the digits that an empty cell may still take, and the search for
//! the empty cell with the fewest of them.

use vstd::prelude::*;
use crate::board::{column_cells, is_complete, is_grid, row_cells, tile_cells, Board};

verus! {

/// `digit` is one of 1..=9 and occurs neither in the row, nor in the column,
/// nor in the tile of the cell at (`row`, `col`).
pub open spec fn is_candidate(cells: Seq<u8>, row: int, col: int, digit: u8) -> bool {
    &&& 1 <= digit <= 9
    &&& !row_cells(cells, row).contains(digit)
    &&& !column_cells(cells, col).contains(digit)
    &&& !tile_cells(cells, row / 3, col / 3).contains(digit)
}

/// The digits 1..=9 in ascending order.
pub open spec fn all_digits() -> Seq<u8> {
    Seq::new(9, |i: int| (i + 1) as u8)
}

/// The test that `candidates` filters by.
pub open spec fn candidate_test(cells: Seq<u8>, row: int, col: int) -> spec_fn(u8) -> bool {
    |digit: u8| is_candidate(cells, row, col, digit)
}

/// The candidates of the cell at (`row`, `col`) in ascending order.
pub open spec fn candidates(cells: Seq<u8>, row: int, col: int) -> Seq<u8> {
    all_digits().filter(candidate_test(cells, row, col))
}

/// The number of candidates of the cell with linear index `index`.
pub open spec fn entropy(cells: Seq<u8>, index: int) -> nat {
    candidates(cells, index / 9, index % 9).len()
}

/// `index` is the first empty cell, in row-major order, among those with the
/// fewest candidates.
pub open spec fn is_least_entropy_cell(cells: Seq<u8>, index: int) -> bool {
    &&& 0 <= index < 81
    &&& cells[index] == 0
    &&& forall|j: int|
        0 <= j < 81 && cells[j] == 0 ==> entropy(cells, index) <= #[trigger] entropy(cells, j)
    &&& forall|j: int|
        0 <= j < index && cells[j] == 0 ==> entropy(cells, index) < #[trigger] entropy(cells, j)
}

/// The candidates among the first `n` digits.
pub open spec fn candidates_upto(cells: Seq<u8>, row: int, col: int, n: int) -> Seq<u8> {
    all_digits().take(n).filter(candidate_test(cells, row, col))
}

/// One more digit either joins the candidates or leaves them as they are.
pub proof fn lemma_candidates_step(cells: Seq<u8>, row: int, col: int, n: int)
    requires
        0 <= n < 9,
    ensures
        candidates_upto(cells, row, col, n + 1) == if is_candidate(cells, row, col, (n + 1) as u8) {
            candidates_upto(cells, row, col, n).push((n + 1) as u8)
        } else {
            candidates_upto(cells, row, col, n)
        },
{
    let digits = all_digits();
    assert(digits.take(n + 1) =~= digits.take(n).push((n + 1) as u8));
    digits.take(n).lemma_filter_push((n + 1) as u8, candidate_test(cells, row, col));
}

/// The candidates among the first `n` digits are at most `n`, every one of
/// them a candidate no larger than `n`, in strictly ascending order.
pub proof fn lemma_candidates_upto(cells: Seq<u8>, row: int, col: int, n: int)
    requires
        0 <= n <= 9,
    ensures
        candidates_upto(cells, row, col, n).len() <= n,
        forall|i: int|
            0 <= i < candidates_upto(cells, row, col, n).len() ==> {
                let d = #[trigger] candidates_upto(cells, row, col, n)[i];
                1 <= d <= n && is_candidate(cells, row, col, d)
            },
        forall|i: int, j: int|
            0 <= i < j < candidates_upto(cells, row, col, n).len() ==> candidates_upto(
                cells,
                row,
                col,
                n,
            )[i] < candidates_upto(cells, row, col, n)[j],
        forall|d: u8|
            1 <= d <= n && is_candidate(cells, row, col, d) ==> candidates_upto(
                cells,
                row,
                col,
                n,
            ).contains(d),
    decreases n,
{
    if n == 0 {
        reveal(Seq::filter);
        assert(all_digits().take(0) =~= Seq::<u8>::empty());
    } else {
        lemma_candidates_upto(cells, row, col, n - 1);
        lemma_candidates_step(cells, row, col, n - 1);
        let before = candidates_upto(cells, row, col, n - 1);
        let now = candidates_upto(cells, row, col, n);
        assert forall|d: u8| 1 <= d <= n && is_candidate(cells, row, col, d) implies now.contains(
            d,
        ) by {
            if d == n {
                assert(now[now.len() - 1] == d);
            } else {
                assert(before.contains(d));
                let k = choose|k: int| 0 <= k < before.len() && before[k] == d;
                assert(now[k] == d);
            }
        }
    }
}

/// The candidates of a cell: at most nine, each a candidate, strictly
/// ascending, and every candidate digit among them.
pub proof fn lemma_candidates(cells: Seq<u8>, row: int, col: int)
    ensures
        candidates(cells, row, col).len() <= 9,
        forall|i: int|
            0 <= i < candidates(cells, row, col).len() ==> is_candidate(
                cells,
                row,
                col,
                #[trigger] candidates(cells, row, col)[i],
            ),
        forall|i: int, j: int|
            0 <= i < j < candidates(cells, row, col).len() ==> candidates(cells, row, col)[i]
                < candidates(cells, row, col)[j],
        forall|d: u8|
            is_candidate(cells, row, col, d) <==> candidates(cells, row, col).contains(d),
{
    lemma_candidates_upto(cells, row, col, 9);
    assert(all_digits().take(9) =~= all_digits());
}

/// At most one cell is the first empty cell with the fewest candidates.
pub proof fn lemma_least_entropy_cell_unique(cells: Seq<u8>, first: int, second: int)
    requires
        is_least_entropy_cell(cells, first),
        is_least_entropy_cell(cells, second),
    ensures
        first == second,
{
    if first < second {
        assert(entropy(cells, second) < entropy(cells, first));
        assert(entropy(cells, first) <= entropy(cells, second));
    } else if second < first {
        assert(entropy(cells, first) < entropy(cells, second));
        assert(entropy(cells, second) <= entropy(cells, first));
    }
}

/// The first empty cell with the fewest candidates, where there is one.
pub open spec fn least_entropy_cell(cells: Seq<u8>) -> int {
    choose|index: int| is_least_entropy_cell(cells, index)
}

/// The fewest candidates that an empty cell has.
pub open spec fn least_entropy(cells: Seq<u8>) -> nat {
    entropy(cells, least_entropy_cell(cells))
}

/// A candidate of one cell stays a candidate when another digit is written
/// into any cell.
pub proof fn lemma_candidate_survives(
    cells: Seq<u8>,
    index: int,
    value: u8,
    row: int,
    col: int,
    digit: u8,
)
    requires
        cells.len() == 81,
        0 <= index < 81,
        0 <= row < 9,
        0 <= col < 9,
        digit != value,
        is_candidate(cells, row, col, digit),
    ensures
        is_candidate(cells.update(index, value), row, col, digit),
{
    let after = cells.update(index, value);
    if row_cells(after, row).contains(digit) {
        let k = choose|k: int| 0 <= k < 9 && row_cells(after, row)[k] == digit;
        assert(row_cells(cells, row)[k] == digit);
    }
    if column_cells(after, col).contains(digit) {
        let k = choose|k: int| 0 <= k < 9 && column_cells(after, col)[k] == digit;
        assert(column_cells(cells, col)[k] == digit);
    }
    let tile = tile_cells(after, row / 3, col / 3);
    if tile.contains(digit) {
        let k = choose|k: int| 0 <= k < 9 && tile[k] == digit;
        assert(0 <= ((row / 3) * 3 + k / 3) * 9 + (col / 3) * 3 + k % 3 < 81);
        assert(tile_cells(cells, row / 3, col / 3)[k] == digit);
    }
}

/// Where every empty cell has two candidates or more, writing a digit into
/// one of them leaves no other cell without a candidate.
pub proof fn lemma_fill_leaves_candidates(cells: Seq<u8>, index: int, value: u8, other: int)
    requires
        cells.len() == 81,
        is_least_entropy_cell(cells, index),
        entropy(cells, index) >= 2,
        0 <= other < 81,
        cells[other] == 0,
    ensures
        entropy(cells.update(index, value), other) >= 1,
{
    let row = other / 9;
    let col = other % 9;
    let before = candidates(cells, row, col);
    let after = candidates(cells.update(index, value), row, col);
    assert(entropy(cells, other) >= 2);
    lemma_candidates(cells, row, col);
    lemma_candidates(cells.update(index, value), row, col);
    let digit = if before[0] != value {
        before[0]
    } else {
        before[1]
    };
    assert(before[0] < before[1]);
    assert(is_candidate(cells, row, col, before[0]));
    assert(is_candidate(cells, row, col, before[1]));
    lemma_candidate_survives(cells, index, value, row, col, digit);
    assert(after.contains(digit));
}

/// Marks in `seen` the digits that the unit holds.
fn mark_unit(seen: &mut [bool; 10], unit: &[u8; 9])
    requires
        forall|k: int| 0 <= k < 9 ==> #[trigger] unit@[k] <= 9,
    ensures
        forall|d: int|
            0 <= d < 10 ==> (#[trigger] final(seen)@[d] <==> old(seen)@[d] || unit@.contains(
                d as u8,
            )),
{
    let mut k: usize = 0;
    while k < 9
        invariant
            k <= 9,
            forall|m: int| 0 <= m < 9 ==> #[trigger] unit@[m] <= 9,
            forall|d: int|
                0 <= d < 10 ==> (#[trigger] seen@[d] <==> old(seen)@[d] || exists|m: int|
                    0 <= m < k && unit@[m] == d),
        decreases 9 - k,
    {
        let digit: usize = unit[k] as usize;
        assert(unit@[k as int] <= 9);
        seen[digit] = true;
        k += 1;
    }
    assert forall|d: int| 0 <= d < 10 implies (#[trigger] seen@[d] <==> old(seen)@[d]
        || unit@.contains(d as u8)) by {
        if unit@.contains(d as u8) {
            let m = choose|m: int| 0 <= m < unit@.len() && unit@[m] == d as u8;
            assert(0 <= m < 9 && unit@[m] == d);
        }
    }
}

impl Board {
    /// Entropy is defined as all the states that a cell could be in which it is
    /// considered valid: the digits 1..=9 that occur neither in the cell's row,
    /// nor in its column, nor in its tile, in ascending order. A filled cell
    /// has none to offer.
    pub fn calculate_entropy_at_cell(&self, row: usize, col: usize) -> (options: Option<Vec<u8>>)
        requires
            row < 9,
            col < 9,
        ensures
            options is None <==> self@[row * 9 + col] != 0,
            options matches Some(v) ==> v@ == candidates(self@, row as int, col as int),
    {
        if self.cell(row, col) != 0 {
            return None;
        }
        proof {
            use_type_invariant(self);
            self.lemma_is_grid();
        }
        let row_unit = self.get_row(row);
        let column_unit = self.get_column(col);
        let tile_unit = self.get_tile((row / 3, col / 3));
        assert forall|k: int| 0 <= k < 9 implies #[trigger] row_unit.cells@[k] <= 9
            && #[trigger] column_unit.cells@[k] <= 9 && #[trigger] tile_unit.cells@[k] <= 9 by {
            let t = ((row / 3) as int * 3 + k / 3) * 9 + (col / 3) as int * 3 + k % 3;
            assert(0 <= t < 81);
            assert(self@[row * 9 + k] <= 9);
            assert(self@[k * 9 + col] <= 9);
            assert(self@[t] <= 9);
        }
        let mut seen: [bool; 10] = [false; 10];
        mark_unit(&mut seen, &row_unit.cells);
        mark_unit(&mut seen, &column_unit.cells);
        mark_unit(&mut seen, &tile_unit.cells);
        let mut options: Vec<u8> = Vec::new();
        let mut digit: u8 = 1;
        proof {
            lemma_candidates_upto(self@, row as int, col as int, 0);
        }
        while digit <= 9
            invariant
                1 <= digit <= 10,
                forall|d: int|
                    1 <= d < 10 ==> (#[trigger] seen@[d] <==> !is_candidate(
                        self@,
                        row as int,
                        col as int,
                        d as u8,
                    )),
                options@ == candidates_upto(self@, row as int, col as int, digit - 1),
            decreases 10 - digit,
        {
            proof {
                lemma_candidates_step(self@, row as int, col as int, digit - 1);
            }
            if !seen[digit as usize] {
                options.push(digit);
            }
            digit += 1;
        }
        assert(all_digits().take(9) =~= all_digits());
        Some(options)
    }

    /// Searches for a cell with the least entropy. The lowest entropy equates
    /// to the highest confidence. Cells are scanned in row-major order and the
    /// first one with the fewest candidates wins; a board without an empty
    /// cell has none.
    pub fn find_least_entropy(&self) -> (found: Option<((usize, usize), Vec<u8>)>)
        ensures
            found is None <==> is_complete(self@),
            found matches Some(((row, col), options)) ==> {
                &&& row < 9
                &&& col < 9
                &&& is_least_entropy_cell(self@, row * 9 + col)
                &&& options@ == candidates(self@, row as int, col as int)
            },
    {
        proof {
            use_type_invariant(self);
            self.lemma_is_grid();
        }
        let mut best: Option<((usize, usize), Vec<u8>)> = None;
        let mut index: usize = 0;
        while index < 81
            invariant
                index <= 81,
                is_grid(self@),
                best is None <==> forall|j: int| 0 <= j < index ==> #[trigger] self@[j] != 0,
                best matches Some(((row, col), options)) ==> {
                    &&& row < 9
                    &&& col < 9
                    &&& row * 9 + col < index
                    &&& self@[row * 9 + col] == 0
                    &&& options@ == candidates(self@, row as int, col as int)
                    &&& forall|j: int|
                        0 <= j < index && self@[j] == 0 ==> entropy(self@, row * 9 + col)
                            <= #[trigger] entropy(self@, j)
                    &&& forall|j: int|
                        0 <= j < row * 9 + col && self@[j] == 0 ==> entropy(self@, row * 9 + col)
                            < #[trigger] entropy(self@, j)
                },
            decreases 81 - index,
        {
            let row: usize = index / 9;
            let col: usize = index % 9;
            if let Some(options) = self.calculate_entropy_at_cell(row, col) {
                let better = match &best {
                    None => true,
                    Some((_, least)) => options.len() < least.len(),
                };
                if better {
                    best = Some(((row, col), options));
                }
            }
            index += 1;
        }
        best
    }
}

} // verus!
