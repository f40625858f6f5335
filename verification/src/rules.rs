//! What the validity rules imply for complete grids.

use vstd::prelude::*;
use vstd::set_lib::{lemma_int_range, lemma_subset_equality, set_int_range};
use crate::board::{
    column_cells, is_complete, is_grid, is_valid, no_repeated_digit, row_cells, tile_cells,
};

verus! {

/// The unit holds each digit 1..=9 exactly once.
pub open spec fn holds_each_digit_once(unit: Seq<u8>) -> bool {
    &&& unit.len() == 9
    &&& unit.no_duplicates()
    &&& forall|d: u8| 1 <= d <= 9 ==> unit.contains(d)
}

/// Nine digits without a repeat are all nine digits.
pub proof fn lemma_full_unit(unit: Seq<u8>)
    requires
        unit.len() == 9,
        forall|k: int| 0 <= k < 9 ==> 1 <= #[trigger] unit[k] <= 9,
        no_repeated_digit(unit),
    ensures
        holds_each_digit_once(unit),
{
    assert(unit.no_duplicates()) by {
        assert forall|a: int, b: int| 0 <= a < 9 && 0 <= b < 9 && a != b implies unit[a]
            != unit[b] by {
            if a < b {
                assert(unit[a] != unit[b]);
            } else {
                assert(unit[b] != unit[a]);
            }
        }
    }
    let wide = unit.map_values(|x: u8| x as int);
    assert(wide.no_duplicates());
    wide.unique_seq_to_set();
    lemma_int_range(1, 10);
    let digits = set_int_range(1, 10);
    assert(wide.to_set().subset_of(digits)) by {
        assert forall|x: int| wide.to_set().contains(x) implies digits.contains(x) by {
            let k = choose|k: int| 0 <= k < wide.len() && wide[k] == x;
            assert(1 <= unit[k] <= 9);
        }
    }
    vstd::seq_lib::seq_to_set_is_finite(wide);
    lemma_subset_equality(wide.to_set(), digits);
    assert forall|d: u8| 1 <= d <= 9 implies unit.contains(d) by {
        assert(digits.contains(d as int));
        assert(wide.to_set().contains(d as int));
        let k = choose|k: int| 0 <= k < wide.len() && wide[k] == d as int;
        assert(unit[k] == d);
    }
}

/// In a complete grid that breaks no rule, every row, column and tile holds
/// each digit 1..=9 exactly once.
pub proof fn lemma_complete_valid_units(cells: Seq<u8>)
    requires
        is_grid(cells),
        is_complete(cells),
        is_valid(cells),
    ensures
        forall|r: int| 0 <= r < 9 ==> holds_each_digit_once(#[trigger] row_cells(cells, r)),
        forall|c: int| 0 <= c < 9 ==> holds_each_digit_once(#[trigger] column_cells(cells, c)),
        forall|tr: int, tc: int|
            0 <= tr < 3 && 0 <= tc < 3 ==> holds_each_digit_once(
                #[trigger] tile_cells(cells, tr, tc),
            ),
{
    assert forall|r: int| 0 <= r < 9 implies holds_each_digit_once(
        #[trigger] row_cells(cells, r),
    ) by {
        let unit = row_cells(cells, r);
        assert forall|k: int| 0 <= k < 9 implies 1 <= #[trigger] unit[k] <= 9 by {
            assert(cells[r * 9 + k] <= 9 && cells[r * 9 + k] != 0);
        }
        lemma_full_unit(unit);
    }
    assert forall|c: int| 0 <= c < 9 implies holds_each_digit_once(
        #[trigger] column_cells(cells, c),
    ) by {
        let unit = column_cells(cells, c);
        assert forall|k: int| 0 <= k < 9 implies 1 <= #[trigger] unit[k] <= 9 by {
            assert(cells[k * 9 + c] <= 9 && cells[k * 9 + c] != 0);
        }
        lemma_full_unit(unit);
    }
    assert forall|tr: int, tc: int| 0 <= tr < 3 && 0 <= tc < 3 implies holds_each_digit_once(
        #[trigger] tile_cells(cells, tr, tc),
    ) by {
        let unit = tile_cells(cells, tr, tc);
        assert forall|k: int| 0 <= k < 9 implies 1 <= #[trigger] unit[k] <= 9 by {
            let i = (tr * 3 + k / 3) * 9 + tc * 3 + k % 3;
            assert(0 <= i < 81);
            assert(cells[i] <= 9 && cells[i] != 0);
        }
        lemma_full_unit(unit);
    }
}

/// Emptying cells breaks no rule.
pub proof fn lemma_emptying_keeps_valid(cells: Seq<u8>, emptied: Seq<u8>)
    requires
        cells.len() == 81,
        emptied.len() == 81,
        is_valid(cells),
        forall|i: int| 0 <= i < 81 ==> #[trigger] emptied[i] == cells[i] || emptied[i] == 0,
    ensures
        is_valid(emptied),
{
    assert forall|r: int| 0 <= r < 9 implies no_repeated_digit(
        #[trigger] row_cells(emptied, r),
    ) by {
        let before = row_cells(cells, r);
        let after = row_cells(emptied, r);
        assert(no_repeated_digit(before));
        assert forall|a: int, b: int| 0 <= a < b < 9 && after[a] != 0 implies #[trigger] after[a]
            != #[trigger] after[b] by {
            assert(emptied[r * 9 + a] == cells[r * 9 + a]);
            assert(emptied[r * 9 + b] == cells[r * 9 + b] || emptied[r * 9 + b] == 0);
            assert(before[a] != before[b]);
        }
    }
    assert forall|c: int| 0 <= c < 9 implies no_repeated_digit(
        #[trigger] column_cells(emptied, c),
    ) by {
        let before = column_cells(cells, c);
        let after = column_cells(emptied, c);
        assert(no_repeated_digit(before));
        assert forall|a: int, b: int| 0 <= a < b < 9 && after[a] != 0 implies #[trigger] after[a]
            != #[trigger] after[b] by {
            assert(emptied[a * 9 + c] == cells[a * 9 + c]);
            assert(emptied[b * 9 + c] == cells[b * 9 + c] || emptied[b * 9 + c] == 0);
            assert(before[a] != before[b]);
        }
    }
    assert forall|tr: int, tc: int| 0 <= tr < 3 && 0 <= tc < 3 implies no_repeated_digit(
        #[trigger] tile_cells(emptied, tr, tc),
    ) by {
        let before = tile_cells(cells, tr, tc);
        let after = tile_cells(emptied, tr, tc);
        assert(no_repeated_digit(before));
        assert forall|a: int, b: int| 0 <= a < b < 9 && after[a] != 0 implies #[trigger] after[a]
            != #[trigger] after[b] by {
            let ia = (tr * 3 + a / 3) * 9 + tc * 3 + a % 3;
            let ib = (tr * 3 + b / 3) * 9 + tc * 3 + b % 3;
            assert(0 <= ia < 81 && 0 <= ib < 81);
            assert(emptied[ia] == cells[ia]);
            assert(emptied[ib] == cells[ib] || emptied[ib] == 0);
            assert(before[a] != before[b]);
        }
    }
}

/// Writing a digit into a cell changes one place of a unit at most: a unit
/// that held no such digit holds it afterwards only in that place.
proof fn lemma_unit_after_fill(before: Seq<u8>, after: Seq<u8>, place: int, digit: u8)
    requires
        before.len() == 9,
        after.len() == 9,
        no_repeated_digit(before),
        !before.contains(digit),
        forall|k: int| 0 <= k < 9 && k != place ==> #[trigger] after[k] == before[k],
        0 <= place < 9 ==> after[place] == digit,
    ensures
        no_repeated_digit(after),
{
    assert forall|a: int, b: int| 0 <= a < b < 9 && after[a] != 0 implies #[trigger] after[a]
        != #[trigger] after[b] by {
        if a != place && b != place {
            assert(before[a] != before[b]);
        } else if a == place {
            assert(before[b] != digit);
        } else {
            assert(before[a] != digit);
        }
    }
}

/// Writing a digit into a cell whose row, column and tile do not hold it
/// breaks no rule.
pub proof fn lemma_fill_keeps_valid(cells: Seq<u8>, row: int, col: int, digit: u8)
    requires
        cells.len() == 81,
        0 <= row < 9,
        0 <= col < 9,
        is_valid(cells),
        !row_cells(cells, row).contains(digit),
        !column_cells(cells, col).contains(digit),
        !tile_cells(cells, row / 3, col / 3).contains(digit),
    ensures
        is_valid(cells.update(row * 9 + col, digit)),
{
    let index = row * 9 + col;
    let filled = cells.update(index, digit);
    assert forall|r: int| 0 <= r < 9 implies no_repeated_digit(
        #[trigger] row_cells(filled, r),
    ) by {
        let before = row_cells(cells, r);
        let after = row_cells(filled, r);
        if r == row {
            assert forall|k: int| 0 <= k < 9 && k != col implies #[trigger] after[k]
                == before[k] by {}
            lemma_unit_after_fill(before, after, col, digit);
        } else {
            assert(after =~= before);
        }
    }
    assert forall|c: int| 0 <= c < 9 implies no_repeated_digit(
        #[trigger] column_cells(filled, c),
    ) by {
        let before = column_cells(cells, c);
        let after = column_cells(filled, c);
        if c == col {
            assert forall|k: int| 0 <= k < 9 && k != row implies #[trigger] after[k]
                == before[k] by {}
            lemma_unit_after_fill(before, after, row, digit);
        } else {
            assert(after =~= before);
        }
    }
    assert forall|tr: int, tc: int| 0 <= tr < 3 && 0 <= tc < 3 implies no_repeated_digit(
        #[trigger] tile_cells(filled, tr, tc),
    ) by {
        let before = tile_cells(cells, tr, tc);
        let after = tile_cells(filled, tr, tc);
        if tr == row / 3 && tc == col / 3 {
            let place = (row % 3) * 3 + col % 3;
            assert forall|k: int| 0 <= k < 9 && k != place implies #[trigger] after[k]
                == before[k] by {
                assert((tr * 3 + k / 3) * 9 + tc * 3 + k % 3 != index);
            }
            assert((tr * 3 + place / 3) * 9 + tc * 3 + place % 3 == index);
            lemma_unit_after_fill(before, after, place, digit);
        } else {
            assert forall|k: int| 0 <= k < 9 implies #[trigger] after[k] == before[k] by {
                assert((tr * 3 + k / 3) * 9 + tc * 3 + k % 3 != index);
            }
            assert(after =~= before);
        }
    }
}

} // verus!
