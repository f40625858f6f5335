//! The generator: a complete grid built from a shuffled row by rotation, its
//! columns, rows and digits shuffled in ways that keep the rules.

use vstd::prelude::*;
use crate::board::{
    column_cells, is_complete, is_grid, is_valid, no_repeated_digit, row_cells, tile_cells,
    Board,
};
use crate::random::{after_shuffle, seeded, seeded_generator, shuffle, shuffled};
use rand_chacha::ChaCha8Rng;

verus! {

/// `items` holds each of the `count` numbers from `low` on exactly once.
pub open spec fn is_arrangement(items: Seq<usize>, low: int, count: int) -> bool {
    &&& items.len() == count
    &&& items.no_duplicates()
    &&& forall|i: int| 0 <= i < items.len() ==> low <= #[trigger] items[i] < low + count
}

/// `order` rearranges 0..9 within each group of three: no index leaves its band.
pub open spec fn is_banded_order(order: Seq<usize>) -> bool {
    &&& order.len() == 9
    &&& order.no_duplicates()
    &&& forall|i: int| 0 <= i < 9 ==> #[trigger] order[i] / 3 == i / 3
}

/// The row rotated to the left by `by` places.
pub open spec fn rotate_left(row: Seq<usize>, by: int) -> Seq<usize> {
    Seq::new(row.len(), |j: int| row[(j + by) % (row.len() as int)])
}

/// Row `i` of the pattern: each row is the one above it rotated to the left,
/// by one place where a new band starts and by three places otherwise.
pub open spec fn pattern_row(base: Seq<usize>, i: int) -> Seq<usize>
    decreases i,
{
    if i <= 0 {
        base
    } else {
        rotate_left(
            pattern_row(base, i - 1),
            if i % 3 == 0 {
                1
            } else {
                3
            },
        )
    }
}

/// The grid assembled from the pattern of `base`: its rows taken in the order
/// `rows`, its columns in the order `columns`, and each entry `e` replaced by
/// `digits[e]`.
pub open spec fn assembled(
    base: Seq<usize>,
    columns: Seq<usize>,
    digits: Seq<usize>,
    rows: Seq<usize>,
) -> Seq<u8> {
    Seq::new(
        81,
        |i: int|
            digits[pattern_row(base, rows[i / 9] as int)[columns[i % 9] as int] as int] as u8,
    )
}

/// The four arrangements that a grid is assembled from are what they must be.
pub open spec fn is_recipe(
    base: Seq<usize>,
    columns: Seq<usize>,
    digits: Seq<usize>,
    rows: Seq<usize>,
) -> bool {
    &&& is_arrangement(base, 0, 9)
    &&& is_banded_order(columns)
    &&& is_arrangement(digits, 1, 9)
    &&& is_banded_order(rows)
}

/// By how many places row `i` of the pattern is rotated against the first.
pub open spec fn row_shift(i: int) -> int {
    3 * i - 2 * (i / 3)
}

/// Which entry of the first row stands at (`row`, `col`) of the pattern.
pub open spec fn offset(row: int, col: int) -> int {
    (col + row_shift(row)) % 9
}

/// Rotating row `i - 1` of the pattern gives the offsets of row `i`.
proof fn lemma_offset_step(i: int, j: int)
    requires
        1 <= i < 9,
        0 <= j < 9,
    ensures
        0 <= (j + if i % 3 == 0 { 1int } else { 3int }) % 9 < 9,
        offset(i - 1, (j + if i % 3 == 0 { 1int } else { 3int }) % 9) == offset(i, j),
{
    if i == 1 {
    } else if i == 2 {
    } else if i == 3 {
    } else if i == 4 {
    } else if i == 5 {
    } else if i == 6 {
    } else if i == 7 {
    } else {
    }
}

/// Row `i` of the pattern is the first row rotated by `row_shift(i)` places.
pub proof fn lemma_pattern_row(base: Seq<usize>, i: int)
    requires
        base.len() == 9,
        0 <= i < 9,
    ensures
        pattern_row(base, i).len() == 9,
        forall|j: int| 0 <= j < 9 ==> #[trigger] pattern_row(base, i)[j] == base[offset(i, j)],
    decreases i,
{
    if i > 0 {
        lemma_pattern_row(base, i - 1);
        let above = pattern_row(base, i - 1);
        let by: int = if i % 3 == 0 {
            1
        } else {
            3
        };
        assert forall|j: int| 0 <= j < 9 implies #[trigger] pattern_row(base, i)[j] == base[offset(
            i,
            j,
        )] by {
            let from = (j + by) % 9;
            lemma_offset_step(i, j);
            assert(pattern_row(base, i)[j] == above[from]);
            assert(above[from] == base[offset(i - 1, from)]);
        }
    }
}

/// The rotation of row `row`, reduced to 0..9.
pub open spec fn reduced_shift(row: int) -> int {
    if row == 0 {
        0
    } else if row == 1 {
        3
    } else if row == 2 {
        6
    } else if row == 3 {
        7
    } else if row == 4 {
        1
    } else if row == 5 {
        4
    } else if row == 6 {
        5
    } else if row == 7 {
        8
    } else {
        2
    }
}

/// The offset, written without a remainder.
proof fn lemma_offset_reduced(row: int, col: int)
    requires
        0 <= row < 9,
        0 <= col < 9,
    ensures
        offset(row, col) == if col + reduced_shift(row) >= 9 {
            col + reduced_shift(row) - 9
        } else {
            col + reduced_shift(row)
        },
{
    if row == 0 {
    } else if row == 1 {
    } else if row == 2 {
    } else if row == 3 {
    } else if row == 4 {
    } else if row == 5 {
    } else if row == 6 {
    } else if row == 7 {
    } else {
    }
}

/// Two cells of the pattern that share a row, a column or a tile take
/// different entries of the first row.
pub proof fn lemma_offsets_differ(row1: int, col1: int, row2: int, col2: int)
    requires
        0 <= row1 < 9,
        0 <= col1 < 9,
        0 <= row2 < 9,
        0 <= col2 < 9,
        row1 != row2 || col1 != col2,
        row1 == row2 || col1 == col2 || (row1 / 3 == row2 / 3 && col1 / 3 == col2 / 3),
    ensures
        offset(row1, col1) != offset(row2, col2),
        0 <= offset(row1, col1) < 9,
        0 <= offset(row2, col2) < 9,
{
    lemma_offset_reduced(row1, col1);
    lemma_offset_reduced(row2, col2);
}

/// The cell of an assembled grid at (`row`, `col`), and why two cells that
/// share a unit differ.
pub proof fn lemma_assembled_cells_differ(
    base: Seq<usize>,
    columns: Seq<usize>,
    digits: Seq<usize>,
    rows: Seq<usize>,
    row1: int,
    col1: int,
    row2: int,
    col2: int,
)
    requires
        is_recipe(base, columns, digits, rows),
        0 <= row1 < 9,
        0 <= col1 < 9,
        0 <= row2 < 9,
        0 <= col2 < 9,
        row1 != row2 || col1 != col2,
        row1 == row2 || col1 == col2 || (row1 / 3 == row2 / 3 && col1 / 3 == col2 / 3),
    ensures
        assembled(base, columns, digits, rows)[row1 * 9 + col1] != assembled(
            base,
            columns,
            digits,
            rows,
        )[row2 * 9 + col2],
        1 <= assembled(base, columns, digits, rows)[row1 * 9 + col1] <= 9,
{
    let from_row1 = rows[row1] as int;
    let from_row2 = rows[row2] as int;
    let from_col1 = columns[col1] as int;
    let from_col2 = columns[col2] as int;
    assert(rows[row1] / 3 == row1 / 3 && rows[row2] / 3 == row2 / 3);
    assert(columns[col1] / 3 == col1 / 3 && columns[col2] / 3 == col2 / 3);
    if row1 != row2 {
        assert(rows[row1] != rows[row2]);
    }
    if col1 != col2 {
        assert(columns[col1] != columns[col2]);
    }
    lemma_pattern_row(base, from_row1);
    lemma_pattern_row(base, from_row2);
    lemma_offsets_differ(from_row1, from_col1, from_row2, from_col2);
    let entry1 = base[offset(from_row1, from_col1)];
    let entry2 = base[offset(from_row2, from_col2)];
    assert(entry1 != entry2);
    assert(pattern_row(base, from_row1)[from_col1] == entry1);
    assert(pattern_row(base, from_row2)[from_col2] == entry2);
    assert(digits[entry1 as int] != digits[entry2 as int]);
    assert(1 <= digits[entry1 as int] <= 9);
    assert(1 <= digits[entry2 as int] <= 9);
    assert((row1 * 9 + col1) / 9 == row1 && (row1 * 9 + col1) % 9 == col1);
    assert((row2 * 9 + col2) / 9 == row2 && (row2 * 9 + col2) % 9 == col2);
}

/// An assembled grid is complete and breaks no rule.
pub proof fn lemma_assembled_is_solution(
    base: Seq<usize>,
    columns: Seq<usize>,
    digits: Seq<usize>,
    rows: Seq<usize>,
)
    requires
        is_recipe(base, columns, digits, rows),
    ensures
        is_grid(assembled(base, columns, digits, rows)),
        is_complete(assembled(base, columns, digits, rows)),
        is_valid(assembled(base, columns, digits, rows)),
{
    let grid = assembled(base, columns, digits, rows);
    assert forall|i: int| 0 <= i < 81 implies 1 <= #[trigger] grid[i] <= 9 by {
        lemma_assembled_cells_differ(
            base,
            columns,
            digits,
            rows,
            i / 9,
            i % 9,
            i / 9,
            (i % 9 + 1) % 9,
        );
    }
    assert forall|r: int| 0 <= r < 9 implies no_repeated_digit(#[trigger] row_cells(grid, r)) by {
        let unit = row_cells(grid, r);
        assert forall|a: int, b: int| 0 <= a < b < 9 && unit[a] != 0 implies #[trigger] unit[a]
            != #[trigger] unit[b] by {
            lemma_assembled_cells_differ(base, columns, digits, rows, r, a, r, b);
        }
    }
    assert forall|c: int| 0 <= c < 9 implies no_repeated_digit(
        #[trigger] column_cells(grid, c),
    ) by {
        let unit = column_cells(grid, c);
        assert forall|a: int, b: int| 0 <= a < b < 9 && unit[a] != 0 implies #[trigger] unit[a]
            != #[trigger] unit[b] by {
            lemma_assembled_cells_differ(base, columns, digits, rows, a, c, b, c);
        }
    }
    assert forall|tr: int, tc: int| 0 <= tr < 3 && 0 <= tc < 3 implies no_repeated_digit(
        #[trigger] tile_cells(grid, tr, tc),
    ) by {
        let unit = tile_cells(grid, tr, tc);
        assert forall|a: int, b: int| 0 <= a < b < 9 && unit[a] != 0 implies #[trigger] unit[a]
            != #[trigger] unit[b] by {
            lemma_assembled_cells_differ(
                base,
                columns,
                digits,
                rows,
                tr * 3 + a / 3,
                tc * 3 + a % 3,
                tr * 3 + b / 3,
                tc * 3 + b % 3,
            );
        }
    }
}

/// A rearrangement of an arrangement is an arrangement of the same numbers.
pub proof fn lemma_shuffled(before: Seq<usize>, after: Seq<usize>, low: int, count: int)
    requires
        is_arrangement(before, low, count),
        after.to_multiset() == before.to_multiset(),
    ensures
        is_arrangement(after, low, count),
{
    broadcast use {
        vstd::seq_lib::to_multiset_len,
        vstd::seq_lib::to_multiset_contains,
        vstd::multiset::group_multiset_axioms,
    };

    vstd::seq_lib::to_multiset_len(before);
    vstd::seq_lib::to_multiset_len(after);
    before.lemma_multiset_has_no_duplicates();
    after.lemma_multiset_has_no_duplicates_conv();
    assert forall|i: int| 0 <= i < after.len() implies low <= #[trigger] after[i] < low
        + count by {
        assert(after.contains(after[i]));
        assert(after.to_multiset().count(after[i]) > 0);
        assert(before.contains(after[i]));
    }
}

/// The numbers `low`, `low + 1`, .., `low + 8` in ascending order.
pub open spec fn counted(low: int) -> Seq<usize> {
    Seq::new(9, |i: int| (low + i) as usize)
}

/// The three indices of band `band` in ascending order.
pub open spec fn band_indices(band: int) -> Seq<usize> {
    seq![(3 * band) as usize, (3 * band + 1) as usize, (3 * band + 2) as usize]
}

/// The state of the generator once the first `bands` bands have been
/// shuffled, one after the other, from state `rng`.
pub open spec fn after_bands(rng: ChaCha8Rng, bands: nat) -> ChaCha8Rng
    decreases bands,
{
    if bands == 0 {
        rng
    } else {
        after_shuffle(3, after_bands(rng, (bands - 1) as nat))
    }
}

/// The indices of the first `bands` bands, each band shuffled by itself with
/// the generator as the bands before it left it, from state `rng`.
pub open spec fn banded_order(rng: ChaCha8Rng, bands: nat) -> Seq<usize>
    decreases bands,
{
    if bands == 0 {
        Seq::<usize>::empty()
    } else {
        banded_order(rng, (bands - 1) as nat) + shuffled(
            band_indices(bands - 1),
            after_bands(rng, (bands - 1) as nat),
        )
    }
}

/// The grid that `seed` stands for. One generator is made from the seed and
/// shuffles, in this order: the first row, the columns within their stacks,
/// the digits, and the rows within their bands.
pub open spec fn generated(seed: u64) -> Seq<u8> {
    let first = seeded(seed);
    let second = after_shuffle(9, first);
    let third = after_bands(second, 3);
    let fourth = after_shuffle(9, third);
    assembled(
        shuffled(counted(0), first),
        banded_order(second, 3),
        shuffled(counted(1), third),
        banded_order(fourth, 3),
    )
}

/// Generation is fixed by the seed: equal seeds stand for equal grids.
pub proof fn lemma_same_seed_same_grid(first: u64, second: u64)
    requires
        first == second,
    ensures
        generated(first) == generated(second),
{
}

/// The numbers `low`, `low + 1`, .., `low + 8` in ascending order.
fn counting(low: usize) -> (items: Vec<usize>)
    requires
        low <= 1,
    ensures
        items@ == counted(low as int),
        is_arrangement(items@, low as int, 9),
{
    let mut items: Vec<usize> = Vec::with_capacity(9);
    let mut k: usize = 0;
    while k < 9
        invariant
            k <= 9,
            low <= 1,
            items@.len() == k,
            forall|i: int| 0 <= i < k ==> #[trigger] items@[i] == low + i,
        decreases 9 - k,
    {
        items.push(low + k);
        k += 1;
    }
    assert(items@ =~= counted(low as int));
    items
}

/// An order of 0..9 in which each group of three has been shuffled by itself.
fn shuffled_bands(rng: &mut ChaCha8Rng) -> (order: Vec<usize>)
    ensures
        order@ == banded_order(*old(rng), 3),
        *final(rng) == after_bands(*old(rng), 3),
        is_banded_order(order@),
{
    let ghost start = *rng;
    let mut order: Vec<usize> = Vec::with_capacity(9);
    let mut band: usize = 0;
    while band < 3
        invariant
            band <= 3,
            order@ == banded_order(start, band as nat),
            *rng == after_bands(start, band as nat),
            order@.len() == band * 3,
            forall|i: int| 0 <= i < order@.len() ==> #[trigger] order@[i] / 3 == i / 3,
            order@.no_duplicates(),
        decreases 3 - band,
    {
        let mut group: Vec<usize> = Vec::with_capacity(3);
        group.push(3 * band);
        group.push(3 * band + 1);
        group.push(3 * band + 2);
        let ghost sorted = group@;
        shuffle(&mut group, rng);
        proof {
            lemma_shuffled(sorted, group@, 3 * band as int, 3);
        }
        let ghost held = order@;
        order.push(group[0]);
        order.push(group[1]);
        order.push(group[2]);
        proof {
            assert(sorted =~= band_indices(band as int));
            assert(order@ =~= held + group@);
            assert(3 * band <= group@[0] < 3 * band + 3);
            assert(3 * band <= group@[1] < 3 * band + 3);
            assert(3 * band <= group@[2] < 3 * band + 3);
            assert forall|i: int, j: int|
                0 <= i < order@.len() && 0 <= j < order@.len() && i != j implies order@[i]
                != order@[j] by {
                if i < held.len() {
                    assert(order@[i] == held[i]);
                }
                if j < held.len() {
                    assert(order@[j] == held[j]);
                }
            }
        }
        band += 1;
    }
    order
}

/// Assembles the grid from its recipe: builds the pattern from `base_row` by
/// rotation, takes its rows in the order `row_order` and its columns in the
/// order `column_order`, and writes `digits[e]` for each entry `e`.
pub fn assemble_board(
    base_row: &Vec<usize>,
    column_order: &Vec<usize>,
    digits: &Vec<usize>,
    row_order: &Vec<usize>,
) -> (board: Board)
    requires
        is_recipe(base_row@, column_order@, digits@, row_order@),
    ensures
        board@ == assembled(base_row@, column_order@, digits@, row_order@),
        is_complete(board@),
        is_valid(board@),
{
    let mut pattern: Vec<usize> = Vec::with_capacity(81);
    let mut j: usize = 0;
    while j < 9
        invariant
            j <= 9,
            base_row@.len() == 9,
            pattern@.len() == j,
            forall|t: int| 0 <= t < j ==> #[trigger] pattern@[t] == base_row@[t],
        decreases 9 - j,
    {
        pattern.push(base_row[j]);
        j += 1;
    }
    let mut i: usize = 1;
    while i < 9
        invariant
            1 <= i <= 9,
            base_row@.len() == 9,
            pattern@.len() == i * 9,
            forall|t: int|
                0 <= t < pattern@.len() ==> #[trigger] pattern@[t] == pattern_row(
                    base_row@,
                    t / 9,
                )[t % 9],
        decreases 9 - i,
    {
        let by: usize = if i % 3 == 0 {
            1
        } else {
            3
        };
        let mut j: usize = 0;
        while j < 9
            invariant
                j <= 9,
                1 <= i < 9,
                by == if i % 3 == 0 { 1int } else { 3int },
                base_row@.len() == 9,
                pattern@.len() == i * 9 + j,
                forall|t: int|
                    0 <= t < pattern@.len() ==> #[trigger] pattern@[t] == pattern_row(
                        base_row@,
                        t / 9,
                    )[t % 9],
            decreases 9 - j,
        {
            let from: usize = (i - 1) * 9 + (j + by) % 9;
            let entry = pattern[from];
            proof {
                lemma_pattern_row(base_row@, i - 1);
                assert(from / 9 == i - 1 && from % 9 == (j + by) % 9);
                assert((i * 9 + j) / 9 == i && (i * 9 + j) % 9 == j);
                assert(pattern_row(base_row@, i as int)[j as int] == entry);
            }
            pattern.push(entry);
            j += 1;
        }
        i += 1;
    }
    let ghost grid = assembled(base_row@, column_order@, digits@, row_order@);
    let mut cells: [u8; 81] = [0u8; 81];
    let mut t: usize = 0;
    while t < 81
        invariant
            t <= 81,
            is_recipe(base_row@, column_order@, digits@, row_order@),
            grid == assembled(base_row@, column_order@, digits@, row_order@),
            pattern@.len() == 81,
            forall|k: int|
                0 <= k < 81 ==> #[trigger] pattern@[k] == pattern_row(base_row@, k / 9)[k % 9],
            forall|k: int| 0 <= k < t ==> #[trigger] cells@[k] == grid[k],
            forall|k: int| 0 <= k < 81 ==> #[trigger] cells@[k] <= 9,
        decreases 81 - t,
    {
        let from_row = row_order[t / 9];
        let from_col = column_order[t % 9];
        assert(row_order@[(t / 9) as int] / 3 == (t / 9) / 3);
        assert(column_order@[(t % 9) as int] / 3 == (t % 9) / 3);
        let from: usize = from_row * 9 + from_col;
        let entry = pattern[from];
        proof {
            lemma_pattern_row(base_row@, from_row as int);
            assert(from / 9 == from_row && from % 9 == from_col);
            assert(entry == base_row@[offset(from_row as int, from_col as int)]);
            assert(0 <= offset(from_row as int, from_col as int) < 9);
        }
        let digit = digits[entry];
        assert(1 <= digits@[entry as int] <= 9);
        cells[t] = digit as u8;
        t += 1;
    }
    proof {
        assert(cells@ =~= grid);
        lemma_assembled_is_solution(base_row@, column_order@, digits@, row_order@);
    }
    Board::from_cells(cells)
}

/// Base generation: a shuffled first row, each further row the one above
/// rotated; then the columns shuffled within their stacks, the digits
/// renamed, and the rows shuffled within their bands. Every random decision
/// is drawn from one generator seeded with `seed`.
pub fn generate_board(seed: u64) -> (board: Board)
    ensures
        board@ == generated(seed),
        is_complete(board@),
        is_valid(board@),
{
    let mut rng = seeded_generator(seed);
    let mut base_row = counting(0);
    let ghost sorted_row = base_row@;
    shuffle(&mut base_row, &mut rng);
    let column_order = shuffled_bands(&mut rng);
    let mut digits = counting(1);
    let ghost sorted_digits = digits@;
    shuffle(&mut digits, &mut rng);
    let row_order = shuffled_bands(&mut rng);
    proof {
        lemma_shuffled(sorted_row, base_row@, 0, 9);
        lemma_shuffled(sorted_digits, digits@, 1, 9);
    }
    assemble_board(&base_row, &column_order, &digits, &row_order)
}

} // verus!
