//! The grid: 81 cells in row-major order, its row, column and tile projections,
//! the 81-character interchange format and the validity rules.

use vstd::prelude::*;
use vstd::string::StrSliceExecFns;
use vstd::string::StringExecFns;

verus! {

/// A cell sequence is a grid when it has 81 cells, each holding 0 (empty) or a digit 1..=9.
pub open spec fn is_grid(cells: Seq<u8>) -> bool {
    &&& cells.len() == 81
    &&& forall|i: int| 0 <= i < 81 ==> #[trigger] cells[i] <= 9
}

/// The nine cells of row `row`, left to right.
pub open spec fn row_cells(cells: Seq<u8>, row: int) -> Seq<u8> {
    Seq::new(9, |j: int| cells[row * 9 + j])
}

/// The nine cells of column `col`, top to bottom.
pub open spec fn column_cells(cells: Seq<u8>, col: int) -> Seq<u8> {
    Seq::new(9, |i: int| cells[i * 9 + col])
}

/// The nine cells of the 3×3 tile at (`tile_row`, `tile_col`), row by row.
pub open spec fn tile_cells(cells: Seq<u8>, tile_row: int, tile_col: int) -> Seq<u8> {
    Seq::new(9, |k: int| cells[(tile_row * 3 + k / 3) * 9 + tile_col * 3 + k % 3])
}

/// No digit other than 0 occurs twice in `unit`.
pub open spec fn no_repeated_digit(unit: Seq<u8>) -> bool {
    forall|a: int, b: int|
        0 <= a < b < unit.len() && unit[a] != 0 ==> #[trigger] unit[a] != #[trigger] unit[b]
}

/// Every row, column and tile is free of repeated digits.
pub open spec fn is_valid(cells: Seq<u8>) -> bool {
    &&& forall|r: int| 0 <= r < 9 ==> no_repeated_digit(#[trigger] row_cells(cells, r))
    &&& forall|c: int| 0 <= c < 9 ==> no_repeated_digit(#[trigger] column_cells(cells, c))
    &&& forall|tr: int, tc: int|
        0 <= tr < 3 && 0 <= tc < 3 ==> no_repeated_digit(#[trigger] tile_cells(cells, tr, tc))
}

/// No cell is empty.
pub open spec fn is_complete(cells: Seq<u8>) -> bool {
    forall|i: int| 0 <= i < cells.len() ==> #[trigger] cells[i] != 0
}

/// `c` is one of the characters '0'..='9'.
pub open spec fn is_digit_char(c: char) -> bool {
    48 <= c as u32 <= 57
}

/// The value that a digit character stands for.
pub open spec fn digit_value(c: char) -> u8 {
    (c as u32 - 48) as u8
}

/// The character that stands for a cell value.
pub open spec fn digit_char(value: u8) -> char {
    (value + 48) as char
}

/// A text is a board representation when it is exactly 81 digit characters.
pub open spec fn is_representation(text: Seq<char>) -> bool {
    &&& text.len() == 81
    &&& forall|i: int| 0 <= i < 81 ==> is_digit_char(#[trigger] text[i])
}

/// The cells that a representation denotes, row-major.
pub open spec fn parse_cells(text: Seq<char>) -> Seq<u8> {
    Seq::new(81, |i: int| digit_value(text[i]))
}

/// The representation of a grid: one digit character per cell, row-major.
pub open spec fn representation_of(cells: Seq<u8>) -> Seq<char> {
    Seq::new(81, |i: int| digit_char(cells[i]))
}

/// Writing a grid out and reading it back gives the same grid.
pub proof fn lemma_representation_round_trip(cells: Seq<u8>)
    requires
        is_grid(cells),
    ensures
        is_representation(representation_of(cells)),
        parse_cells(representation_of(cells)) == cells,
{
    let text = representation_of(cells);
    assert forall|i: int| 0 <= i < 81 implies is_digit_char(#[trigger] text[i]) && digit_value(
        text[i],
    ) == cells[i] by {
        assert(cells[i] <= 9);
    }
    assert(parse_cells(text) =~= cells);
}

/// Reading a representation and writing the grid out gives the same text.
pub proof fn lemma_parse_round_trip(text: Seq<char>)
    requires
        is_representation(text),
    ensures
        is_grid(parse_cells(text)),
        representation_of(parse_cells(text)) == text,
{
    let cells = parse_cells(text);
    assert forall|i: int| 0 <= i < 81 implies #[trigger] cells[i] <= 9 && digit_char(cells[i])
        == text[i] by {
        let c = text[i];
        assert(is_digit_char(c));
        assert(cells[i] == digit_value(c));
        vstd::utf8::char_u32_cast(c, c as u32);
    }
    assert(representation_of(cells) =~= text);
}

/// A 9×9 grid of cells, each 0 (empty) or a digit 1..=9.
pub struct Board {
    cells: [u8; 81],
}

/// One row of a board.
#[derive(Debug)]
pub struct SudokuRow {
    pub cells: [u8; 9],
}

/// One column of a board.
#[derive(Debug)]
pub struct SudokuColumn {
    pub cells: [u8; 9],
}

/// One 3×3 tile of a board.
#[derive(Debug)]
pub struct SudokuTile {
    pub cells: [u8; 9],
}

impl View for Board {
    type V = Seq<u8>;

    closed spec fn view(&self) -> Seq<u8> {
        self.cells@
    }
}

/// The digit character for a cell value, as a one-character text.
pub(crate) fn digit_text(value: u8) -> (text: &'static str)
    requires
        value <= 9,
    ensures
        text@ == seq![digit_char(value)],
{
    proof {
        reveal_strlit("0");
        reveal_strlit("1");
        reveal_strlit("2");
        reveal_strlit("3");
        reveal_strlit("4");
        reveal_strlit("5");
        reveal_strlit("6");
        reveal_strlit("7");
        reveal_strlit("8");
        reveal_strlit("9");
    }
    let text = match value {
        0 => "0",
        1 => "1",
        2 => "2",
        3 => "3",
        4 => "4",
        5 => "5",
        6 => "6",
        7 => "7",
        8 => "8",
        _ => "9",
    };
    assert(text@ =~= seq![digit_char(value)]);
    text
}

/// The value of a digit character, if it is one.
fn digit_of(c: char) -> (value: Option<u8>)
    ensures
        value is Some <==> is_digit_char(c),
        value matches Some(v) ==> v == digit_value(c),
{
    let code: u32 = c as u32;
    if 48 <= code && code <= 57 {
        Some((code - 48) as u8)
    } else {
        None
    }
}

/// Whether no digit other than 0 occurs twice among the nine cells.
fn unit_is_clean(unit: &[u8; 9]) -> (clean: bool)
    ensures
        clean == no_repeated_digit(unit@),
{
    let mut a: usize = 0;
    while a < 9
        invariant
            a <= 9,
            forall|x: int, y: int|
                0 <= x < a && x < y < 9 && unit@[x] != 0 ==> #[trigger] unit@[x]
                    != #[trigger] unit@[y],
        decreases 9 - a,
    {
        if unit[a] != 0 {
            let mut b: usize = a + 1;
            while b < 9
                invariant
                    a < b <= 9,
                    unit@[a as int] != 0,
                    forall|y: int| a < y < b ==> unit@[a as int] != #[trigger] unit@[y],
                decreases 9 - b,
            {
                if unit[a] == unit[b] {
                    return false;
                }
                b += 1;
            }
        }
        a += 1;
    }
    true
}

impl Board {
    /// Every cell holds 0 or a digit 1..=9.
    #[verifier::type_invariant]
    pub closed spec fn inv(&self) -> bool {
        is_grid(self.cells@)
    }

    /// What the invariant says of the view.
    pub proof fn lemma_is_grid(&self)
        requires
            self.inv(),
        ensures
            is_grid(self@),
    {
    }

    /// The board that holds the given cells, row-major.
    pub fn from_cells(cells: [u8; 81]) -> (board: Board)
        requires
            is_grid(cells@),
        ensures
            board@ == cells@,
    {
        Board { cells }
    }

    /// Reads a board from its 81-character representation, or gives `None` when
    /// the text is not exactly 81 digit characters.
    pub fn parse(text: &str) -> (board: Option<Board>)
        ensures
            board is Some <==> is_representation(text@),
            board matches Some(b) ==> b@ == parse_cells(text@),
    {
        if text.unicode_len() != 81 {
            return None;
        }
        let mut cells: [u8; 81] = [0u8; 81];
        let mut i: usize = 0;
        while i < 81
            invariant
                i <= 81,
                text@.len() == 81,
                forall|k: int| 0 <= k < i ==> is_digit_char(#[trigger] text@[k]),
                forall|k: int| 0 <= k < i ==> #[trigger] cells@[k] == digit_value(text@[k]),
                forall|k: int| 0 <= k < 81 ==> #[trigger] cells@[k] <= 9,
            decreases 81 - i,
        {
            match digit_of(text.get_char(i)) {
                Some(v) => {
                    cells[i] = v;
                },
                None => {
                    return None;
                },
            }
            i += 1;
        }
        let board = Board { cells };
        assert(board@ =~= parse_cells(text@));
        Some(board)
    }

    /// Board constructor: reads the 81-character representation.
    pub fn new(string_representation: String) -> (board: Board)
        requires
            is_representation(string_representation@),
        ensures
            board@ == parse_cells(string_representation@),
    {
        match Board::parse(string_representation.as_str()) {
            Some(board) => board,
            None => vstd::pervasive::unreached(),
        }
    }

    /// Writes the board out as its 81-character representation.
    pub fn representation(&self) -> (text: String)
        ensures
            text@ == representation_of(self@),
            is_representation(text@),
            parse_cells(text@) == self@,
    {
        proof {
            use_type_invariant(self);
            lemma_representation_round_trip(self@);
        }
        let mut text = String::new();
        let mut i: usize = 0;
        while i < 81
            invariant
                i <= 81,
                is_grid(self.cells@),
                text@.len() == i,
                forall|k: int| 0 <= k < i ==> #[trigger] text@[k] == digit_char(self.cells@[k]),
            decreases 81 - i,
        {
            text.append(digit_text(self.cells[i]));
            i += 1;
        }
        assert(text@ =~= representation_of(self@));
        text
    }

    /// The value of the cell at (`row`, `col`).
    pub fn cell(&self, row: usize, col: usize) -> (value: u8)
        requires
            row < 9,
            col < 9,
        ensures
            value == self@[row * 9 + col],
            value <= 9,
    {
        proof {
            use_type_invariant(self);
        }
        self.cells[row * 9 + col]
    }

    /// Writes `value` into the cell at (`row`, `col`); 0 empties it.
    pub fn set_cell(&mut self, row: usize, col: usize, value: u8)
        requires
            row < 9,
            col < 9,
            value <= 9,
        ensures
            final(self)@ == old(self)@.update(row * 9 + col, value),
    {
        proof {
            use_type_invariant(&*self);
        }
        self.cells[row * 9 + col] = value;
    }

    /// A copy of the board with `value` written into the cell at (`row`, `col`).
    pub fn with_cell(&self, row: usize, col: usize, value: u8) -> (board: Board)
        requires
            row < 9,
            col < 9,
            value <= 9,
        ensures
            board@ == self@.update(row * 9 + col, value),
    {
        proof {
            use_type_invariant(self);
        }
        let mut cells: [u8; 81] = self.cells;
        cells[row * 9 + col] = value;
        Board { cells }
    }

    /// Retrieves a single row
    pub fn get_row(&self, row: usize) -> (r: SudokuRow)
        requires
            row < 9,
        ensures
            r.cells@ == row_cells(self@, row as int),
    {
        let mut cells: [u8; 9] = [0u8; 9];
        let mut j: usize = 0;
        while j < 9
            invariant
                j <= 9,
                row < 9,
                forall|k: int| 0 <= k < j ==> #[trigger] cells@[k] == self.cells@[row * 9 + k],
            decreases 9 - j,
        {
            cells[j] = self.cells[row * 9 + j];
            j += 1;
        }
        assert(cells@ =~= row_cells(self@, row as int));
        SudokuRow { cells }
    }

    /// Retrieves a single column
    pub fn get_column(&self, column: usize) -> (c: SudokuColumn)
        requires
            column < 9,
        ensures
            c.cells@ == column_cells(self@, column as int),
    {
        let mut cells: [u8; 9] = [0u8; 9];
        let mut i: usize = 0;
        while i < 9
            invariant
                i <= 9,
                column < 9,
                forall|k: int| 0 <= k < i ==> #[trigger] cells@[k] == self.cells@[k * 9 + column],
            decreases 9 - i,
        {
            cells[i] = self.cells[i * 9 + column];
            i += 1;
        }
        assert(cells@ =~= column_cells(self@, column as int));
        SudokuColumn { cells }
    }

    /// Retrieves a single 3x3 tile
    pub fn get_tile(&self, tile: (usize, usize)) -> (t: SudokuTile)
        requires
            tile.0 < 3,
            tile.1 < 3,
        ensures
            t.cells@ == tile_cells(self@, tile.0 as int, tile.1 as int),
    {
        let mut cells: [u8; 9] = [0u8; 9];
        let mut k: usize = 0;
        while k < 9
            invariant
                k <= 9,
                tile.0 < 3,
                tile.1 < 3,
                forall|m: int|
                    0 <= m < k ==> #[trigger] cells@[m] == self.cells@[(tile.0 * 3 + m / 3) * 9
                        + tile.1 * 3 + m % 3],
            decreases 9 - k,
        {
            cells[k] = self.cells[(tile.0 * 3 + k / 3) * 9 + tile.1 * 3 + k % 3];
            k += 1;
        }
        assert(cells@ =~= tile_cells(self@, tile.0 as int, tile.1 as int));
        SudokuTile { cells }
    }

    /// Validates the board to make sure it follows the sudoku rules: no row,
    /// column or tile holds a digit twice.
    pub fn validate_board(&self) -> (valid: bool)
        ensures
            valid == is_valid(self@),
    {
        let mut i: usize = 0;
        while i < 9
            invariant
                i <= 9,
                forall|r: int| 0 <= r < i ==> no_repeated_digit(#[trigger] row_cells(self@, r)),
                forall|c: int| 0 <= c < i ==> no_repeated_digit(#[trigger] column_cells(self@, c)),
                forall|tr: int, tc: int|
                    0 <= tr < 3 && 0 <= tc < 3 && tr * 3 + tc < i ==> no_repeated_digit(
                        #[trigger] tile_cells(self@, tr, tc),
                    ),
            decreases 9 - i,
        {
            let row = self.get_row(i);
            let column = self.get_column(i);
            let tile = self.get_tile((i / 3, i % 3));
            if !unit_is_clean(&row.cells) || !unit_is_clean(&column.cells) || !unit_is_clean(
                &tile.cells,
            ) {
                return false;
            }
            i += 1;
        }
        true
    }
}

} // verus!
