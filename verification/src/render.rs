//! The picture of a board: its rows between vertical lines, framed and
//! divided into tiles by box-drawing characters.

use vstd::prelude::*;
use vstd::string::StringExecFns;
use crate::board::{digit_char, digit_text, row_cells, Board, SudokuRow};

verus! {

/// What a cell is drawn with: a blank for an empty cell, the decimal digits
/// of its value otherwise.
pub open spec fn value_text(value: u8) -> Seq<char> {
    if value == 0 {
        seq![' ']
    } else if value < 10 {
        seq![digit_char(value)]
    } else if value < 100 {
        seq![digit_char(value / 10), digit_char(value % 10)]
    } else {
        seq![digit_char(value / 100), digit_char(value / 10 % 10), digit_char(value % 10)]
    }
}

/// What the cell at `place` adds to the text of its row: a vertical line and
/// a blank where a tile starts, the cell's value, and a blank, followed by
/// the closing vertical line after the last cell.
pub open spec fn cell_text(value: u8, place: int) -> Seq<char> {
    let lead = if place % 3 == 0 {
        seq!['│', ' ']
    } else {
        Seq::<char>::empty()
    };
    let tail = if place < 8 {
        seq![' ']
    } else {
        seq![' ', '│']
    };
    lead + value_text(value) + tail
}

/// The text of the first `n` cells of a row.
pub open spec fn row_text_upto(unit: Seq<u8>, n: int) -> Seq<char>
    decreases n,
{
    if n <= 0 {
        Seq::<char>::empty()
    } else {
        row_text_upto(unit, n - 1) + cell_text(unit[n - 1], n - 1)
    }
}

/// The text of a row, as in `│ 5 3   │   7   │       │`.
pub open spec fn row_text(unit: Seq<u8>) -> Seq<char> {
    row_text_upto(unit, 9)
}

/// Seven horizontal lines: the width of a tile.
pub open spec fn tile_rule() -> Seq<char> {
    seq!['─', '─', '─', '─', '─', '─', '─']
}

/// A horizontal rule of the frame, with its line break.
pub open spec fn rule_text(left: char, joint: char, right: char) -> Seq<char> {
    seq![left] + tile_rule() + seq![joint] + tile_rule() + seq![joint] + tile_rule() + seq![
        right,
        '\n',
    ]
}

/// The first `n` rows of the picture, each on a line of its own, with a rule
/// above the fourth and the seventh.
pub open spec fn rows_text_upto(cells: Seq<u8>, n: int) -> Seq<char>
    decreases n,
{
    if n <= 0 {
        Seq::<char>::empty()
    } else {
        let divider = if n - 1 == 3 || n - 1 == 6 {
            rule_text('├', '┼', '┤')
        } else {
            Seq::<char>::empty()
        };
        rows_text_upto(cells, n - 1) + divider + row_text(row_cells(cells, n - 1)) + seq!['\n']
    }
}

/// The picture of a board: the top of the frame, the nine rows and the bottom
/// of the frame.
pub open spec fn drawing(cells: Seq<u8>) -> Seq<char> {
    rule_text('┌', '┬', '┐') + rows_text_upto(cells, 9) + rule_text('└', '┴', '┘')
}

impl SudokuRow {
    /// The text of the row: its cells between vertical lines, a blank for each
    /// empty cell.
    pub fn to_string(&self) -> (text: String)
        ensures
            text@ == row_text(self.cells@),
    {
        let mut text = String::new();
        let mut place: usize = 0;
        while place < 9
            invariant
                place <= 9,
                text@ == row_text_upto(self.cells@, place as int),
            decreases 9 - place,
        {
            let value = self.cells[place];
            let ghost held = text@;
            proof {
                reveal_strlit("│ ");
                reveal_strlit(" ");
                reveal_strlit(" │");
            }
            if place % 3 == 0 {
                text.append("│ ");
            }
            if value == 0 {
                text.append(" ");
            } else {
                if value >= 100 {
                    text.append(digit_text(value / 100));
                }
                if value >= 10 {
                    text.append(digit_text(value / 10 % 10));
                }
                text.append(digit_text(value % 10));
            }
            if place < 8 {
                text.append(" ");
            } else {
                text.append(" │");
            }
            proof {
                assert("│ "@ =~= seq!['│', ' ']);
                assert(" "@ =~= seq![' ']);
                assert(" │"@ =~= seq![' ', '│']);
                assert(text@ =~= held + cell_text(value, place as int));
            }
            place += 1;
        }
        text
    }
}

impl Board {
    /// Formats the board as a picture: one line for the top of the frame, one
    /// for each row with a rule between the tiles, and one for the bottom.
    pub fn draw_board(&self) -> (text: String)
        ensures
            text@ == drawing(self@),
    {
        proof {
            reveal_strlit("┌───────┬───────┬───────┐\n");
            reveal_strlit("├───────┼───────┼───────┤\n");
            reveal_strlit("└───────┴───────┴───────┘\n");
            reveal_strlit("\n");
            assert("┌───────┬───────┬───────┐\n"@ =~= rule_text('┌', '┬', '┐'));
            assert("├───────┼───────┼───────┤\n"@ =~= rule_text('├', '┼', '┤'));
            assert("└───────┴───────┴───────┘\n"@ =~= rule_text('└', '┴', '┘'));
            assert("\n"@ =~= seq!['\n']);
        }
        let mut text = String::new();
        text.append("┌───────┬───────┬───────┐\n");
        let ghost top = text@;
        let mut i: usize = 0;
        while i < 9
            invariant
                i <= 9,
                top == rule_text('┌', '┬', '┐'),
                "├───────┼───────┼───────┤\n"@ == rule_text('├', '┼', '┤'),
                "\n"@ == seq!['\n'],
                text@ == top + rows_text_upto(self@, i as int),
            decreases 9 - i,
        {
            let ghost held = text@;
            if i == 3 || i == 6 {
                text.append("├───────┼───────┼───────┤\n");
            }
            let row = self.get_row(i);
            let line = row.to_string();
            text.append(line.as_str());
            text.append("\n");
            proof {
                let divider = if i == 3 || i == 6 {
                    rule_text('├', '┼', '┤')
                } else {
                    Seq::<char>::empty()
                };
                assert(text@ =~= held + divider + row_text(row_cells(self@, i as int)) + seq![
                    '\n',
                ]);
                assert(text@ =~= top + rows_text_upto(self@, i + 1));
            }
            i += 1;
        }
        text.append("└───────┴───────┴───────┘\n");
        text
    }
}

} // verus!
