use sudoku::board::{Board, SudokuRow};

const CLASSIC: &str =
    "530070000600195000098000060800060003400803001700020006060000280000419005000080079";

#[test]
fn row_is_drawn_between_vertical_lines() {
    let board = Board::new(CLASSIC.to_string());
    assert_eq!(board.get_row(0).to_string(), "│ 5 3   │   7   │       │");
    assert_eq!(board.get_row(7).to_string(), "│       │ 4 1 9 │     5 │");
    let full = SudokuRow { cells: [1, 2, 3, 4, 5, 6, 7, 8, 9] };
    assert_eq!(full.to_string(), "│ 1 2 3 │ 4 5 6 │ 7 8 9 │");
    let empty = SudokuRow { cells: [0; 9] };
    assert_eq!(empty.to_string(), "│       │       │       │");
}

#[test]
fn values_beyond_nine_are_drawn_in_full() {
    let wide = SudokuRow { cells: [10, 0, 255, 1, 2, 3, 4, 5, 100] };
    assert_eq!(wide.to_string(), "│ 10   255 │ 1 2 3 │ 4 5 100 │");
}

#[test]
fn board_is_drawn_in_a_frame() {
    let board = Board::new(CLASSIC.to_string());
    let expected = [
        "┌───────┬───────┬───────┐",
        "│ 5 3   │   7   │       │",
        "│ 6     │ 1 9 5 │       │",
        "│   9 8 │       │   6   │",
        "├───────┼───────┼───────┤",
        "│ 8     │   6   │     3 │",
        "│ 4     │ 8   3 │     1 │",
        "│ 7     │   2   │     6 │",
        "├───────┼───────┼───────┤",
        "│   6   │       │ 2 8   │",
        "│       │ 4 1 9 │     5 │",
        "│       │   8   │   7 9 │",
        "└───────┴───────┴───────┘",
        "",
    ]
    .join("\n");
    assert_eq!(board.draw_board(), expected);
}
