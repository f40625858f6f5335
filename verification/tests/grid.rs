use sudoku::board::Board;

const CLASSIC: &str =
    "530070000600195000098000060800060003400803001700020006060000280000419005000080079";
const CLASSIC_SOLVED: &str =
    "534678912672195348198342567859761423426853791713924856961537284287419635345286179";

#[test]
fn rows_are_read_left_to_right() {
    let board = Board::new(CLASSIC.to_string());
    assert_eq!(board.get_row(0).cells, [5, 3, 0, 0, 7, 0, 0, 0, 0]);
    assert_eq!(board.get_row(4).cells, [4, 0, 0, 8, 0, 3, 0, 0, 1]);
    assert_eq!(board.get_row(8).cells, [0, 0, 0, 0, 8, 0, 0, 7, 9]);
}

#[test]
fn columns_are_read_top_to_bottom() {
    let board = Board::new(CLASSIC.to_string());
    assert_eq!(board.get_column(0).cells, [5, 6, 0, 8, 4, 7, 0, 0, 0]);
    assert_eq!(board.get_column(4).cells, [7, 9, 0, 6, 0, 2, 0, 1, 8]);
    assert_eq!(board.get_column(8).cells, [0, 0, 0, 3, 1, 6, 0, 5, 9]);
}

#[test]
fn tiles_are_read_row_by_row() {
    let board = Board::new(CLASSIC.to_string());
    assert_eq!(board.get_tile((0, 0)).cells, [5, 3, 0, 6, 0, 0, 0, 9, 8]);
    assert_eq!(board.get_tile((1, 1)).cells, [0, 6, 0, 8, 0, 3, 0, 2, 0]);
    assert_eq!(board.get_tile((2, 2)).cells, [2, 8, 0, 0, 0, 5, 0, 7, 9]);
    assert_eq!(board.get_tile((0, 2)).cells, [0, 0, 0, 0, 0, 0, 0, 6, 0]);
    assert_eq!(board.get_tile((2, 0)).cells, [0, 6, 0, 0, 0, 0, 0, 0, 0]);
}

#[test]
fn cells_are_addressed_by_row_and_column() {
    let mut board = Board::new(CLASSIC.to_string());
    assert_eq!(board.cell(0, 1), 3);
    assert_eq!(board.cell(1, 0), 6);
    assert_eq!(board.cell(8, 8), 9);
    board.set_cell(0, 2, 4);
    assert_eq!(board.get_row(0).cells, [5, 3, 4, 0, 7, 0, 0, 0, 0]);
    let copy = board.with_cell(8, 0, 3);
    assert_eq!(copy.cell(8, 0), 3);
    assert_eq!(board.cell(8, 0), 0);
}

#[test]
fn representation_round_trips() {
    let board = Board::new(CLASSIC.to_string());
    let text = board.representation();
    assert_eq!(text, CLASSIC);
    let again = Board::new(text);
    for row in 0..9 {
        assert_eq!(again.get_row(row).cells, board.get_row(row).cells);
    }
}

#[test]
fn array_and_text_give_the_same_board() {
    let mut cells = [0u8; 81];
    for (i, c) in CLASSIC.chars().enumerate() {
        cells[i] = c.to_digit(10).unwrap() as u8;
    }
    assert_eq!(Board::from_cells(cells).representation(), CLASSIC);
}

#[test]
fn malformed_text_is_refused() {
    assert!(Board::parse("").is_none());
    assert!(Board::parse(&CLASSIC[..80]).is_none());
    assert!(Board::parse(&format!("{CLASSIC}0")).is_none());
    assert!(Board::parse(&CLASSIC.replace('7', "x")).is_none());
    assert!(Board::parse(&CLASSIC.replacen('5', " ", 1)).is_none());
    assert!(Board::parse(&CLASSIC.replacen('5', "٣", 1)).is_none());
    assert!(Board::parse(&CLASSIC.replacen('5', "/", 1)).is_none());
    assert!(Board::parse(&CLASSIC.replacen('5', ":", 1)).is_none());
    assert!(Board::parse(CLASSIC).is_some());
}

#[test]
fn solved_board_is_valid() {
    assert!(Board::new(CLASSIC_SOLVED.to_string()).validate_board());
}

#[test]
fn puzzle_without_repeats_is_valid() {
    assert!(Board::new(CLASSIC.to_string()).validate_board());
    assert!(Board::new("0".repeat(81)).validate_board());
}

#[test]
fn repeat_in_a_row_is_invalid() {
    // The first row of the solved board, with its second digit turned into a 5.
    let text = CLASSIC_SOLVED.replacen("534", "554", 1);
    let board = Board::new(text);
    assert_eq!(board.count_hints(), 81);
    assert!(!board.validate_board());
}

#[test]
fn repeat_in_a_late_column_is_invalid() {
    let mut board = Board::new("0".repeat(81));
    board.set_cell(3, 7, 4);
    board.set_cell(8, 7, 4);
    assert!(!board.validate_board());
}

#[test]
fn repeat_in_a_late_row_is_invalid() {
    let mut board = Board::new("0".repeat(81));
    board.set_cell(6, 0, 2);
    board.set_cell(6, 8, 2);
    assert!(!board.validate_board());
}

#[test]
fn repeat_in_a_tile_is_invalid() {
    let mut board = Board::new("0".repeat(81));
    board.set_cell(3, 3, 9);
    board.set_cell(4, 4, 9);
    assert!(!board.validate_board());
}

#[test]
fn empty_cells_do_not_count_as_repeats() {
    let mut board = Board::new("0".repeat(81));
    board.set_cell(0, 0, 1);
    board.set_cell(0, 8, 2);
    board.set_cell(8, 0, 3);
    assert!(board.validate_board());
}

#[test]
fn hints_are_counted() {
    assert_eq!(Board::new(CLASSIC.to_string()).count_hints(), 30);
    assert_eq!(Board::new(CLASSIC_SOLVED.to_string()).count_hints(), 81);
    assert_eq!(Board::new("0".repeat(81)).count_hints(), 0);
}
