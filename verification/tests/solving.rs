use rand::SeedableRng;
use rand_chacha::ChaCha8Rng;
use sudoku::board::Board;
use sudoku::moves::BoardMove;
use sudoku::solver::SolveError;

const CLASSIC: &str =
    "530070000600195000098000060800060003400803001700020006060000280000419005000080079";
const CLASSIC_SOLVED: &str =
    "534678912672195348198342567859761423426853791713924856961537284287419635345286179";

/// A board whose last cell of the first row sees 1..=8 in its row and 9 in its column.
fn dead_end() -> String {
    let mut text = String::from("123456780");
    text.push_str("000000009");
    text.push_str(&"0".repeat(63));
    text
}

fn keeps_the_hints(puzzle: &str, board: &Board) -> bool {
    puzzle
        .bytes()
        .zip(board.representation().bytes())
        .all(|(hint, cell)| hint == b'0' || hint == cell)
}

#[test]
fn classic_puzzle_solves_to_its_solution() {
    let mut board = Board::new(CLASSIC.to_string());
    let mut rng = ChaCha8Rng::seed_from_u64(7);
    let result = board.solve_board(&mut rng, 100_000);
    assert_eq!(result, Ok(()));
    assert_eq!(board.representation(), CLASSIC_SOLVED);
    assert!(board.validate_board());
}

#[test]
fn classic_puzzle_solves_whatever_the_seed() {
    for seed in 0..20 {
        let mut board = Board::new(CLASSIC.to_string());
        let mut rng = ChaCha8Rng::seed_from_u64(seed);
        assert_eq!(board.solve_board(&mut rng, 100_000), Ok(()));
        assert_eq!(board.representation(), CLASSIC_SOLVED);
    }
}

#[test]
fn solved_board_is_left_alone() {
    let mut board = Board::new(CLASSIC_SOLVED.to_string());
    let mut rng = ChaCha8Rng::seed_from_u64(1);
    assert_eq!(board.solve_board(&mut rng, 0), Ok(()));
    assert_eq!(board.representation(), CLASSIC_SOLVED);
    assert_eq!(board.solve_board(&mut rng, 1000), Ok(()));
    assert_eq!(board.representation(), CLASSIC_SOLVED);
}

#[test]
fn solving_twice_changes_nothing_more() {
    let mut board = Board::new(CLASSIC.to_string());
    let mut rng = ChaCha8Rng::seed_from_u64(3);
    assert_eq!(board.solve_board(&mut rng, 100_000), Ok(()));
    let first = board.representation();
    assert_eq!(board.solve_board(&mut rng, 100_000), Ok(()));
    assert_eq!(board.representation(), first);
}

#[test]
fn step_limit_is_reported() {
    let mut board = Board::new("0".repeat(81));
    let mut rng = ChaCha8Rng::seed_from_u64(1);
    assert_eq!(board.solve_board(&mut rng, 1), Err(SolveError::StepLimit));
    assert_eq!(board.count_hints(), 1);
    let mut untouched = Board::new(CLASSIC.to_string());
    assert_eq!(untouched.solve_board(&mut rng, 0), Err(SolveError::StepLimit));
    assert_eq!(untouched.representation(), CLASSIC);
}

#[test]
fn dead_end_without_history_is_unsolvable() {
    let mut board = Board::new(dead_end());
    let mut rng = ChaCha8Rng::seed_from_u64(1);
    assert_eq!(board.solve_board(&mut rng, 1000), Err(SolveError::Unsolvable));
    assert_eq!(board.representation(), dead_end());
}

#[test]
fn puzzle_without_a_solution_is_never_reported_solved() {
    // The classic puzzle with a wrong digit in the third cell.
    let puzzle = CLASSIC.replacen("530", "531", 1);
    for seed in 0..5 {
        let mut board = Board::new(puzzle.clone());
        let mut rng = ChaCha8Rng::seed_from_u64(seed);
        let result = board.solve_board(&mut rng, 2_000);
        assert!(result.is_err());
        assert!(board.count_hints() < 81);
        assert!(keeps_the_hints(&puzzle, &board));
        assert!(board.validate_board());
    }
}

#[test]
fn empty_board_is_filled_by_the_rules() {
    for seed in 0..5 {
        let mut board = Board::new("0".repeat(81));
        let mut rng = ChaCha8Rng::seed_from_u64(seed);
        let result = board.solve_board(&mut rng, 5_000);
        assert!(board.validate_board());
        assert_eq!(result.is_ok(), board.count_hints() == 81);
    }
}

#[test]
fn single_candidate_is_written_without_a_move() {
    let mut board = Board::new(CLASSIC.to_string());
    let mut history: Vec<BoardMove> = Vec::new();
    let ((row, col), options) = board.find_least_entropy().unwrap();
    assert_eq!(((row, col), options.clone()), ((4, 4), vec![5]));
    let next = board.collapse(&mut history, row, col, &options);
    assert_eq!(board.cell(4, 4), 5);
    assert_eq!(board.count_hints(), 31);
    assert!(history.is_empty());
    assert_eq!(next, board.find_least_entropy());
}

#[test]
fn single_candidate_becomes_a_cascade_of_the_latest_move() {
    let mut board = Board::new(CLASSIC.to_string());
    board.set_cell(0, 2, 4);
    let mut history = vec![BoardMove::new([0, 2], 4, Vec::new())];
    let next = board.collapse(&mut history, 4, 4, &vec![5]);
    assert_eq!(next, Some(((4, 1), vec![2])));
    assert_eq!(history.len(), 1);
    assert_eq!(history[0].position(), [0, 2]);
    assert_eq!(history[0].new_value(), 4);
    // Taking the move back takes the forced cell back with it.
    board.undo_move(&history[0]);
    assert_eq!(board.representation(), CLASSIC);
}

#[test]
fn choice_among_equals_takes_the_first_and_records_a_move() {
    let mut board = Board::new("0".repeat(81));
    let mut history: Vec<BoardMove> = Vec::new();
    let options: Vec<u8> = (1..=9).collect();
    let next = board.collapse(&mut history, 0, 0, &options);
    assert_eq!(board.cell(0, 0), 1);
    assert_eq!(board.count_hints(), 1);
    assert_eq!(history.len(), 1);
    assert_eq!(history[0].position(), [0, 0]);
    assert_eq!(history[0].new_value(), 1);
    assert_eq!(next, Some(((0, 1), vec![2, 3, 4, 5, 6, 7, 8, 9])));
}

#[test]
fn choice_prefers_the_smallest_outlook() {
    // (0, 3) may take 4, 6 or 8. With a 4 the next cell is left 3 candidates,
    // with a 6 or an 8 it is left 2: the 6 comes first.
    let puzzle =
        "000000010070005340100302000000700003006000000710900800960000004080000600000000000";
    let mut board = Board::new(puzzle.to_string());
    let found = board.find_least_entropy().unwrap();
    assert_eq!(found, ((0, 3), vec![4, 6, 8]));
    let mut history: Vec<BoardMove> = Vec::new();
    let next = board.collapse(&mut history, 0, 3, &found.1);
    assert_eq!(board.cell(0, 3), 6);
    assert_eq!(next, Some(((1, 3), vec![1, 8])));
    assert_eq!(history.len(), 1);
    assert_eq!(history[0].position(), [0, 3]);
    assert_eq!(history[0].new_value(), 6);
    assert_eq!(board.count_hints(), 21);
}

#[test]
fn choice_of_a_later_option_over_an_earlier() {
    // (4, 4) may take 5 or 6; the 6 leaves a single candidate to the next cell.
    let puzzle =
        "000008910072190000100002000009700020020000001700924000900030000007409005040280000";
    let mut board = Board::new(puzzle.to_string());
    let found = board.find_least_entropy().unwrap();
    assert_eq!(found, ((4, 4), vec![5, 6]));
    let mut history: Vec<BoardMove> = Vec::new();
    let next = board.collapse(&mut history, 4, 4, &found.1);
    assert_eq!(board.cell(4, 4), 6);
    assert_eq!(next, Some(((7, 4), vec![1])));
    assert_eq!(history[0].new_value(), 6);
}

#[test]
fn last_empty_cell_is_filled_without_a_move() {
    // A single empty cell with several candidates needs a board that breaks
    // the rules elsewhere: every other cell holds a 3.
    let mut cells = [3u8; 81];
    cells[0] = 0;
    let mut board = Board::from_cells(cells);
    let options = board.calculate_entropy_at_cell(0, 0).unwrap();
    assert_eq!(options, vec![1, 2, 4, 5, 6, 7, 8, 9]);
    let mut history: Vec<BoardMove> = Vec::new();
    let next = board.collapse(&mut history, 0, 0, &options);
    assert_eq!(next, None);
    assert_eq!(board.cell(0, 0), 1);
    assert!(history.is_empty());
}

#[test]
fn undo_clears_the_move_and_its_cascades() {
    let mut board = Board::new(CLASSIC_SOLVED.to_string());
    let taken = BoardMove::new([0, 0], 5, vec![[0, 1], [8, 8], [4, 4]]);
    board.undo_move(&taken);
    assert_eq!(board.cell(0, 0), 0);
    assert_eq!(board.cell(0, 1), 0);
    assert_eq!(board.cell(8, 8), 0);
    assert_eq!(board.cell(4, 4), 0);
    assert_eq!(board.count_hints(), 77);
    assert_eq!(board.cell(0, 2), 4);
}

#[test]
fn substitutes_leave_out_the_failed_digit() {
    let board = Board::new(CLASSIC.to_string());
    assert_eq!(board.calculate_entropy_at_cell(0, 2), Some(vec![1, 2, 4]));
    let failed = BoardMove::new([0, 2], 4, Vec::new());
    assert_eq!(board.viable_substitutes(&failed), vec![1, 2]);
    let other = BoardMove::new([0, 2], 1, Vec::new());
    assert_eq!(board.viable_substitutes(&other), vec![2, 4]);
}

#[test]
fn substitutes_leave_out_what_ends_in_a_dead_end() {
    // (0, 0) may take 1..=9, but a 9 there leaves (0, 8) without a candidate.
    let mut text = String::from("000000000");
    text.push_str(&"0".repeat(72));
    let mut board = Board::new(text);
    for col in 1..8 {
        board.set_cell(0, col, col as u8);
    }
    board.set_cell(1, 8, 8);
    // Row 0 is now _ 1 2 3 4 5 6 7 _ and (0, 8) may take 9 only.
    assert_eq!(board.calculate_entropy_at_cell(0, 8), Some(vec![9]));
    assert_eq!(board.calculate_entropy_at_cell(0, 0), Some(vec![8, 9]));
    let failed = BoardMove::new([0, 0], 1, Vec::new());
    assert_eq!(board.viable_substitutes(&failed), vec![8]);
}

#[test]
fn redecide_writes_the_substitute_and_records_it() {
    let mut board = Board::new(CLASSIC.to_string());
    let failed = BoardMove::new([0, 2], 4, Vec::new());
    let mut history: Vec<BoardMove> = Vec::new();
    let next = board.redecide(&mut history, &failed, 2);
    assert_eq!(board.cell(0, 2), 2);
    assert_eq!(history.len(), 1);
    assert_eq!(history[0].position(), [0, 2]);
    assert_eq!(history[0].new_value(), 2);
    assert_eq!(next, ((0, 3), vec![6]));
}

#[test]
fn backtrack_takes_back_the_move_and_tries_another_digit() {
    for seed in 0..20 {
        let mut board = Board::new(CLASSIC.to_string());
        board.set_cell(0, 2, 4);
        board.set_cell(4, 4, 5);
        let mut history = vec![BoardMove::new([0, 2], 4, vec![[4, 4]])];
        let mut rng = ChaCha8Rng::seed_from_u64(seed);
        let next = board.backtrack(&mut history, &mut rng);
        assert_eq!(board.cell(4, 4), 0);
        assert_eq!(history.len(), 1);
        assert_eq!(history[0].position(), [0, 2]);
        let value = history[0].new_value();
        assert_eq!(board.cell(0, 2), value);
        assert_eq!(board.count_hints(), 31);
        match value {
            1 => assert_eq!(next, Some(((2, 0), vec![2]))),
            2 => assert_eq!(next, Some(((0, 3), vec![6]))),
            other => panic!("{other} is no substitute"),
        }
    }
}

#[test]
fn backtrack_picks_each_substitute_for_some_seed() {
    let mut seen = [false; 10];
    for seed in 0..40 {
        let mut board = Board::new(CLASSIC.to_string());
        board.set_cell(0, 2, 4);
        let mut history = vec![BoardMove::new([0, 2], 4, Vec::new())];
        let mut rng = ChaCha8Rng::seed_from_u64(seed);
        assert!(board.backtrack(&mut history, &mut rng).is_some());
        seen[board.cell(0, 2) as usize] = true;
    }
    assert!(seen[1] && seen[2]);
    assert!(!seen[4]);
}

#[test]
fn backtrack_goes_further_back_when_a_move_has_no_substitute() {
    // The later move sits on a cell that had a single candidate, so only
    // the earlier move can be decided anew.
    let mut board = Board::new(CLASSIC.to_string());
    board.set_cell(0, 2, 4);
    board.set_cell(4, 4, 5);
    let mut history = vec![
        BoardMove::new([0, 2], 4, Vec::new()),
        BoardMove::new([4, 4], 5, Vec::new()),
    ];
    let mut rng = ChaCha8Rng::seed_from_u64(11);
    let next = board.backtrack(&mut history, &mut rng);
    assert!(next.is_some());
    assert_eq!(history.len(), 1);
    assert_eq!(history[0].position(), [0, 2]);
    assert!(history[0].new_value() == 1 || history[0].new_value() == 2);
    assert_eq!(board.cell(4, 4), 0);
    assert_eq!(board.cell(0, 2), history[0].new_value());
}

#[test]
fn backtrack_without_moves_finds_nothing() {
    let mut board = Board::new(CLASSIC.to_string());
    let mut history: Vec<BoardMove> = Vec::new();
    let mut rng = ChaCha8Rng::seed_from_u64(5);
    assert_eq!(board.backtrack(&mut history, &mut rng), None);
    assert_eq!(board.representation(), CLASSIC);
}

#[test]
fn backtrack_that_runs_out_of_moves_leaves_them_undone() {
    let mut board = Board::new(CLASSIC.to_string());
    board.set_cell(4, 4, 5);
    let mut history = vec![BoardMove::new([4, 4], 5, Vec::new())];
    let mut rng = ChaCha8Rng::seed_from_u64(5);
    assert_eq!(board.backtrack(&mut history, &mut rng), None);
    assert!(history.is_empty());
    assert_eq!(board.representation(), CLASSIC);
}

#[test]
fn solved_board_draws_nothing_from_the_generator() {
    let mut board = Board::new(CLASSIC_SOLVED.to_string());
    let mut rng = ChaCha8Rng::seed_from_u64(9);
    let before = rng.clone();
    assert_eq!(board.solve_board(&mut rng, 1000), Ok(()));
    assert!(rng == before);
    assert_eq!(rng.get_word_pos(), before.get_word_pos());
}

#[test]
fn collapse_draws_nothing_from_the_generator() {
    // The classic puzzle is solved without a single backtracking.
    let mut board = Board::new(CLASSIC.to_string());
    let mut rng = ChaCha8Rng::seed_from_u64(9);
    let before = rng.clone();
    assert_eq!(board.solve_board(&mut rng, 100_000), Ok(()));
    assert!(rng == before);
}

#[test]
fn backtrack_is_fixed_by_the_generator() {
    for seed in 0..10 {
        let mut picks = Vec::new();
        for _ in 0..2 {
            let mut board = Board::new(CLASSIC.to_string());
            board.set_cell(0, 2, 4);
            let mut history = vec![BoardMove::new([0, 2], 4, Vec::new())];
            let mut rng = ChaCha8Rng::seed_from_u64(seed);
            let next = board.backtrack(&mut history, &mut rng);
            picks.push((board.representation(), next, rng.get_word_pos()));
        }
        assert_eq!(picks[0], picks[1]);
    }
}

#[test]
fn backtrack_without_a_substitute_draws_nothing() {
    let mut board = Board::new(CLASSIC.to_string());
    board.set_cell(4, 4, 5);
    let mut history = vec![BoardMove::new([4, 4], 5, Vec::new())];
    let mut rng = ChaCha8Rng::seed_from_u64(5);
    let before = rng.clone();
    assert_eq!(board.backtrack(&mut history, &mut rng), None);
    assert!(rng == before);
}

#[test]
fn solving_is_fixed_by_the_generator() {
    let puzzle = CLASSIC.replacen("530", "531", 1);
    for seed in 0..5 {
        let mut outcomes = Vec::new();
        for _ in 0..2 {
            let mut board = Board::new(puzzle.clone());
            let mut rng = ChaCha8Rng::seed_from_u64(seed);
            let result = board.solve_board(&mut rng, 500);
            outcomes.push((result, board.representation(), rng.get_word_pos()));
        }
        assert_eq!(outcomes[0], outcomes[1]);
    }
}
