use rand::SeedableRng;
use rand_chacha::ChaCha8Rng;
use sudoku::board::Board;
use sudoku::generator::{assemble_board, generate_board};
use sudoku::removal::{clear_random_cells, remove_board_cells};

fn holds_each_digit_once(unit: [u8; 9]) -> bool {
    let mut sorted = unit;
    sorted.sort();
    sorted == [1, 2, 3, 4, 5, 6, 7, 8, 9]
}

fn only_emptied(before: &str, after: &Board) -> bool {
    before
        .bytes()
        .zip(after.representation().bytes())
        .all(|(old, new)| new == old || new == b'0')
}

#[test]
fn plain_recipe_gives_the_rotation_pattern() {
    let straight: Vec<usize> = (0..9).collect();
    let digits: Vec<usize> = (1..=9).collect();
    let board = assemble_board(&straight, &straight, &digits, &straight);
    assert_eq!(
        board.representation(),
        "123456789456789123789123456891234567234567891567891234678912345912345678345678912"
    );
    assert!(board.validate_board());
}

#[test]
fn recipe_orders_rows_columns_and_digits() {
    let base = vec![3, 1, 4, 0, 5, 8, 2, 6, 7];
    let columns = vec![1, 0, 2, 3, 5, 4, 8, 7, 6];
    let digits = vec![9, 8, 7, 6, 5, 4, 3, 2, 1];
    let rows = vec![2, 1, 0, 3, 4, 5, 7, 8, 6];
    let board = assemble_board(&base, &columns, &digits, &rows);
    assert_eq!(
        board.representation(),
        "372658149491723586865914237236895714589471623147362958628549371954137862713286495"
    );
    assert!(board.validate_board());
}

#[test]
fn generated_grid_is_a_solution() {
    for seed in 0..50 {
        let board = generate_board(seed);
        assert_eq!(board.count_hints(), 81);
        assert!(board.validate_board());
        for i in 0..9 {
            assert!(holds_each_digit_once(board.get_row(i).cells));
            assert!(holds_each_digit_once(board.get_column(i).cells));
            assert!(holds_each_digit_once(board.get_tile((i / 3, i % 3)).cells));
        }
    }
}

#[test]
fn same_seed_gives_the_same_grid() {
    for seed in [0, 1, 42, 12499731774094038275, u64::MAX] {
        assert_eq!(
            generate_board(seed).representation(),
            generate_board(seed).representation()
        );
    }
}

#[test]
fn seed_fixes_the_grid_across_runs() {
    assert_eq!(
        generate_board(42).representation(),
        "547681239816329574293754861972546183465813927138297456759468312321975648684132795"
    );
}

#[test]
fn different_seeds_give_different_grids() {
    let first = generate_board(1).representation();
    let second = generate_board(2).representation();
    let third = generate_board(3).representation();
    assert_ne!(first, second);
    assert_ne!(second, third);
    assert_ne!(first, third);
}

#[test]
fn grids_are_not_the_plain_pattern() {
    let plain =
        "123456789456789123789123456891234567234567891567891234678912345912345678345678912";
    let mut shuffled = 0;
    for seed in 0..10 {
        if generate_board(seed).representation() != plain {
            shuffled += 1;
        }
    }
    assert!(shuffled >= 9);
}

#[test]
fn removal_leaves_the_hints_it_reports() {
    for seed in 0..50 {
        let mut board = generate_board(seed);
        let solution = board.representation();
        let hints = remove_board_cells(&mut board, seed + 1000, 20, 30);
        assert!((20..30).contains(&hints));
        assert_eq!(board.count_hints(), hints as usize);
        let cleared = board.representation().bytes().filter(|&b| b == b'0').count() as i32;
        assert_eq!(cleared, 81 - hints);
        assert!(81 - 30 < cleared && cleared <= 81 - 20);
        assert!(only_emptied(&solution, &board));
        assert!(board.validate_board());
    }
}

#[test]
fn removal_draws_different_hint_counts() {
    let mut seen = [false; 30];
    for seed in 0..60 {
        let mut board = generate_board(0);
        let hints = remove_board_cells(&mut board, seed, 20, 30);
        seen[hints as usize] = true;
    }
    assert!(seen.iter().filter(|&&s| s).count() >= 5);
}

#[test]
fn removal_clears_different_cells() {
    let mut first = generate_board(0);
    let mut second = generate_board(0);
    remove_board_cells(&mut first, 1, 40, 41);
    remove_board_cells(&mut second, 2, 40, 41);
    assert_eq!(first.count_hints(), 40);
    assert_eq!(second.count_hints(), 40);
    assert_ne!(first.representation(), second.representation());
}

#[test]
fn removal_is_fixed_by_its_seed() {
    let mut first = generate_board(9);
    let mut second = generate_board(9);
    assert_eq!(
        remove_board_cells(&mut first, 77, 20, 30),
        remove_board_cells(&mut second, 77, 20, 30)
    );
    assert_eq!(first.representation(), second.representation());
}

#[test]
fn removal_with_a_single_hint_count() {
    let mut board = generate_board(5);
    assert_eq!(remove_board_cells(&mut board, 5, 17, 18), 17);
    assert_eq!(board.count_hints(), 17);
}

#[test]
fn removal_that_keeps_everything() {
    let mut board = generate_board(5);
    let solution = board.representation();
    assert_eq!(remove_board_cells(&mut board, 5, 81, 82), 81);
    assert_eq!(board.representation(), solution);
}

#[test]
fn removal_that_keeps_nothing() {
    let mut board = generate_board(5);
    assert_eq!(remove_board_cells(&mut board, 5, 0, 1), 0);
    assert_eq!(board.representation(), "0".repeat(81));
}

#[test]
fn removal_beyond_the_board_stops_at_its_edges() {
    let mut board = generate_board(5);
    let solution = board.representation();
    assert_eq!(remove_board_cells(&mut board, 5, 100, 101), 81);
    assert_eq!(board.representation(), solution);
    assert_eq!(remove_board_cells(&mut board, 5, -5, -4), 0);
    assert_eq!(board.representation(), "0".repeat(81));
}

#[test]
fn removal_from_a_puzzle_counts_what_is_left() {
    let puzzle =
        "530070000600195000098000060800060003400803001700020006060000280000419005000080079";
    let mut board = Board::new(puzzle.to_string());
    // 81 - 70 cells are to go, of the 30 that are filled.
    assert_eq!(remove_board_cells(&mut board, 3, 70, 71), 19);
    assert_eq!(board.count_hints(), 19);
    assert!(only_emptied(puzzle, &board));
}

#[test]
fn nth_filled_cell_is_counted_in_row_major_order() {
    let puzzle =
        "530070000600195000098000060800060003400803001700020006060000280000419005000080079";
    let mut board = Board::new(puzzle.to_string());
    assert_eq!(board.clear_nth_filled(0), 0);
    assert_eq!(board.clear_nth_filled(0), 1);
    assert_eq!(board.clear_nth_filled(1), 9);
    assert_eq!(board.clear_nth_filled(26), 80);
    assert_eq!(board.count_hints(), 26);
    assert_eq!(
        board.representation(),
        "000070000000195000098000060800060003400803001700020006060000280000419005000080070"
    );
}

#[test]
fn random_clearing_empties_the_number_asked_for() {
    for seed in 0..10 {
        let mut board = generate_board(seed);
        let solution = board.representation();
        let mut rng = ChaCha8Rng::seed_from_u64(seed);
        clear_random_cells(&mut board, &mut rng, 33);
        assert_eq!(board.count_hints(), 48);
        assert!(only_emptied(&solution, &board));
        clear_random_cells(&mut board, &mut rng, 48);
        assert_eq!(board.count_hints(), 0);
    }
}

#[test]
fn generated_puzzles_solve_or_give_up_cleanly() {
    for seed in 0..30 {
        let mut board = generate_board(seed);
        let cleared = 81 - remove_board_cells(&mut board, seed + 7, 20, 30);
        assert!(51 < cleared && cleared <= 61);
        let puzzle = board.representation();
        let mut rng = ChaCha8Rng::seed_from_u64(seed);
        let result = board.solve_board(&mut rng, 3_000);
        assert!(board.validate_board());
        assert!(puzzle
            .bytes()
            .zip(board.representation().bytes())
            .all(|(hint, cell)| hint == b'0' || hint == cell));
        assert_eq!(result.is_ok(), board.count_hints() == 81);
    }
}

#[test]
fn removal_is_fixed_by_board_seed_and_bounds() {
    for seed in 0..20 {
        let mut first = generate_board(seed);
        let mut second = generate_board(seed);
        let left = remove_board_cells(&mut first, seed * 3 + 1, 25, 45);
        let again = remove_board_cells(&mut second, seed * 3 + 1, 25, 45);
        assert_eq!(left, again);
        assert_eq!(first.representation(), second.representation());
    }
}

#[test]
fn random_clearing_is_fixed_by_the_generator() {
    let mut first = generate_board(4);
    let mut second = generate_board(4);
    let mut rng = ChaCha8Rng::seed_from_u64(8);
    let mut twin = ChaCha8Rng::seed_from_u64(8);
    clear_random_cells(&mut first, &mut rng, 40);
    clear_random_cells(&mut second, &mut twin, 40);
    assert_eq!(first.representation(), second.representation());
    assert!(rng == twin);
}
