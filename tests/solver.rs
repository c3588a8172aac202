use sudoku_solver::board::SudokuBoard;
use sudoku_solver::cell::{encode_to_decimal, SudokuCell};
use sudoku_solver::geometry::{block_to_board, board_to_block};
use sudoku_solver::parse::parse_board;
use sudoku_solver::search::backtace_solver;

const PUZZLE: &str = "53..7....\n6..195...\n.98....6.\n8...6...3\n4..8.3..1\n7...2...6\n.6....28.\n...419..5\n....8..79\n";

const SOLUTION: &str = "534678912\n672195348\n198342567\n859761423\n426853791\n713924856\n961537284\n287419635\n345286179\n";

fn board_of(text: &str) -> SudokuBoard {
    parse_board(text.to_string()).expect("digits inside the frame")
}

fn solve_all(text: &str) -> Vec<SudokuBoard> {
    let mut board = board_of(text);
    let mut solutions: Vec<SudokuBoard> = Vec::new();
    backtace_solver(&mut board, &mut solutions);
    solutions
}

fn with_cell(text: &str, row: usize, col: usize, ch: char) -> String {
    let mut lines: Vec<Vec<char>> = text.lines().map(|l| l.chars().collect()).collect();
    lines[row][col] = ch;
    let mut out = String::new();
    for l in lines {
        out.extend(l);
        out.push('\n');
    }
    out
}

#[test]
fn block_corner_and_index() {
    assert_eq!(block_to_board(0), (0, 0));
    assert_eq!(block_to_board(5), (3, 6));
    assert_eq!(block_to_board(7), (6, 3));
    assert_eq!(board_to_block(4, 7), 5);
    assert_eq!(board_to_block(8, 0), 6);
    assert_eq!(board_to_block(2, 2), 0);
}

#[test]
fn decimal_of_single_candidate() {
    let mut a = [false; 9];
    a[6] = true;
    assert_eq!(encode_to_decimal(&a), 7);
    let mut first = [false; 9];
    first[0] = true;
    assert_eq!(encode_to_decimal(&first), 1);
    let mut last = [false; 9];
    last[8] = true;
    assert_eq!(encode_to_decimal(&last), 9);
}

#[test]
fn decimal_of_empty_or_several_candidates_is_zero() {
    assert_eq!(encode_to_decimal(&[false; 9]), 0);
    let mut two = [false; 9];
    two[0] = true;
    two[1] = true;
    assert_eq!(encode_to_decimal(&two), 0);
    assert_eq!(encode_to_decimal(&[true; 9]), 0);
}

#[test]
fn parse_counts_places_in_characters() {
    let b = board_of("\u{e9}5\n\u{4e2d}\u{1f600}7\n");
    let c = b.get_cell(0, 1);
    assert!(c.is_locked());
    assert_eq!(c.get_value(), 5);
    assert!(!b.get_cell(0, 2).is_locked());
    assert_eq!(b.get_cell(1, 2).get_value(), 7);
    let mut expected = String::from(".5.......\n..7......\n");
    expected.push_str(&".........\n".repeat(7));
    assert_eq!(b.stringify(), expected);
}

#[test]
fn fresh_cell_has_all_candidates() {
    let c = SudokuCell::new();
    assert_eq!(c.get_value_vec(), vec![1, 2, 3, 4, 5, 6, 7, 8, 9]);
    assert!(!c.is_locked());
    assert!(!c.no_possible_value());
    assert_eq!(c.get_value(), 0);
    assert_eq!(c.stringify(), ".");
}

#[test]
fn removing_candidates_and_locking() {
    let mut c = SudokuCell::new();
    let mut mask = [true; 9];
    mask[3] = false;
    mask[8] = false;
    c.remove_possible_values(&mask);
    assert_eq!(c.get_value_vec(), vec![4, 9]);
    assert!(!c.apply_lock());
    let mut nine = [false; 9];
    nine[8] = true;
    c.remove_possible_values(&nine);
    assert_eq!(c.get_value_vec(), vec![4]);
    assert!(c.apply_lock());
    assert!(c.is_locked());
    assert_eq!(c.get_value(), 4);
    assert_eq!(c.stringify(), "4");
    assert_eq!(c.get_value_vec(), Vec::<u8>::new());
    // a locked cell ignores removal and a second lock
    c.remove_possible_values(&[true; 9]);
    assert_eq!(c.get_value(), 4);
    assert!(!c.apply_lock());
}

#[test]
fn contradictory_cell_shows_zero() {
    let mut c = SudokuCell::new();
    c.remove_possible_values(&[true; 9]);
    assert!(c.no_possible_value());
    assert_eq!(c.stringify(), "0");
    assert!(!c.apply_lock());
    let mut b = SudokuBoard::new_empty_board();
    assert!(!b.has_impossible_cells());
    assert!(b.set_values(vec![(0, 0, 1), (0, 1, 1)]));
    assert!(!b.is_valid());
    b.solve_row(0);
    assert!(!b.has_impossible_cells());
}

#[test]
fn empty_board_renders_dots() {
    let b = SudokuBoard::new_empty_board();
    let line = ".........\n";
    assert_eq!(b.stringify(), line.repeat(9));
    assert!(b.is_valid());
    assert!(!b.is_solved());
    assert!(!b.has_impossible_cells());
}

#[test]
fn set_values_rejects_out_of_range() {
    let mut b = SudokuBoard::new_empty_board();
    assert!(!b.set_values(vec![(0, 0, 5), (9, 0, 1)]));
    assert!(!b.set_values(vec![(0, 9, 1)]));
    assert!(!b.set_values(vec![(0, 0, 0)]));
    assert!(!b.set_values(vec![(0, 0, 10)]));
    assert_eq!(b.stringify(), ".........\n".repeat(9));
    assert!(b.set_values(vec![(2, 3, 8)]));
    assert_eq!(b.get_cell(2, 3).get_value(), 8);
    assert!(b.get_cell(2, 3).is_locked());
}

#[test]
fn parse_rejects_digit_outside_frame() {
    assert!(parse_board("1234567891\n".to_string()).is_none());
    let mut ten_lines = ".........\n".repeat(9);
    ten_lines.push_str("5........\n");
    assert!(parse_board(ten_lines).is_none());
    assert!(parse_board(String::new()).is_some());
}

#[test]
fn parse_treats_zero_and_other_characters_as_open() {
    let b = board_of("0x.-?*#a \n");
    assert_eq!(b.stringify(), ".........\n".repeat(9));
}

#[test]
fn render_round_trip_keeps_givens() {
    let b = board_of(PUZZLE);
    let shown = b.stringify();
    assert_eq!(shown, PUZZLE);
    for (line_in, line_out) in PUZZLE.lines().zip(shown.lines()) {
        for (a, o) in line_in.chars().zip(line_out.chars()) {
            if a.is_ascii_digit() {
                assert_eq!(a, o);
            }
        }
    }
}

#[test]
fn known_values_of_groups() {
    let b = board_of(PUZZLE);
    let row0 = b.known_rows(0);
    // row 0 holds 5, 3, 7
    assert_eq!(row0, [false, false, true, false, true, false, true, false, false]);
    let col0 = b.known_cols(0);
    // column 0 holds 5, 6, 8, 4, 7
    assert_eq!(col0, [false, false, false, true, true, true, true, true, false]);
    let blk0 = b.known_blks(0);
    // block 0 holds 5, 3, 6, 9, 8
    assert_eq!(blk0, [false, false, true, false, true, true, false, true, true]);
    assert!(b.is_valid_row(0) && b.is_valid_col(0) && b.is_valid_blk(0));
}

#[test]
fn propagation_strikes_known_digits_from_group() {
    let mut b = board_of(PUZZLE);
    b.solve_row(0);
    for c in 0..9 {
        let cell = b.get_cell(0, c);
        if !cell.is_locked() {
            for v in cell.get_value_vec() {
                assert!(v != 5 && v != 3 && v != 7);
            }
        }
    }
    b.solve_col(4);
    let cell = b.get_cell(2, 4);
    // column 4 holds 7, 9, 6, 2, 1, 8
    assert_eq!(cell.get_value_vec(), vec![3, 4, 5]);
    b.solve_blk(8);
    let cell = b.get_cell(6, 8);
    // block 8 holds 2, 8, 5, 7, 9
    assert!(!cell.get_value_vec().contains(&9));
}

#[test]
fn propagation_loop_twice_changes_nothing() {
    let mut b = board_of(PUZZLE);
    b.solve_board();
    let first: Vec<(bool, Vec<u8>, u8)> = (0..81)
        .map(|i| {
            let c = b.get_cell(i / 9, i % 9);
            (c.is_locked(), c.get_value_vec(), c.get_value())
        })
        .collect();
    b.solve_board();
    let second: Vec<(bool, Vec<u8>, u8)> = (0..81)
        .map(|i| {
            let c = b.get_cell(i / 9, i % 9);
            (c.is_locked(), c.get_value_vec(), c.get_value())
        })
        .collect();
    assert_eq!(first, second);
    assert!(!b.apply_lock_board());
}

#[test]
fn conflicting_givens_are_invalid_and_unsolvable() {
    let row_clash = with_cell(PUZZLE, 0, 2, '5');
    assert!(!board_of(&row_clash).is_valid());
    assert!(solve_all(&row_clash).is_empty());
    let col_clash = with_cell(PUZZLE, 2, 0, '5');
    assert!(!board_of(&col_clash).is_valid());
    assert!(solve_all(&col_clash).is_empty());
    let blk_clash = with_cell(PUZZLE, 1, 1, '9');
    assert!(!board_of(&blk_clash).is_valid());
    assert!(solve_all(&blk_clash).is_empty());
}

#[test]
fn well_known_puzzle_has_its_published_solution() {
    let solutions = solve_all(PUZZLE);
    assert_eq!(solutions.len(), 1);
    let s = &solutions[0];
    assert!(s.is_solved());
    assert!(s.is_valid());
    assert!(!s.has_impossible_cells());
    assert_eq!(s.stringify(), SOLUTION);
}

#[test]
fn elimination_alone_solves_an_easy_board() {
    let mut text = SOLUTION.to_string();
    for (r, c) in [(0, 0), (1, 4), (2, 8), (3, 1), (4, 5), (5, 7), (6, 2), (7, 3), (8, 6)] {
        text = with_cell(&text, r, c, '.');
    }
    let mut b = board_of(&text);
    assert!(!b.is_solved());
    b.solve_board();
    assert!(b.is_solved());
    assert_eq!(b.stringify(), SOLUTION);
}

#[test]
fn single_open_cell_is_completed() {
    let text = with_cell(SOLUTION, 4, 4, '.');
    let mut b = board_of(&text);
    assert!(!b.get_cell(4, 4).is_locked());
    let mut solutions: Vec<SudokuBoard> = Vec::new();
    backtace_solver(&mut b, &mut solutions);
    assert_eq!(solutions.len(), 1);
    assert_eq!(solutions[0].get_cell(4, 4).get_value(), 5);
    assert_eq!(solutions[0].stringify(), SOLUTION);
}

#[test]
fn search_enumerates_every_solution_in_order() {
    let mut text = SOLUTION.to_string();
    for (r, c) in [(0, 3), (0, 4), (3, 3), (3, 4)] {
        text = with_cell(&text, r, c, '.');
    }
    let solutions = solve_all(&text);
    assert_eq!(solutions.len(), 2);
    assert_eq!(solutions[0].stringify(), SOLUTION);
    let mut other = with_cell(SOLUTION, 0, 3, '7');
    other = with_cell(&other, 0, 4, '6');
    other = with_cell(&other, 3, 3, '6');
    other = with_cell(&other, 3, 4, '7');
    assert_eq!(solutions[1].stringify(), other);
    assert!(solutions[1].is_solved());
}

#[test]
fn search_keeps_earlier_solutions() {
    let mut solutions = solve_all(PUZZLE);
    let mut b = board_of(&with_cell(SOLUTION, 8, 8, '.'));
    backtace_solver(&mut b, &mut solutions);
    assert_eq!(solutions.len(), 2);
    assert_eq!(solutions[0].stringify(), SOLUTION);
    assert_eq!(solutions[1].stringify(), SOLUTION);
}

#[test]
fn duplicate_is_independent() {
    let b = board_of(PUZZLE);
    let mut d = b.duplicate();
    d.solve_board();
    assert_eq!(b.stringify(), PUZZLE);
    assert_ne!(d.stringify(), PUZZLE);
}
