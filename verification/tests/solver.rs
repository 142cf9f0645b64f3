use sudoku_resolver::resolver::SudokuResolver;
use sudoku_resolver::rules::BOARD_SIZE;

/// Builds a board from a list of (row, column, digit) givens.
fn board_with(givens: &[(usize, usize, u8)]) -> SudokuResolver {
    let mut r = SudokuResolver::default();
    for &(x, y, v) in givens {
        r.set_cursor(x, y);
        r.set(v);
    }
    r
}

/// Builds a board from nine rows of nine digits.
fn board_from_rows(rows: [[u8; 9]; 9]) -> SudokuResolver {
    let mut r = SudokuResolver::default();
    for x in 0..9 {
        for y in 0..9 {
            r.set_cursor(x, y);
            r.set(rows[x][y]);
        }
    }
    r
}

/// A complete, rule-valid board: each row is the previous one shifted,
/// so every row, column, and subgrid holds 1..=9 exactly once.
fn full_valid_rows() -> [[u8; 9]; 9] {
    [
        [1, 2, 3, 4, 5, 6, 7, 8, 9],
        [4, 5, 6, 7, 8, 9, 1, 2, 3],
        [7, 8, 9, 1, 2, 3, 4, 5, 6],
        [2, 3, 4, 5, 6, 7, 8, 9, 1],
        [5, 6, 7, 8, 9, 1, 2, 3, 4],
        [8, 9, 1, 2, 3, 4, 5, 6, 7],
        [3, 4, 5, 6, 7, 8, 9, 1, 2],
        [6, 7, 8, 9, 1, 2, 3, 4, 5],
        [9, 1, 2, 3, 4, 5, 6, 7, 8],
    ]
}

/// Checks that the board is completely filled and that every cell's value
/// is consistent with the rest of its row, column, and subgrid, using the
/// engine's own validator (which excludes the queried cell itself).
fn assert_solved(r: &mut SudokuResolver) {
    for x in 0..BOARD_SIZE {
        for y in 0..BOARD_SIZE {
            r.set_cursor(x, y);
            let v = r.get();
            assert!((1..=9).contains(&v), "cell ({x},{y}) left empty or out of range: {v}");
            assert!(r.is_valid_move(v), "cell ({x},{y}) holding {v} conflicts with its unit");
        }
    }
}

#[test]
fn default_board_is_empty() {
    let mut r = SudokuResolver::default();
    assert_eq!(r.selected, (usize::MAX, usize::MAX));
    assert!(!r.show_invalid_state);
    assert_eq!(r.invalid_move_value, 0);
    for x in 0..BOARD_SIZE {
        for y in 0..BOARD_SIZE {
            r.set_cursor(x, y);
            assert_eq!(r.get(), 0);
        }
    }
}

#[test]
fn set_then_get_reads_back() {
    let mut r = SudokuResolver::default();
    r.set_cursor(3, 7);
    r.set(6);
    assert_eq!(r.get(), 6);
    r.set_cursor(3, 6);
    assert_eq!(r.get(), 0, "a neighbouring cell must stay untouched");
    r.set_cursor(3, 7);
    r.set(0);
    assert_eq!(r.get(), 0, "a cell can be cleared again");
}

#[test]
fn valid_move_rejects_row_conflict() {
    // two 9s already stand in row 2; a third cell of that row may not take 9
    let mut r = board_with(&[(2, 0, 9), (2, 5, 9)]);
    r.set_cursor(2, 8);
    assert!(!r.is_valid_move(9));
    assert!(r.is_valid_move(1));
}

#[test]
fn valid_move_rejects_column_conflict() {
    let mut r = board_with(&[(0, 4, 7)]);
    r.set_cursor(8, 4);
    assert!(!r.is_valid_move(7));
    assert!(r.is_valid_move(6));
}

#[test]
fn valid_move_rejects_subgrid_conflict() {
    // (4, 4) and (3, 5) share the central subgrid but no row or column
    let mut r = board_with(&[(4, 4, 3)]);
    r.set_cursor(3, 5);
    assert!(!r.is_valid_move(3));
    assert!(r.is_valid_move(4));
}

#[test]
fn valid_move_ignores_own_cell() {
    // re-validating the value a cell already holds must not fail on itself
    let mut r = board_with(&[(6, 2, 5)]);
    r.set_cursor(6, 2);
    assert!(r.is_valid_move(5));
    // but another value conflicting elsewhere in the unit is still caught
    r.set_cursor(6, 1);
    assert!(!r.is_valid_move(5));
}

#[test]
fn solve_fills_empty_board() {
    let mut r = SudokuResolver::default();
    r.set_cursor(5, 5);
    let before_cursor = r.selected;
    assert!(r.solve().is_some());
    assert_eq!(r.selected, before_cursor, "solve must not move the cursor");
    assert_solved(&mut r);
}

#[test]
fn solve_keeps_givens() {
    let givens = [(0, 0, 5), (1, 3, 2), (4, 4, 9), (8, 8, 1), (6, 0, 7)];
    let mut r = board_with(&givens);
    assert!(r.solve().is_some());
    for &(x, y, v) in &givens {
        r.set_cursor(x, y);
        assert_eq!(r.get(), v, "the given at ({x},{y}) was not preserved");
    }
    assert_solved(&mut r);
}

#[test]
fn solve_on_full_board_changes_nothing() {
    let mut r = board_from_rows(full_valid_rows());
    let before = r.sudoku.clone();
    assert!(r.solve().is_some());
    assert_eq!(r.sudoku, before);
}

#[test]
fn solve_fills_last_missing_digit() {
    // clear one cell of a complete board: its row, column, and subgrid
    // hold the eight other digits, so only the cleared one can return
    let mut rows = full_valid_rows();
    let cleared = rows[4][4];
    rows[4][4] = 0;
    let mut r = board_from_rows(rows);
    assert!(r.solve().is_some());
    r.set_cursor(4, 4);
    assert_eq!(r.get(), cleared);
    assert_solved(&mut r);
}

#[test]
fn solve_reports_failure_on_conflicting_givens() {
    // row 0 starts with two 9s; together with the rest of the row and
    // column 8, the one empty cell of row 0 has no candidate left
    let mut r = board_with(&[
        (0, 0, 9),
        (0, 1, 9),
        (0, 2, 2),
        (0, 3, 3),
        (0, 4, 4),
        (0, 5, 5),
        (0, 6, 6),
        (0, 7, 7),
        (1, 8, 1),
        (2, 8, 8),
    ]);
    let before = r.sudoku.clone();
    assert!(r.solve().is_none());
    assert_eq!(r.sudoku, before, "a failed solve must leave every cell as it was");
}

#[test]
fn solve_reports_failure_on_consistent_but_unsolvable_givens() {
    // the givens respect the rules pairwise, yet cell (0, 0) can take
    // nothing: 1..=8 stand in its row and 9 in its subgrid
    let mut r = board_with(&[
        (0, 1, 1),
        (0, 2, 2),
        (0, 3, 3),
        (0, 4, 4),
        (0, 5, 5),
        (0, 6, 6),
        (0, 7, 7),
        (0, 8, 8),
        (2, 0, 9),
    ]);
    let before = r.sudoku.clone();
    assert!(r.solve().is_none());
    assert_eq!(r.sudoku, before);
    // clearing the blocking 9 makes the board solvable again
    r.set_cursor(2, 0);
    r.set(0);
    assert!(r.solve().is_some());
    assert_solved(&mut r);
}

#[test]
fn solve_leaves_message_fields_alone() {
    let mut r = SudokuResolver::default();
    r.show_invalid_state = true;
    r.invalid_move_value = 4;
    assert!(r.solve().is_some());
    assert!(r.show_invalid_state);
    assert_eq!(r.invalid_move_value, 4);
}
