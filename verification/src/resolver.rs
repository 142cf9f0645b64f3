//! The puzzle engine: a 9x9 board, a cursor, and the operations that read,
//! write, validate, and solve.

use vstd::prelude::*;

use crate::rules::{
    board_wf, cell, completion, full, in_bounds, lemma_cells_of_update,
    lemma_completion_after_place, lemma_completion_avoids_conflict, lemma_completion_of_full,
    lemma_completion_unplace, lemma_full_board_completes_itself, ok_at, same_unit, solvable,
};

verus! {

/// The scan list `fills`, from position `i` on, holds exactly the empty
/// cells of the board `g`: every entry is an in-bounds cell, entries never
/// repeat, every listed cell from `i` on is empty, and every empty cell of
/// the board appears in the list at or after position `i`.
spec fn fill_list_ok(g: Seq<u8>, fills: Seq<(usize, usize)>, i: int) -> bool {
    &&& forall|k: int|
        #![trigger fills[k]]
        0 <= k < fills.len() ==> in_bounds(fills[k].0 as int, fills[k].1 as int)
    &&& forall|k1: int, k2: int|
        #![trigger fills[k1], fills[k2]]
        0 <= k1 < k2 < fills.len() ==> fills[k1] != fills[k2]
    &&& forall|k: int|
        #![trigger fills[k]]
        i <= k < fills.len() ==> cell(g, fills[k].0 as int, fills[k].1 as int) == 0
    &&& forall|x: int, y: int|
        in_bounds(x, y) && #[trigger] cell(g, x, y) == 0 ==> exists|k: int|
            i <= k < fills.len() && (#[trigger] fills[k]).0 as int == x && fills[k].1 as int == y
}

/// A Sudoku puzzle and its state.
///
/// The board is stored as a flat row-major vector of 81 values; cell
/// `(x, y)` lives at index `x * 9 + y`. `0` is an empty cell, `1..=9` a
/// placed digit.
pub struct SudokuResolver {
    /// The current state of the Sudoku puzzle.
    pub sudoku: Vec<u8>,
    /// The currently selected cell, as (row, column); both coordinates are
    /// `usize::MAX` while no cell is selected.
    pub selected: (usize, usize),
    /// Whether or not to show an invalid move message.
    pub show_invalid_state: bool,
    /// The value of the invalid move.
    pub invalid_move_value: u8,
}

impl SudokuResolver {
    /// The board as a mathematical sequence.
    pub open spec fn board(self) -> Seq<u8> {
        self.sudoku@
    }

    /// The board has 81 cells, each holding a value in `0..=9`.
    pub open spec fn wf(self) -> bool {
        board_wf(self.sudoku@)
    }

    /// The cursor addresses a cell of the board.
    pub open spec fn cursor_in_bounds(self) -> bool {
        self.selected.0 < 9 && self.selected.1 < 9
    }
}

impl SudokuResolver {
    /// Selects the cell at `(row, col)` as the target of `get`, `set`, and
    /// `is_valid_move`.
    pub fn set_cursor(&mut self, row: usize, col: usize)
        requires
            row < 9,
            col < 9,
        ensures
            final(self).selected == (row, col),
            final(self).sudoku == old(self).sudoku,
            final(self).show_invalid_state == old(self).show_invalid_state,
            final(self).invalid_move_value == old(self).invalid_move_value,
    {
        self.selected = (row, col);
    }

    /// Gets the value of the currently selected cell in the puzzle.
    pub fn get(&self) -> (v: u8)
        requires
            self.wf(),
            self.cursor_in_bounds(),
        ensures
            v == cell(self.board(), self.selected.0 as int, self.selected.1 as int),
            v <= 9,
    {
        self.sudoku[self.selected.0 * 9 + self.selected.1]
    }

    /// Sets the value of the currently selected cell in the puzzle. No
    /// validation is performed; validation is the caller's responsibility.
    pub fn set(&mut self, value: u8)
        requires
            old(self).wf(),
            old(self).cursor_in_bounds(),
            value <= 9,
        ensures
            final(self).wf(),
            final(self).sudoku@ == old(self).sudoku@.update(
                old(self).selected.0 * 9 + old(self).selected.1,
                value,
            ),
            cell(final(self).board(), old(self).selected.0 as int, old(self).selected.1 as int)
                == value,
            forall|x: int, y: int|
                in_bounds(x, y) && !(x == old(self).selected.0 && y == old(self).selected.1)
                    ==> #[trigger] cell(final(self).board(), x, y) == cell(
                    old(self).board(),
                    x,
                    y,
                ),
            final(self).selected == old(self).selected,
            final(self).show_invalid_state == old(self).show_invalid_state,
            final(self).invalid_move_value == old(self).invalid_move_value,
    {
        let row = self.selected.0;
        let col = self.selected.1;
        self.put(row, col, value);
    }

    /// Writes `value` at cell `(x, y)`, leaving every other cell and all
    /// other fields unchanged.
    fn put(&mut self, x: usize, y: usize, value: u8)
        requires
            old(self).wf(),
            x < 9,
            y < 9,
            value <= 9,
        ensures
            final(self).wf(),
            final(self).sudoku@ == old(self).sudoku@.update(x as int * 9 + y as int, value),
            cell(final(self).board(), x as int, y as int) == value,
            forall|a: int, b: int|
                in_bounds(a, b) && !(a == x && b == y) ==> #[trigger] cell(
                    final(self).board(),
                    a,
                    b,
                ) == cell(old(self).board(), a, b),
            final(self).selected == old(self).selected,
            final(self).show_invalid_state == old(self).show_invalid_state,
            final(self).invalid_move_value == old(self).invalid_move_value,
    {
        let idx = x * 9 + y;
        self.sudoku[idx] = value;
        proof {
            lemma_cells_of_update(old(self).sudoku@, x as int, y as int, value);
        }
    }

    /// Checks whether placing `value` at cell `(x, y)` violates no Sudoku
    /// rule: true iff no *other* cell of the same row, column, or 3x3
    /// subgrid already holds `value`. The cell's own current value is
    /// excluded from the comparison.
    fn valid_at(&self, x: usize, y: usize, value: u8) -> (r: bool)
        requires
            self.wf(),
            x < 9,
            y < 9,
        ensures
            r == ok_at(self.board(), x as int, y as int, value),
    {
        let g = &self.sudoku;
        // Check the row
        let mut j: usize = 0;
        while j < 9
            invariant
                self.wf(),
                x < 9,
                y < 9,
                j <= 9,
                g == self.sudoku,
                forall|jj: int|
                    0 <= jj < j && jj != y ==> #[trigger] cell(self.board(), x as int, jj)
                        != value,
            decreases 9 - j,
        {
            if g[x * 9 + j] == value && j != y {
                assert(cell(self.board(), x as int, j as int) == value);
                assert(!ok_at(self.board(), x as int, y as int, value));
                return false;
            }
            j = j + 1;
        }
        // Check the column
        let mut i: usize = 0;
        while i < 9
            invariant
                self.wf(),
                x < 9,
                y < 9,
                i <= 9,
                g == self.sudoku,
                forall|ii: int|
                    0 <= ii < i && ii != x ==> #[trigger] cell(self.board(), ii, y as int)
                        != value,
            decreases 9 - i,
        {
            if g[i * 9 + y] == value && i != x {
                assert(cell(self.board(), i as int, y as int) == value);
                assert(!ok_at(self.board(), x as int, y as int, value));
                return false;
            }
            i = i + 1;
        }
        // Check the subgrid
        let sx = x / 3 * 3;
        let sy = y / 3 * 3;
        let mut i: usize = sx;
        while i < sx + 3
            invariant
                self.wf(),
                x < 9,
                y < 9,
                sx == x / 3 * 3,
                sy == y / 3 * 3,
                sx <= i <= sx + 3,
                forall|ii: int, jj: int|
                    sx <= ii < i && sy <= jj < sy + 3 && !(ii == x && jj == y)
                        ==> #[trigger] cell(self.board(), ii, jj) != value,
            decreases sx + 3 - i,
        {
            let mut j: usize = sy;
            while j < sy + 3
                invariant
                    self.wf(),
                    x < 9,
                    y < 9,
                    sx == x / 3 * 3,
                    sy == y / 3 * 3,
                    sx <= i < sx + 3,
                    sy <= j <= sy + 3,
                    forall|ii: int, jj: int|
                        sx <= ii < i && sy <= jj < sy + 3 && !(ii == x && jj == y)
                            ==> #[trigger] cell(self.board(), ii, jj) != value,
                    forall|jj: int|
                        sy <= jj < j && !(i == x && jj == y) ==> #[trigger] cell(
                            self.board(),
                            i as int,
                            jj,
                        ) != value,
                decreases sy + 3 - j,
            {
                if self.sudoku[i * 9 + j] == value && !(i == x && j == y) {
                    assert(cell(self.board(), i as int, j as int) == value);
                    assert(same_unit(x as int, y as int, i as int, j as int));
                    assert(!ok_at(self.board(), x as int, y as int, value));
                    return false;
                }
                j = j + 1;
            }
            i = i + 1;
        }
        assert forall|ii: int, jj: int|
            in_bounds(ii, jj) && !(ii == x && jj == y) && same_unit(x as int, y as int, ii, jj)
            implies #[trigger] cell(self.board(), ii, jj) != value by {
            if ii == x {
                assert(cell(self.board(), x as int, jj) != value);
            } else if jj == y {
                assert(cell(self.board(), ii, y as int) != value);
            } else {
                assert(ii / 3 == x as int / 3 && jj / 3 == y as int / 3);
                assert(sx <= ii < sx + 3 && sy <= jj < sy + 3);
            }
        }
        true
    }

    /// The backtracking search. Fills the cells `to_fill[i..]` in list
    /// order, trying candidate digits ascending at each cell and
    /// retreating when none fits. Returns true exactly when the board as
    /// given admits a completion; on success the board holds one, on
    /// failure the board is exactly as it was.
    #[verifier::loop_isolation(false)]
    fn solve_from(&mut self, to_fill: &Vec<(usize, usize)>, i: usize) -> (r: bool)
        requires
            old(self).wf(),
            i <= to_fill@.len(),
            fill_list_ok(old(self).board(), to_fill@, i as int),
        ensures
            final(self).wf(),
            final(self).selected == old(self).selected,
            final(self).show_invalid_state == old(self).show_invalid_state,
            final(self).invalid_move_value == old(self).invalid_move_value,
            r ==> completion(final(self).board(), old(self).board()),
            !r ==> final(self).sudoku@ == old(self).sudoku@,
            r == solvable(old(self).board()),
        decreases to_fill@.len() - i,
    {
        let n = to_fill.len();
        if i == n {
            // No cell is empty any more, so the board is full and is a
            // completion of itself.
            proof {
                assert forall|x: int, y: int| in_bounds(x, y) implies 1 <= #[trigger] cell(
                    self.board(),
                    x,
                    y,
                ) <= 9 by {
                    assert(cell(self.board(), x, y) != 0);
                    assert(self.board()[x * 9 + y] <= 9);
                }
                assert(completion(self.board(), self.board()));
            }
            return true;
        }
        let pos = to_fill[i];
        let x = pos.0;
        let y = pos.1;
        proof {
            assert(in_bounds(x as int, y as int));
            assert(cell(self.board(), x as int, y as int) == 0);
        }
        let ghost g = self.sudoku@;
        let mut v: u8 = 1;
        while v <= 9
            invariant
                self.wf(),
                self.sudoku@ == g,
                self.selected == old(self).selected,
                self.show_invalid_state == old(self).show_invalid_state,
                self.invalid_move_value == old(self).invalid_move_value,
                1 <= v <= 10,
                // every completion of the board places at least v here:
                // smaller digits were tried and ruled out
                forall|gc: Seq<u8>| #[trigger] completion(gc, g) ==> cell(
                    gc,
                    x as int,
                    y as int,
                ) as int >= v as int,
            decreases 10 - v,
        {
            if self.valid_at(x, y, v) {
                self.put(x, y, v);
                let ghost g1 = self.sudoku@;
                proof {
                    // the list from i + 1 on matches the empties of the new board
                    assert forall|k: int|
                        #![trigger to_fill@[k]]
                        i + 1 <= k < to_fill@.len() implies cell(
                        g1,
                        to_fill@[k].0 as int,
                        to_fill@[k].1 as int,
                    ) == 0 by {
                        assert(to_fill@[k] != to_fill@[i as int]);
                    }
                    assert forall|a: int, b: int|
                        in_bounds(a, b) && #[trigger] cell(g1, a, b) == 0 implies exists|k: int|
                        i + 1 <= k < to_fill@.len() && (#[trigger] to_fill@[k]).0 as int == a
                            && to_fill@[k].1 as int == b by {
                        assert(!(a == x && b == y));
                        assert(cell(g, a, b) == 0);
                        let k = choose|k: int|
                            i <= k < to_fill@.len() && (#[trigger] to_fill@[k]).0 as int == a
                                && to_fill@[k].1 as int == b;
                        assert(k != i);
                        assert(i + 1 <= k < to_fill@.len() && to_fill@[k].0 as int == a
                            && to_fill@[k].1 as int == b);
                    }
                    assert(fill_list_ok(g1, to_fill@, i as int + 1));
                }
                let sub = self.solve_from(to_fill, i + 1);
                if sub {
                    proof {
                        lemma_completion_unplace(self.sudoku@, g, x as int, y as int, v);
                        assert(solvable(g));
                    }
                    return true;
                }
                // the search below found nothing: clear the cell and try
                // the next digit
                self.put(x, y, 0);
                proof {
                    assert(self.sudoku@ =~= g);
                    assert forall|gc: Seq<u8>| #[trigger] completion(gc, g) implies cell(
                        gc,
                        x as int,
                        y as int,
                    ) != v by {
                        if cell(gc, x as int, y as int) == v {
                            lemma_completion_after_place(gc, g, x as int, y as int, v);
                            assert(solvable(g1));
                        }
                    }
                }
            } else {
                proof {
                    assert forall|gc: Seq<u8>| #[trigger] completion(gc, g) implies cell(
                        gc,
                        x as int,
                        y as int,
                    ) != v by {
                        lemma_completion_avoids_conflict(gc, g, x as int, y as int, v);
                    }
                }
            }
            v = v + 1;
        }
        // every digit was ruled out at this cell, yet any completion would
        // have to place one of them here
        proof {
            assert forall|gc: Seq<u8>| !(#[trigger] completion(gc, g)) by {
                if completion(gc, g) {
                    assert(cell(gc, x as int, y as int) as int >= 10);
                    assert(1 <= cell(gc, x as int, y as int) <= 9);
                }
            }
            assert(!solvable(g));
        }
        false
    }

    /// Solves the Sudoku puzzle with a backtracking search over the cells
    /// that are empty when the call is made, scanning rows top to bottom
    /// and, within a row, columns left to right, and trying candidate
    /// digits in ascending order at each cell.
    ///
    /// Returns `Some(())` exactly when the board admits a completion: a
    /// full board that keeps every given and in which no cell that was
    /// empty holds a digit also held elsewhere in its row, column, or
    /// subgrid (a conflict already standing between two givens is not the
    /// solver's to mend; `rules::lemma_completion_of_consistent` shows a
    /// completion of a consistent board is fully consistent). On success
    /// the board holds such a completion; on failure every cell is exactly
    /// as it was, so the cells that were empty are still empty. A board
    /// with no empty cell reports success at once and stays unchanged. The
    /// selected cell and the message fields are never touched.
    pub fn solve(&mut self) -> (r: Option<()>)
        requires
            old(self).wf(),
        ensures
            final(self).wf(),
            final(self).selected == old(self).selected,
            final(self).show_invalid_state == old(self).show_invalid_state,
            final(self).invalid_move_value == old(self).invalid_move_value,
            r is Some ==> completion(final(self).board(), old(self).board()),
            r is None ==> final(self).sudoku@ == old(self).sudoku@,
            (r is Some) <==> solvable(old(self).board()),
            full(old(self).board()) ==> (r is Some && final(self).sudoku@ == old(self).sudoku@),
    {
        let ghost g0 = self.sudoku@;
        // List the empty cells once, in scan order.
        let mut to_fill: Vec<(usize, usize)> = Vec::new();
        let mut x: usize = 0;
        #[verifier::loop_isolation(false)]
        while x < 9
            invariant
                x <= 9,
                forall|k: int|
                    #![trigger to_fill@[k]]
                    0 <= k < to_fill@.len() ==> in_bounds(to_fill@[k].0 as int, to_fill@[k].1 as int)
                        && to_fill@[k].0 < x && cell(
                        g0,
                        to_fill@[k].0 as int,
                        to_fill@[k].1 as int,
                    ) == 0,
                forall|k1: int, k2: int|
                    #![trigger to_fill@[k1], to_fill@[k2]]
                    0 <= k1 < k2 < to_fill@.len() ==> to_fill@[k1] != to_fill@[k2],
                forall|a: int, b: int|
                    in_bounds(a, b) && a < x && #[trigger] cell(g0, a, b) == 0 ==> exists|k: int|
                        0 <= k < to_fill@.len() && (#[trigger] to_fill@[k]).0 as int == a
                            && to_fill@[k].1 as int == b,
            decreases 9 - x,
        {
            let mut y: usize = 0;
            #[verifier::loop_isolation(false)]
            while y < 9
                invariant
                    x < 9,
                    y <= 9,
                    forall|k: int|
                        #![trigger to_fill@[k]]
                        0 <= k < to_fill@.len() ==> in_bounds(
                            to_fill@[k].0 as int,
                            to_fill@[k].1 as int,
                        ) && (to_fill@[k].0 < x || (to_fill@[k].0 == x && to_fill@[k].1 < y))
                            && cell(g0, to_fill@[k].0 as int, to_fill@[k].1 as int) == 0,
                    forall|k1: int, k2: int|
                        #![trigger to_fill@[k1], to_fill@[k2]]
                        0 <= k1 < k2 < to_fill@.len() ==> to_fill@[k1] != to_fill@[k2],
                    forall|a: int, b: int|
                        in_bounds(a, b) && (a < x || (a == x && b < y)) && #[trigger] cell(
                            g0,
                            a,
                            b,
                        ) == 0 ==> exists|k: int|
                            0 <= k < to_fill@.len() && (#[trigger] to_fill@[k]).0 as int == a
                                && to_fill@[k].1 as int == b,
                decreases 9 - y,
            {
                let ghost fills_pre = to_fill@;
                let empty_here = self.sudoku[x * 9 + y] == 0;
                if empty_here {
                    to_fill.push((x, y));
                }
                proof {
                    assert forall|a: int, b: int|
                        in_bounds(a, b) && (a < x as int || (a == x as int && b < y as int + 1))
                            && #[trigger] cell(g0, a, b) == 0 implies exists|k: int|
                        0 <= k < to_fill@.len() && (#[trigger] to_fill@[k]).0 as int == a
                            && to_fill@[k].1 as int == b by {
                        if a == x as int && b == y as int {
                            // this very cell is empty, so it was pushed just now
                            assert(empty_here);
                            assert((to_fill@[to_fill@.len() - 1]).0 as int == a && to_fill@[
                                to_fill@.len() - 1
                            ].1 as int == b);
                        } else {
                            // covered before this step; pushing kept the prefix
                            let k = choose|k: int|
                                0 <= k < fills_pre.len() && (#[trigger] fills_pre[k]).0 as int == a
                                    && fills_pre[k].1 as int == b;
                            assert((to_fill@[k]).0 as int == a && to_fill@[k].1 as int == b);
                        }
                    }
                }
                y = y + 1;
            }
            x = x + 1;
        }
        proof {
            assert(fill_list_ok(g0, to_fill@, 0));
        }
        let ok = self.solve_from(&to_fill, 0);
        proof {
            if full(g0) {
                lemma_full_board_completes_itself(g0);
                lemma_completion_of_full(self.sudoku@, g0);
            }
        }
        if ok {
            Some(())
        } else {
            None
        }
    }

    /// Checks if placing `value` at the currently selected cell is valid
    /// according to the rules of Sudoku.
    ///
    /// Returns true iff no cell other than the selected one in the same
    /// row, column, or 3x3 subgrid currently holds `value`, so
    /// re-validating the existing value of a filled cell against itself
    /// does not fail.
    pub fn is_valid_move(&self, value: u8) -> (r: bool)
        requires
            self.wf(),
            self.cursor_in_bounds(),
        ensures
            r == ok_at(self.board(), self.selected.0 as int, self.selected.1 as int, value),
    {
        self.valid_at(self.selected.0, self.selected.1, value)
    }
}

impl Default for SudokuResolver {
    /// Creates a new `SudokuResolver` with an all-empty board and no
    /// selected cell.
    fn default() -> (s: Self)
        ensures
            s.wf(),
            s.board().len() == 81,
            forall|i: int| 0 <= i < 81 ==> #[trigger] s.board()[i] == 0,
            s.selected == (usize::MAX, usize::MAX),
            s.show_invalid_state == false,
            s.invalid_move_value == 0u8,
    {
        let mut board: Vec<u8> = Vec::new();
        let mut i: usize = 0;
        while i < 81
            invariant
                i <= 81,
                board@.len() == i,
                forall|k: int| 0 <= k < i ==> #[trigger] board@[k] == 0,
            decreases 81 - i,
        {
            board.push(0);
            i = i + 1;
        }
        SudokuResolver {
            sudoku: board,
            selected: (usize::MAX, usize::MAX),
            show_invalid_state: false,
            invalid_move_value: 0,
        }
    }
}

} // verus!
