//! The mathematical model of a Sudoku board.
//!
//! A board is a flat sequence of 81 cell values in row-major order; `0`
//! denotes an empty cell and `1..=9` a placed digit. The predicates here
//! say when a placement is legal, when a whole board is consistent, and
//! what it means for one board to be a solved form of another.

use vstd::arithmetic::div_mod::{lemma_div_multiples_vanish_fancy, lemma_fundamental_div_mod};
use vstd::prelude::*;
use vstd::set_lib::{lemma_int_range, lemma_len_subset, set_int_range};

verus! {

/// Number of rows and columns of the board.
pub const BOARD_SIZE: usize = 9;

/// Coordinates address a cell when both lie in `0..9`.
pub open spec fn in_bounds(x: int, y: int) -> bool {
    0 <= x < 9 && 0 <= y < 9
}

/// A board is a sequence of 81 values, each in `0..=9`.
pub open spec fn board_wf(g: Seq<u8>) -> bool {
    &&& g.len() == 81
    &&& forall|i: int| 0 <= i < 81 ==> #[trigger] g[i] <= 9
}

/// The value of cell `(x, y)` (row `x`, column `y`).
pub open spec fn cell(g: Seq<u8>, x: int, y: int) -> u8 {
    g[x * 9 + y]
}

/// Two cells constrain each other when they share a row, a column, or a
/// 3x3 subgrid; the subgrid origin is each coordinate floored to a
/// multiple of 3.
pub open spec fn same_unit(x1: int, y1: int, x2: int, y2: int) -> bool {
    ||| x1 == x2
    ||| y1 == y2
    ||| (x1 / 3 == x2 / 3 && y1 / 3 == y2 / 3)
}

/// Value `v` may stand at `(x, y)`: no cell other than `(x, y)` itself in
/// the same row, column, or subgrid holds `v`.
pub open spec fn ok_at(g: Seq<u8>, x: int, y: int, v: u8) -> bool {
    forall|i: int, j: int|
        in_bounds(i, j) && !(i == x && j == y) && same_unit(x, y, i, j) ==> #[trigger] cell(
            g,
            i,
            j,
        ) != v
}

/// No two distinct filled cells of the same unit hold the same value.
pub open spec fn no_conflicts(g: Seq<u8>) -> bool {
    forall|x: int, y: int|
        in_bounds(x, y) && #[trigger] cell(g, x, y) != 0 ==> ok_at(g, x, y, cell(g, x, y))
}

/// Every cell holds a digit `1..=9`.
pub open spec fn full(g: Seq<u8>) -> bool {
    forall|x: int, y: int| in_bounds(x, y) ==> 1 <= #[trigger] cell(g, x, y) <= 9
}

/// Every filled cell of `g0` keeps its value in `g`.
pub open spec fn extends(g: Seq<u8>, g0: Seq<u8>) -> bool {
    forall|x: int, y: int|
        in_bounds(x, y) && #[trigger] cell(g0, x, y) != 0 ==> cell(g, x, y) == cell(g0, x, y)
}

/// `g` is a board that solving `g0` may produce: it is complete, it keeps
/// every given of `g0`, and every cell that was empty in `g0` holds a value
/// that no other cell of its row, column, or subgrid holds. Conflicts that
/// already stood between two givens of `g0` are not the solver's to mend,
/// so they are not excluded here; `lemma_completion_of_consistent` shows
/// that they are the only conflicts a completion can have.
pub open spec fn completion(g: Seq<u8>, g0: Seq<u8>) -> bool {
    &&& g.len() == 81
    &&& g0.len() == 81
    &&& full(g)
    &&& extends(g, g0)
    &&& forall|x: int, y: int|
        in_bounds(x, y) && #[trigger] cell(g0, x, y) == 0 ==> ok_at(g, x, y, cell(g, x, y))
}

/// The board `g0` admits a completion.
pub open spec fn solvable(g0: Seq<u8>) -> bool {
    exists|g: Seq<u8>| completion(g, g0)
}

/// A completion of a board whose givens do not conflict with one another
/// is a fully consistent board.
pub proof fn lemma_completion_of_consistent(g: Seq<u8>, g0: Seq<u8>)
    requires
        completion(g, g0),
        no_conflicts(g0),
    ensures
        no_conflicts(g),
        full(g),
{
    assert forall|x: int, y: int|
        in_bounds(x, y) && #[trigger] cell(g, x, y) != 0 implies ok_at(g, x, y, cell(g, x, y)) by {
        let v = cell(g, x, y);
        if cell(g0, x, y) == 0 {
            // the completion placed v here and vouches for it
        } else {
            assert forall|i: int, j: int|
                in_bounds(i, j) && !(i == x && j == y) && same_unit(x, y, i, j)
                implies #[trigger] cell(g, i, j) != v by {
                if cell(g, i, j) == v {
                    if cell(g0, i, j) == 0 {
                        // (i, j) was filled by the solver, so nothing else in
                        // its unit may hold v -- but (x, y) does
                        assert(ok_at(g, i, j, cell(g, i, j)));
                        assert(same_unit(i, j, x, y));
                        assert(cell(g, x, y) != v);
                    } else {
                        // both cells are givens, contradicting no_conflicts(g0)
                        assert(cell(g0, x, y) == v && cell(g0, i, j) == v);
                        assert(ok_at(g0, x, y, cell(g0, x, y)));
                        assert(cell(g0, i, j) != v);
                    }
                }
            }
        }
    }
}

/// Distinct in-bounds cells live at distinct flat indices, so an update at
/// one cell leaves every other cell's value unchanged.
pub proof fn lemma_cells_of_update(g: Seq<u8>, x: int, y: int, v: u8)
    requires
        g.len() == 81,
        in_bounds(x, y),
    ensures
        cell(g.update(x * 9 + y, v), x, y) == v,
        forall|i: int, j: int|
            in_bounds(i, j) && !(i == x && j == y) ==> #[trigger] cell(
                g.update(x * 9 + y, v),
                i,
                j,
            ) == cell(g, i, j),
{
    assert forall|i: int, j: int|
        in_bounds(i, j) && !(i == x && j == y) implies #[trigger] cell(
        g.update(x * 9 + y, v),
        i,
        j,
    ) == cell(g, i, j) by {
        assert(i * 9 + j != x * 9 + y);
    }
}

/// A completion that holds `v` at an empty cell of `g0` is also a
/// completion of `g0` with `v` already written into that cell.
pub proof fn lemma_completion_after_place(gc: Seq<u8>, g0: Seq<u8>, x: int, y: int, v: u8)
    requires
        completion(gc, g0),
        in_bounds(x, y),
        cell(g0, x, y) == 0,
        cell(gc, x, y) == v,
    ensures
        completion(gc, g0.update(x * 9 + y, v)),
{
    let g1 = g0.update(x * 9 + y, v);
    lemma_cells_of_update(g0, x, y, v);
    assert(1 <= cell(gc, x, y) <= 9);
    assert forall|a: int, b: int|
        in_bounds(a, b) && #[trigger] cell(g1, a, b) != 0 implies cell(gc, a, b) == cell(
        g1,
        a,
        b,
    ) by {
        if !(a == x && b == y) {
            assert(cell(g1, a, b) == cell(g0, a, b));
        }
    }
    assert forall|a: int, b: int|
        in_bounds(a, b) && #[trigger] cell(g1, a, b) == 0 implies ok_at(gc, a, b, cell(gc, a, b)) by {
        assert(!(a == x && b == y));
        assert(cell(g0, a, b) == 0);
    }
}

/// A completion of `g0` with `v` legally written into an empty cell is
/// already a completion of `g0` itself.
pub proof fn lemma_completion_unplace(gc: Seq<u8>, g0: Seq<u8>, x: int, y: int, v: u8)
    requires
        board_wf(g0),
        in_bounds(x, y),
        cell(g0, x, y) == 0,
        1 <= v <= 9,
        ok_at(g0, x, y, v),
        completion(gc, g0.update(x * 9 + y, v)),
    ensures
        completion(gc, g0),
{
    let g1 = g0.update(x * 9 + y, v);
    lemma_cells_of_update(g0, x, y, v);
    assert forall|a: int, b: int|
        in_bounds(a, b) && #[trigger] cell(g0, a, b) != 0 implies cell(gc, a, b) == cell(
        g0,
        a,
        b,
    ) by {
        assert(!(a == x && b == y));
        assert(cell(g1, a, b) == cell(g0, a, b));
    }
    assert(cell(g1, x, y) == v && cell(gc, x, y) == v);
    assert forall|a: int, b: int|
        in_bounds(a, b) && #[trigger] cell(g0, a, b) == 0 implies ok_at(gc, a, b, cell(gc, a, b)) by {
        if a == x && b == y {
            assert forall|i: int, j: int|
                in_bounds(i, j) && !(i == x && j == y) && same_unit(x, y, i, j)
                implies #[trigger] cell(gc, i, j) != v by {
                if cell(gc, i, j) == v {
                    if cell(g1, i, j) == 0 {
                        // the completion vouches for (i, j), and (x, y) lies in
                        // the same unit yet holds the same value
                        assert(ok_at(gc, i, j, cell(gc, i, j)));
                        assert(same_unit(i, j, x, y));
                        assert(cell(gc, x, y) != v);
                    } else {
                        // (i, j) already held v in g0, against ok_at(g0, x, y, v)
                        assert(cell(g0, i, j) == cell(g1, i, j));
                        assert(cell(gc, i, j) == cell(g1, i, j));
                        assert(cell(g0, i, j) != v);
                    }
                }
            }
        } else {
            assert(cell(g1, a, b) == 0);
        }
    }
}

/// If some other cell of the unit of `(x, y)` already holds `v`, then no
/// completion puts `v` at the empty cell `(x, y)`.
pub proof fn lemma_completion_avoids_conflict(gc: Seq<u8>, g0: Seq<u8>, x: int, y: int, v: u8)
    requires
        completion(gc, g0),
        in_bounds(x, y),
        cell(g0, x, y) == 0,
        1 <= v,
        !ok_at(g0, x, y, v),
    ensures
        cell(gc, x, y) != v,
{
    let (i, j): (int, int) = choose|i: int, j: int|
        in_bounds(i, j) && !(i == x && j == y) && same_unit(x, y, i, j) && #[trigger] cell(
            g0,
            i,
            j,
        ) == v;
    assert(in_bounds(i, j) && !(i == x && j == y) && same_unit(x, y, i, j) && cell(g0, i, j) == v);
    assert(cell(gc, i, j) == v);
    if cell(gc, x, y) == v {
        assert(ok_at(gc, x, y, cell(gc, x, y)));
        assert(cell(gc, i, j) != v);
    }
}

/// A completion of a board that was already full is that board itself.
pub proof fn lemma_completion_of_full(g: Seq<u8>, g0: Seq<u8>)
    requires
        completion(g, g0),
        full(g0),
    ensures
        g == g0,
{
    assert forall|idx: int| 0 <= idx < 81 implies g[idx] == g0[idx] by {
        let x = idx / 9;
        let y = idx % 9;
        vstd::arithmetic::div_mod::lemma_fundamental_div_mod(idx, 9);
        vstd::arithmetic::div_mod::lemma_mod_division_less_than_divisor(idx, 9);
        assert(0 <= y < 9);
        assert(idx == 9 * x + y);
        assert(in_bounds(x, y));
        assert(cell(g0, x, y) != 0);
        assert(cell(g, x, y) == cell(g0, x, y));
    }
    assert(g =~= g0);
}

/// Row `x` holds the digit `d` somewhere.
pub open spec fn row_contains(g: Seq<u8>, x: int, d: u8) -> bool {
    exists|y: int| 0 <= y < 9 && cell(g, x, y) == d
}

/// Column `y` holds the digit `d` somewhere.
pub open spec fn col_contains(g: Seq<u8>, y: int, d: u8) -> bool {
    exists|x: int| 0 <= x < 9 && cell(g, x, y) == d
}

/// The 3x3 subgrid with origin `(3 * bx, 3 * by)` holds the digit `d`
/// somewhere.
pub open spec fn subgrid_contains(g: Seq<u8>, bx: int, by: int, d: u8) -> bool {
    exists|i: int, j: int|
        3 * bx <= i < 3 * bx + 3 && 3 * by <= j < 3 * by + 3 && cell(g, i, j) == d
}

/// Nine pairwise distinct values drawn from `1..=9` use every such digit.
proof fn lemma_nine_distinct_digits_cover(vals: Seq<u8>, d: u8)
    requires
        vals.len() == 9,
        forall|k: int| 0 <= k < 9 ==> 1 <= #[trigger] vals[k] <= 9,
        forall|k1: int, k2: int|
            #![trigger vals[k1], vals[k2]]
            0 <= k1 < k2 < 9 ==> vals[k1] != vals[k2],
        1 <= d <= 9,
    ensures
        exists|k: int| 0 <= k < 9 && vals[k] == d,
{
    broadcast use vstd::set::group_set_axioms;

    let ivals = Seq::new(9, |k: int| vals[k] as int);
    assert(ivals.no_duplicates()) by {
        assert forall|k1: int, k2: int|
            0 <= k1 < ivals.len() && 0 <= k2 < ivals.len() && k1 != k2 implies ivals[k1]
            != ivals[k2] by {
            if k1 < k2 {
                assert(vals[k1] != vals[k2]);
            } else {
                assert(vals[k2] != vals[k1]);
            }
        }
    }
    ivals.unique_seq_to_set();
    lemma_int_range(1, 10);
    if !ivals.to_set().contains(d as int) {
        let smaller = set_int_range(1, 10).remove(d as int);
        assert forall|v: int| ivals.to_set().contains(v) implies smaller.contains(v) by {
            let k = choose|k: int| 0 <= k < ivals.len() && ivals[k] == v;
            assert(1 <= vals[k] <= 9);
        }
        lemma_len_subset(ivals.to_set(), smaller);
        assert(smaller.len() == 8);
        assert(false);
    }
    let k = choose|k: int| 0 <= k < ivals.len() && ivals[k] == d as int;
    assert(0 <= k < 9 && vals[k] == d);
}

/// In a full board without conflicts, every row, every column, and every
/// 3x3 subgrid holds each digit `1..=9` -- and, a unit having only nine
/// cells that by the last three clauses never repeat a digit, each
/// exactly once.
pub proof fn lemma_units_complete(g: Seq<u8>)
    requires
        board_wf(g),
        full(g),
        no_conflicts(g),
    ensures
        forall|x: int, d: u8| 0 <= x < 9 && 1 <= d <= 9 ==> #[trigger] row_contains(g, x, d),
        forall|y: int, d: u8| 0 <= y < 9 && 1 <= d <= 9 ==> #[trigger] col_contains(g, y, d),
        forall|bx: int, by: int, d: u8|
            0 <= bx < 3 && 0 <= by < 3 && 1 <= d <= 9 ==> #[trigger] subgrid_contains(
                g,
                bx,
                by,
                d,
            ),
        forall|x: int, y1: int, y2: int|
            #![trigger cell(g, x, y1), cell(g, x, y2)]
            0 <= x < 9 && 0 <= y1 < 9 && 0 <= y2 < 9 && y1 != y2 ==> cell(g, x, y1) != cell(
                g,
                x,
                y2,
            ),
        forall|x1: int, x2: int, y: int|
            #![trigger cell(g, x1, y), cell(g, x2, y)]
            0 <= x1 < 9 && 0 <= x2 < 9 && 0 <= y < 9 && x1 != x2 ==> cell(g, x1, y) != cell(
                g,
                x2,
                y,
            ),
        forall|i1: int, j1: int, i2: int, j2: int|
            #![trigger cell(g, i1, j1), cell(g, i2, j2)]
            in_bounds(i1, j1) && in_bounds(i2, j2) && i1 / 3 == i2 / 3 && j1 / 3 == j2 / 3 && !(i1
                == i2 && j1 == j2) ==> cell(g, i1, j1) != cell(g, i2, j2),
{
    assert forall|x: int, y1: int, y2: int|
        #![trigger cell(g, x, y1), cell(g, x, y2)]
        0 <= x < 9 && 0 <= y1 < 9 && 0 <= y2 < 9 && y1 != y2 implies cell(g, x, y1) != cell(
        g,
        x,
        y2,
    ) by {
        assert(cell(g, x, y1) != 0);
        assert(ok_at(g, x, y1, cell(g, x, y1)));
        assert(same_unit(x, y1, x, y2));
    }
    assert forall|x1: int, x2: int, y: int|
        #![trigger cell(g, x1, y), cell(g, x2, y)]
        0 <= x1 < 9 && 0 <= x2 < 9 && 0 <= y < 9 && x1 != x2 implies cell(g, x1, y) != cell(
        g,
        x2,
        y,
    ) by {
        assert(cell(g, x1, y) != 0);
        assert(ok_at(g, x1, y, cell(g, x1, y)));
        assert(same_unit(x1, y, x2, y));
    }
    assert forall|i1: int, j1: int, i2: int, j2: int|
        #![trigger cell(g, i1, j1), cell(g, i2, j2)]
        in_bounds(i1, j1) && in_bounds(i2, j2) && i1 / 3 == i2 / 3 && j1 / 3 == j2 / 3 && !(i1 == i2
            && j1 == j2) implies cell(g, i1, j1) != cell(g, i2, j2) by {
        assert(cell(g, i1, j1) != 0);
        assert(ok_at(g, i1, j1, cell(g, i1, j1)));
        assert(same_unit(i1, j1, i2, j2));
    }
    assert forall|x: int, d: u8| 0 <= x < 9 && 1 <= d <= 9 implies #[trigger] row_contains(
        g,
        x,
        d,
    ) by {
        let vals = Seq::new(9, |y: int| cell(g, x, y));
        lemma_nine_distinct_digits_cover(vals, d);
        let k = choose|k: int| 0 <= k < 9 && vals[k] == d;
        assert(cell(g, x, k) == d);
    }
    assert forall|y: int, d: u8| 0 <= y < 9 && 1 <= d <= 9 implies #[trigger] col_contains(
        g,
        y,
        d,
    ) by {
        let vals = Seq::new(9, |x: int| cell(g, x, y));
        lemma_nine_distinct_digits_cover(vals, d);
        let k = choose|k: int| 0 <= k < 9 && vals[k] == d;
        assert(cell(g, k, y) == d);
    }
    assert forall|bx: int, by: int, d: u8|
        0 <= bx < 3 && 0 <= by < 3 && 1 <= d <= 9 implies #[trigger] subgrid_contains(
        g,
        bx,
        by,
        d,
    ) by {
        let vals = Seq::new(9, |k: int| cell(g, 3 * bx + k / 3, 3 * by + k % 3));
        assert forall|k: int| 0 <= k < 9 implies 1 <= #[trigger] vals[k] <= 9 by {
            lemma_subgrid_scan_in_bounds(bx, by, k);
            assert(in_bounds(3 * bx + k / 3, 3 * by + k % 3));
        }
        assert forall|k1: int, k2: int|
            #![trigger vals[k1], vals[k2]]
            0 <= k1 < k2 < 9 implies vals[k1] != vals[k2] by {
            lemma_subgrid_scan_in_bounds(bx, by, k1);
            lemma_subgrid_scan_in_bounds(bx, by, k2);
            let i1 = 3 * bx + k1 / 3;
            let j1 = 3 * by + k1 % 3;
            let i2 = 3 * bx + k2 / 3;
            let j2 = 3 * by + k2 % 3;
            assert(!(i1 == i2 && j1 == j2)) by {
                if i1 == i2 && j1 == j2 {
                    lemma_fundamental_div_mod(k1, 3);
                    lemma_fundamental_div_mod(k2, 3);
                }
            }
            assert(cell(g, i1, j1) != 0);
            assert(ok_at(g, i1, j1, cell(g, i1, j1)));
            assert(same_unit(i1, j1, i2, j2));
            assert(cell(g, i2, j2) != cell(g, i1, j1));
        }
        lemma_nine_distinct_digits_cover(vals, d);
        let k = choose|k: int| 0 <= k < 9 && vals[k] == d;
        lemma_subgrid_scan_in_bounds(bx, by, k);
        assert(cell(g, 3 * bx + k / 3, 3 * by + k % 3) == d);
        assert(subgrid_contains(g, bx, by, d));
    }
}

/// The `k`-th cell of the subgrid with origin `(3 * bx, 3 * by)`, scanned
/// row by row, lies inside that subgrid.
proof fn lemma_subgrid_scan_in_bounds(bx: int, by: int, k: int)
    requires
        0 <= bx < 3,
        0 <= by < 3,
        0 <= k < 9,
    ensures
        3 * bx <= 3 * bx + k / 3 < 3 * bx + 3,
        3 * by <= 3 * by + k % 3 < 3 * by + 3,
        (3 * bx + k / 3) / 3 == bx,
        (3 * by + k % 3) / 3 == by,
{
    lemma_fundamental_div_mod(k, 3);
    vstd::arithmetic::div_mod::lemma_mod_division_less_than_divisor(k, 3);
    assert(0 <= k % 3 < 3);
    assert(0 <= k / 3 < 3);
    lemma_div_multiples_vanish_fancy(bx, k / 3, 3);
    assert((3 * bx + k / 3) / 3 == bx);
    lemma_div_multiples_vanish_fancy(by, k % 3, 3);
    assert((3 * by + k % 3) / 3 == by);
}

/// A board that is already full is a completion of itself.
pub proof fn lemma_full_board_completes_itself(g: Seq<u8>)
    requires
        board_wf(g),
        full(g),
    ensures
        completion(g, g),
        solvable(g),
{
    assert(completion(g, g));
}

} // verus!
