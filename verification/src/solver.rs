//! The backtracking Sudoku solver and its specification.
//!
//! A grid is a 9x9 matrix of digits 0..=9, where 0 marks an empty cell.
//! The solver fills every empty cell so that each row, column and 3x3 box
//! holds each digit 1..=9 exactly once, or leaves the grid untouched when
//! no such completion exists.

use vstd::prelude::*;
use vstd::multiset::Multiset;

verus! {

/// A 9x9 matrix of digits; 0 denotes an empty cell.
pub type Grid = [[u8; 9]; 9];

/// A (row, column) pair, each in 0..=8.
pub type CellCoordinates = (usize, usize);

/// A 9-bit candidate mask: bit d-1 set means digit d may be placed.
pub type PossibleValues = u16;

/// A coordinate lies on the grid.
pub open spec fn in_range(i: int) -> bool {
    0 <= i < 9
}

/// Every cell holds a digit 0..=9.
pub open spec fn values_ok(g: Grid) -> bool {
    forall|r: int, c: int| in_range(r) && in_range(c) ==> g[r][c] <= 9
}

/// The two cells lie in the same 3x3 box.
pub open spec fn same_box(r1: int, c1: int, r2: int, c2: int) -> bool {
    r1 / 3 == r2 / 3 && c1 / 3 == c2 / 3
}

/// The two cells share a row, a column or a box.
pub open spec fn sees(r1: int, c1: int, r2: int, c2: int) -> bool {
    r1 == r2 || c1 == c2 || same_box(r1, c1, r2, c2)
}

/// `value` occurs nowhere in the row, column or box of (row, column).
/// The scan includes the target cell's own content.
pub open spec fn value_possible(g: Grid, row: int, column: int, value: u8) -> bool {
    forall|r: int, c: int|
        in_range(r) && in_range(c) && sees(row, column, r, c) ==> g[r][c] != value
}

/// No cell is empty.
pub open spec fn is_full(g: Grid) -> bool {
    forall|r: int, c: int| in_range(r) && in_range(c) ==> g[r][c] != 0
}

/// The digit at (row, column) differs from every other cell it sees.
pub open spec fn placed_ok(g: Grid, row: int, column: int) -> bool {
    forall|r: int, c: int|
        in_range(r) && in_range(c) && !(r == row && c == column) && sees(row, column, r, c)
            ==> g[r][c] != g[row][column]
}

/// No two filled cells that see each other hold the same digit.
pub open spec fn consistent(g: Grid) -> bool {
    forall|r: int, c: int|
        in_range(r) && in_range(c) && g[r][c] != 0 ==> #[trigger] placed_ok(g, r, c)
}

/// The two grids agree on every cell but (row, column).
pub open spec fn same_except(g1: Grid, g2: Grid, row: int, column: int) -> bool {
    forall|r: int, c: int|
        in_range(r) && in_range(c) && !(r == row && c == column) ==> g1[r][c] == g2[r][c]
}

/// Number of empty cells among the first n cells of row r.
pub open spec fn zeros_in_row(g: Grid, r: int, n: int) -> nat
    decreases n,
{
    if n <= 0 {
        0
    } else {
        zeros_in_row(g, r, n - 1) + (if g[r][n - 1] == 0 {
            1nat
        } else {
            0nat
        })
    }
}

/// Number of empty cells in rows 0..r.
pub open spec fn zeros_up_to_row(g: Grid, r: int) -> nat
    decreases r,
{
    if r <= 0 {
        0
    } else {
        zeros_up_to_row(g, r - 1) + zeros_in_row(g, r - 1, 9)
    }
}

/// Number of empty cells in the grid: the measure the search recurses on.
pub open spec fn num_empty(g: Grid) -> nat {
    zeros_up_to_row(g, 9)
}

/// Two grids that agree on every cell are equal.
proof fn lemma_cellwise_eq(g1: Grid, g2: Grid)
    requires
        forall|r: int, c: int| in_range(r) && in_range(c) ==> g1[r][c] == g2[r][c],
    ensures
        g1 == g2,
{
    assert forall|r: int| 0 <= r < 9 implies g1[r] == g2[r] by {
        assert(g1[r] =~= g2[r]);
    }
    assert(g1 =~= g2);
}

/// Rows that agree on their first n cells hold equally many zeros there.
proof fn lemma_zeros_in_row_same(g1: Grid, g2: Grid, r: int, n: int)
    requires
        forall|c: int| 0 <= c < n ==> g1[r][c] == g2[r][c],
    ensures
        zeros_in_row(g1, r, n) == zeros_in_row(g2, r, n),
    decreases n,
{
    if n > 0 {
        lemma_zeros_in_row_same(g1, g2, r, n - 1);
    }
}

/// Filling one empty cell of a row lowers its zero count by one.
proof fn lemma_zeros_in_row_update(g1: Grid, g2: Grid, r: int, column: int, n: int)
    requires
        0 <= column < n <= 9,
        forall|c: int| 0 <= c < n && c != column ==> g1[r][c] == g2[r][c],
        g1[r][column] == 0,
        g2[r][column] != 0,
    ensures
        zeros_in_row(g1, r, n) == zeros_in_row(g2, r, n) + 1,
    decreases n,
{
    if column == n - 1 {
        lemma_zeros_in_row_same(g1, g2, r, n - 1);
    } else {
        lemma_zeros_in_row_update(g1, g2, r, column, n - 1);
    }
}

/// Filling one empty cell lowers the zero count of the rows above it,
/// taken together, by one once the filled row is included.
proof fn lemma_zeros_up_to_row_update(g1: Grid, g2: Grid, row: int, column: int, r: int)
    requires
        in_range(row),
        in_range(column),
        0 <= r <= 9,
        same_except(g1, g2, row, column),
        g1[row][column] == 0,
        g2[row][column] != 0,
    ensures
        r <= row ==> zeros_up_to_row(g1, r) == zeros_up_to_row(g2, r),
        r > row ==> zeros_up_to_row(g1, r) == zeros_up_to_row(g2, r) + 1,
    decreases r,
{
    if r > 0 {
        lemma_zeros_up_to_row_update(g1, g2, row, column, r - 1);
        if r - 1 == row {
            lemma_zeros_in_row_update(g1, g2, row, column, 9);
        } else {
            lemma_zeros_in_row_same(g1, g2, r - 1, 9);
        }
    }
}

/// Filling one empty cell lowers the grid's empty-cell count by one.
proof fn lemma_num_empty_update(g1: Grid, g2: Grid, row: int, column: int)
    requires
        in_range(row),
        in_range(column),
        same_except(g1, g2, row, column),
        g1[row][column] == 0,
        g2[row][column] != 0,
    ensures
        num_empty(g1) == num_empty(g2) + 1,
{
    lemma_zeros_up_to_row_update(g1, g2, row, column, 9);
}

/// The digits 1 through 9 in ascending order.
pub open spec fn solved_digits_seq() -> Seq<u8> {
    Seq::new(9, |i: int| (i + 1) as u8)
}

/// One copy of each digit 1 through 9.
pub open spec fn solved_digits() -> Multiset<u8> {
    solved_digits_seq().to_multiset()
}

/// The nine values of row r, left to right.
pub open spec fn row_values(g: Grid, r: int) -> Seq<u8> {
    Seq::new(9, |c: int| g[r][c])
}

/// The nine values of column c, top to bottom.
pub open spec fn column_values(g: Grid, c: int) -> Seq<u8> {
    Seq::new(9, |r: int| g[r][c])
}

/// The nine values of box b, in row-major order; boxes are numbered
/// row-major, so box b has its origin at (b / 3 * 3, b % 3 * 3).
pub open spec fn box_values(g: Grid, b: int) -> Seq<u8> {
    Seq::new(9, |i: int| g[(b / 3) * 3 + i / 3][(b % 3) * 3 + i % 3])
}

/// Every row, column and box holds each digit 1 through 9 exactly once.
pub open spec fn solved(g: Grid) -> bool {
    &&& forall|r: int| in_range(r) ==> #[trigger] row_values(g, r).to_multiset() == solved_digits()
    &&& forall|c: int|
        in_range(c) ==> #[trigger] column_values(g, c).to_multiset() == solved_digits()
    &&& forall|b: int| in_range(b) ==> #[trigger] box_values(g, b).to_multiset() == solved_digits()
}

/// Nine pairwise distinct digits drawn from 1..=9 are exactly the digits
/// 1 through 9, one of each.
proof fn lemma_distinct_digits(s: Seq<u8>)
    requires
        s.len() == 9,
        forall|i: int| 0 <= i < 9 ==> 1 <= #[trigger] s[i] <= 9,
        forall|i: int, j: int| 0 <= i < 9 && 0 <= j < 9 && i != j ==> s[i] != s[j],
    ensures
        s.to_multiset() == solved_digits(),
{
    broadcast use vstd::seq_lib::group_to_multiset_ensures;
    broadcast use vstd::seq_lib::seq_to_set_is_finite;

    let d = solved_digits_seq();
    assert(s.no_duplicates());
    assert(d.no_duplicates());
    s.unique_seq_to_set();
    d.unique_seq_to_set();
    assert forall|x: u8| s.to_set().contains(x) implies d.to_set().contains(x) by {
        assert(d[x - 1] == x);
        assert(d.contains(x));
    }
    vstd::set_lib::lemma_subset_equality(s.to_set(), d.to_set());
    s.lemma_multiset_has_no_duplicates();
    d.lemma_multiset_has_no_duplicates();
    assert forall|x: u8| s.to_multiset().count(x) == d.to_multiset().count(x) by {
        if 1 <= x <= 9 {
            assert(d[x - 1] == x);
            assert(d.contains(x));
            assert(d.to_set().contains(x));
            assert(s.to_set().contains(x));
            assert(s.contains(x));
        } else {
            assert(!s.contains(x));
            assert(!d.contains(x));
        }
    }
    assert(s.to_multiset() =~= d.to_multiset());
}

/// In a full grid of digits where no two cells that see each other agree,
/// every row, every column and every 3x3 box holds each digit 1 through 9
/// exactly once.
pub proof fn lemma_full_consistent_solved(g: Grid)
    requires
        values_ok(g),
        is_full(g),
        consistent(g),
    ensures
        solved(g),
{
    assert forall|r: int| in_range(r) implies #[trigger] row_values(g, r).to_multiset()
        == solved_digits() by {
        let s = row_values(g, r);
        assert forall|i: int, j: int|
            0 <= i < 9 && 0 <= j < 9 && i != j implies s[i] != s[j] by {
            assert(g[r][i] != 0);
            assert(placed_ok(g, r, i));
            assert(sees(r, i, r, j));
        }
        lemma_distinct_digits(s);
    }
    assert forall|c: int| in_range(c) implies #[trigger] column_values(g, c).to_multiset()
        == solved_digits() by {
        let s = column_values(g, c);
        assert forall|i: int, j: int|
            0 <= i < 9 && 0 <= j < 9 && i != j implies s[i] != s[j] by {
            assert(g[i][c] != 0);
            assert(placed_ok(g, i, c));
            assert(sees(i, c, j, c));
        }
        lemma_distinct_digits(s);
    }
    assert forall|b: int| in_range(b) implies #[trigger] box_values(g, b).to_multiset()
        == solved_digits() by {
        let s = box_values(g, b);
        assert forall|i: int, j: int|
            0 <= i < 9 && 0 <= j < 9 && i != j implies s[i] != s[j] by {
            let r1 = (b / 3) * 3 + i / 3;
            let c1 = (b % 3) * 3 + i % 3;
            let r2 = (b / 3) * 3 + j / 3;
            let c2 = (b % 3) * 3 + j % 3;
            assert(in_range(r1) && in_range(c1) && in_range(r2) && in_range(c2));
            assert(!(r1 == r2 && c1 == c2));
            assert(same_box(r1, c1, r2, c2));
            assert(g[r1][c1] != 0);
            assert(placed_ok(g, r1, c1));
            assert(sees(r1, c1, r2, c2));
            assert(s[i] == g[r1][c1] && s[j] == g[r2][c2]);
        }
        lemma_distinct_digits(s);
    }
}

/// Placing a digit that no cell it sees already holds keeps the grid
/// free of conflicts.
proof fn lemma_consistent_place(g1: Grid, g2: Grid, row: int, column: int)
    requires
        in_range(row),
        in_range(column),
        same_except(g1, g2, row, column),
        g1[row][column] == 0,
        g2[row][column] != 0,
        value_possible(g1, row, column, g2[row][column]),
        consistent(g1),
    ensures
        consistent(g2),
{
    let v = g2[row][column];
    assert forall|r: int, c: int|
        in_range(r) && in_range(c) && g2[r][c] != 0 implies #[trigger] placed_ok(g2, r, c) by {
        if r == row && c == column {
            assert forall|r2: int, c2: int|
                in_range(r2) && in_range(c2) && !(r2 == row && c2 == column) && sees(
                    row,
                    column,
                    r2,
                    c2,
                ) implies g2[r2][c2] != g2[row][column] by {
                assert(g2[r2][c2] == g1[r2][c2]);
            }
        } else {
            assert(g2[r][c] == g1[r][c]);
            assert(placed_ok(g1, r, c));
            assert forall|r2: int, c2: int|
                in_range(r2) && in_range(c2) && !(r2 == r && c2 == c) && sees(
                    r,
                    c,
                    r2,
                    c2,
                ) implies g2[r2][c2] != g2[r][c] by {
                if r2 == row && c2 == column {
                    assert(sees(row, column, r, c));
                    assert(g1[r][c] != v);
                } else {
                    assert(g2[r2][c2] == g1[r2][c2]);
                    assert(g1[r2][c2] != g1[r][c]);
                }
            }
        }
    }
}

/// The grid with `v` written at (row, column) and every other cell kept.
pub open spec fn place(g: Grid, row: int, column: int, v: u8) -> Grid {
    vstd::array::spec_array_update(g, row, vstd::array::spec_array_update(g[row], column, v))
}

/// Cellwise reading of `place`.
proof fn lemma_place_cells(g: Grid, row: int, column: int, v: u8)
    requires
        in_range(row),
        in_range(column),
    ensures
        place(g, row, column, v)[row][column] == v,
        same_except(g, place(g, row, column, v), row, column),
{
    broadcast use vstd::array::group_array_axioms;

    let g2 = place(g, row, column, v);
    assert(g2@ == g@.update(row, vstd::array::spec_array_update(g[row], column, v)));
    assert forall|r: int, c: int|
        in_range(r) && in_range(c) && !(r == row && c == column) implies g[r][c] == g2[r][c] by {
        if r == row {
            assert(g2[r]@ == g[row]@.update(column, v));
        }
    }
    assert(g2[row]@ == g[row]@.update(column, v));
}

/// Flat row-major index of the first empty cell at or after index i;
/// 81 when none follows.
pub open spec fn first_empty_from(g: Grid, i: int) -> int
    decreases 81 - i,
{
    if i < 0 || 81 <= i {
        81
    } else if g[i / 9][i % 9] == 0 {
        i
    } else {
        first_empty_from(g, i + 1)
    }
}

/// On a full grid the scan runs off the end.
proof fn lemma_first_empty_full(g: Grid, i: int)
    requires
        is_full(g),
        0 <= i,
    ensures
        first_empty_from(g, i) == 81,
    decreases 81 - i,
{
    if i < 81 {
        assert(g[i / 9][i % 9] != 0);
        lemma_first_empty_full(g, i + 1);
    }
}

/// The scan lands on the first empty cell in row-major order.
proof fn lemma_first_empty_char(g: Grid, row: int, column: int, i: int)
    requires
        in_range(row),
        in_range(column),
        g[row][column] == 0,
        forall|r: int, c: int|
            in_range(r) && in_range(c) && (r < row || (r == row && c < column))
                ==> #[trigger] g[r][c] != 0,
        0 <= i <= row * 9 + column,
    ensures
        first_empty_from(g, i) == row * 9 + column,
    decreases row * 9 + column - i,
{
    let t = row * 9 + column;
    if i == t {
        assert(t / 9 == row && t % 9 == column) by (nonlinear_arith)
            requires
                t == row * 9 + column,
                0 <= row < 9,
                0 <= column < 9,
        ;
    } else {
        let r = i / 9;
        let c = i % 9;
        assert(i == r * 9 + c && 0 <= c < 9) by (nonlinear_arith)
            requires
                r == i / 9,
                c == i % 9,
                0 <= i,
        ;
        assert(0 <= r < 9);
        assert(r < row || (r == row && c < column)) by (nonlinear_arith)
            requires
                i == r * 9 + c,
                t == row * 9 + column,
                i < t,
                0 <= c < 9,
                0 <= column < 9,
        ;
        assert(g[r][c] != 0);
        lemma_first_empty_char(g, row, column, i + 1);
    }
}

/// The grid the search hands back: the completion reached from the first
/// empty cell, or the grid itself when no branch fills it. A function of
/// the input grid alone: the search is deterministic.
pub open spec fn spec_solve(g: Grid) -> Grid
    decreases num_empty(g), 10int,
{
    let idx = first_empty_from(g, 0);
    if idx == 81 {
        g
    } else {
        search_from(g, idx / 9, idx % 9, 1)
    }
}

/// Idempotence of the search at the specification level: a grid with no
/// empty cell is its own search result, so solving an already solved grid
/// returns it unchanged.
pub proof fn lemma_spec_solve_full(g: Grid)
    requires
        is_full(g),
    ensures
        spec_solve(g) == g,
{
    lemma_first_empty_full(g, 0);
}

/// Tries digits d..=9 at the empty cell (row, column) in ascending order:
/// the first digit whose branch fills the grid wins, and the grid itself
/// comes back when every digit fails.
pub open spec fn search_from(g: Grid, row: int, column: int, d: int) -> Grid
    decreases num_empty(g), 10 - d,
    via search_from_decreases
{
    if !(in_range(row) && in_range(column) && 1 <= d <= 9) || g[row][column] != 0 {
        g
    } else {
        let attempt = if value_possible(g, row, column, d as u8) {
            spec_solve(place(g, row, column, d as u8))
        } else {
            g
        };
        if is_full(attempt) {
            attempt
        } else {
            search_from(g, row, column, d + 1)
        }
    }
}

#[via_fn]
proof fn search_from_decreases(g: Grid, row: int, column: int, d: int) {
    if (in_range(row) && in_range(column) && 1 <= d <= 9) && g[row][column] == 0 {
        if value_possible(g, row, column, d as u8) {
            lemma_place_cells(g, row, column, d as u8);
            lemma_num_empty_update(g, place(g, row, column, d as u8), row, column);
        }
    }
}

/// Bit `pos` of `val` is set.
pub open spec fn bit_on(val: u16, pos: u16) -> bool {
    (val >> pos) & 1 == 1
}

/// Tests whether bit `position_to_check` of `val` is set.
pub fn is_bit_on(val: u16, position_to_check: u8) -> (r: bool)
    requires
        position_to_check < 16,
    ensures
        r == bit_on(val, position_to_check as u16),
{
    (val >> position_to_check) & 1 == 1
}

/// Toggles bit `position_to_flip` of `val`.
pub fn flip_bit(val: u16, position_to_flip: u8) -> (r: u16)
    requires
        position_to_flip < 16,
    ensures
        r == (val ^ (1u16 << position_to_flip as u16)),
{
    val ^ (1 << position_to_flip)
}

/// Whether `value` may be placed at `coordinates`: it must not already occur
/// in the same row, in the same column, or in the 3x3 box whose origin is
/// (row / 3 * 3, column / 3 * 3). The target cell's own content takes part
/// in the scan like any other cell's.
#[verifier::loop_isolation(false)]
pub fn is_value_possible(board: &Grid, coordinates: CellCoordinates, value: u8) -> (r: bool)
    requires
        coordinates.0 < 9,
        coordinates.1 < 9,
        1 <= value <= 9,
    ensures
        r == value_possible(*board, coordinates.0 as int, coordinates.1 as int, value),
{
    let (row, column) = coordinates;

    for i in 0..9usize
        invariant
            forall|k: int| 0 <= k < i ==> #[trigger] board[row as int][k] != value,
            forall|k: int| 0 <= k < i ==> #[trigger] board[k][column as int] != value,
    {
        if board[row][i] == value || board[i][column] == value {
            assert(!value_possible(*board, row as int, column as int, value)) by {
                if board[row as int][i as int] == value {
                    assert(sees(row as int, column as int, row as int, i as int));
                } else {
                    assert(sees(row as int, column as int, i as int, column as int));
                }
            }
            return false;
        }
        assert(board[row as int][i as int] != value);
        assert(board[i as int][column as int] != value);
    }

    let x_index = row / 3 * 3;
    let y_index = column / 3 * 3;

    for x in 0..3usize
        invariant
            forall|r: int, c: int|
                x_index <= r < x_index + x && y_index <= c < y_index + 3
                    ==> #[trigger] board[r][c] != value,
    {
        for y in 0..3usize
            invariant
                forall|r: int, c: int|
                    x_index <= r < x_index + x && y_index <= c < y_index + 3
                        ==> #[trigger] board[r][c] != value,
                forall|r: int, c: int|
                    r == x_index + x && y_index <= c < y_index + y
                        ==> #[trigger] board[r][c] != value,
        {
            if board[x_index + x][y_index + y] == value {
                assert(!value_possible(*board, row as int, column as int, value)) by {
                    assert(sees(
                        row as int,
                        column as int,
                        (x_index + x) as int,
                        (y_index + y) as int,
                    ));
                }
                return false;
            }
        }
    }

    assert(value_possible(*board, row as int, column as int, value)) by {
        assert forall|r: int, c: int|
            in_range(r) && in_range(c) && sees(row as int, column as int, r, c)
                implies board[r][c] != value by {
            if r == row as int {
            } else if c == column as int {
            } else {
                assert(r / 3 == row as int / 3 && c / 3 == column as int / 3);
                assert(3 * (r / 3) <= r < 3 * (r / 3) + 3) by (nonlinear_arith)
                    requires 0 <= r;
                assert(3 * (c / 3) <= c < 3 * (c / 3) + 3) by (nonlinear_arith)
                    requires 0 <= c;
                assert(x_index as int <= r < x_index as int + 3);
                assert(y_index as int <= c < y_index as int + 3);
            }
        }
    }
    true
}

/// Finds the first empty cell in row-major order, or the sentinel (10, 10)
/// when the grid is full. The scan order is a design commitment: it fixes
/// which cell the search branches on.
#[verifier::loop_isolation(false)]
fn coordinates_of_next_empty_cell(board: &Grid) -> (coordinates: CellCoordinates)
    ensures
        is_full(*board) ==> coordinates == (10usize, 10usize),
        !is_full(*board) ==> {
            &&& coordinates.0 < 9
            &&& coordinates.1 < 9
            &&& board[coordinates.0 as int][coordinates.1 as int] == 0
            &&& forall|r: int, c: int|
                in_range(r) && in_range(c) && (r < coordinates.0 as int || (r == coordinates.0
                    as int && c < coordinates.1 as int)) ==> #[trigger] board[r][c] != 0
        },
{
    for row in 0..9usize
        invariant
            forall|r: int, c: int|
                0 <= r < row && in_range(c) ==> #[trigger] board[r][c] != 0,
    {
        for column in 0..9usize
            invariant
                forall|r: int, c: int|
                    0 <= r < row && in_range(c) ==> #[trigger] board[r][c] != 0,
                forall|r: int, c: int|
                    r == row as int && 0 <= c < column ==> #[trigger] board[r][c] != 0,
        {
            if board[row][column] == 0 {
                return (row, column);
            }
        }
    }
    (10, 10)
}

/// The grid is solved in the search's sense: it has no empty cell left.
fn is_board_solved(board: &Grid) -> (r: bool)
    ensures
        r == is_full(*board),
{
    let coordinates = coordinates_of_next_empty_cell(board);
    coordinates.0 == 10 && coordinates.1 == 10
}

/// Toggling bit `pos` flips that bit and leaves every other bit as it was.
proof fn lemma_flip_bit(val: u16, pos: u16)
    requires
        pos < 16,
    ensures
        bit_on(val ^ (1u16 << pos), pos) == !bit_on(val, pos),
        forall|p: u16| p < 16 && p != pos ==> bit_on(val ^ (1u16 << pos), p) == bit_on(val, p),
{
    assert((((val ^ (1u16 << pos)) >> pos) & 1 == 1) == !((val >> pos) & 1 == 1)) by (bit_vector)
        requires
            pos < 16,
    ;
    assert(forall|p: u16|
        p < 16 && p != pos ==> ((((val ^ (1u16 << pos)) >> p) & 1 == 1) == ((val >> p) & 1
            == 1))) by (bit_vector)
        requires
            pos < 16,
    ;
}

/// In an all-zero mask no bit is set.
proof fn lemma_zero_mask()
    ensures
        forall|p: u16| !bit_on(0u16, p),
{
    assert(forall|p: u16| (0u16 >> p) & 1 != 1) by (bit_vector);
}

/// Computes the candidate mask for the given empty cell: bit d-1 is set
/// exactly when digit d may be placed there. Digits are tried in ascending
/// order, which fixes the backtracking trial order.
#[verifier::loop_isolation(false)]
fn possible_values_for_cell(board: &Grid, coordinates: CellCoordinates) -> (result: PossibleValues)
    requires
        coordinates.0 < 9,
        coordinates.1 < 9,
    ensures
        forall|value: u8|
            1 <= value <= 9 ==> (#[trigger] bit_on(result, (value - 1) as u16)
                <==> value_possible(*board, coordinates.0 as int, coordinates.1 as int, value)),
        forall|p: u16| 8 < p < 16 ==> !bit_on(result, p),
{
    let (row, column) = coordinates;
    let mut result: PossibleValues = 0b0000_0000_0000_0000;
    proof {
        lemma_zero_mask();
    }
    for guess in 1..10u8
        invariant
            forall|value: u8|
                1 <= value < guess ==> (#[trigger] bit_on(result, (value - 1) as u16)
                    <==> value_possible(*board, row as int, column as int, value)),
            forall|p: u16| guess - 1 <= p < 16 ==> !bit_on(result, p),
    {
        let ghost prev = result;
        if is_value_possible(board, (row, column), guess) {
            proof {
                lemma_flip_bit(result, (guess - 1) as u16);
            }
            result = flip_bit(result, guess - 1);
            proof {
                assert(result == prev ^ (1u16 << ((guess - 1) as u16)));
                assert(bit_on(result, (guess - 1) as u16));
                assert(forall|p: u16|
                    p < 16 && p != (guess - 1) as u16 ==> #[trigger] bit_on(result, p) == bit_on(
                        prev,
                        p,
                    ));
            }
        }
        proof {
            assert forall|p: u16| guess <= p < 16 implies !bit_on(result, p) by {
                assert(!bit_on(prev, p));
            }
            assert forall|value: u8| 1 <= value <= guess implies (#[trigger] bit_on(
                result,
                (value - 1) as u16,
            ) <==> value_possible(*board, row as int, column as int, value)) by {
                if value < guess {
                    assert(bit_on(result, (value - 1) as u16) == bit_on(prev, (value - 1) as u16));
                }
            }
        }
    }
    result
}

/// Backtracking search. Branches on the first empty cell in row-major
/// order and tries digits in ascending order, so the outcome is
/// `spec_solve` of the input grid and nothing else: the search is
/// deterministic. Pre-filled cells are never overwritten. Either the grid
/// comes back full, every new digit differing from all cells it sees, or
/// no completion exists and the grid comes back exactly as it was; a
/// caller who must tell the two apart checks the result for a remaining
/// empty cell. On a grid whose clues are free of conflicts a full result
/// holds each digit 1 through 9 exactly once in every row, column and box,
/// and a grid that is already full comes back untouched.
#[verifier::loop_isolation(false)]
pub fn solve(board: &mut Grid)
    requires
        values_ok(*old(board)),
    ensures
        values_ok(*final(board)),
        forall|r: int, c: int|
            in_range(r) && in_range(c) && old(board)[r][c] != 0 ==> final(board)[r][c] == old(
                board,
            )[r][c],
        forall|r: int, c: int|
            in_range(r) && in_range(c) && #[trigger] final(board)[r][c] != old(board)[r][c] ==> old(
                board,
            )[r][c] == 0 && 1 <= final(board)[r][c] <= 9 && placed_ok(*final(board), r, c),
        is_full(*final(board)) || *final(board) == *old(board),
        is_full(*old(board)) ==> *final(board) == *old(board),
        consistent(*old(board)) ==> consistent(*final(board)),
        consistent(*old(board)) && is_full(*final(board)) ==> solved(*final(board)),
        *final(board) == spec_solve(*old(board)),
    decreases num_empty(*old(board)),
{
    if is_board_solved(board) {
        proof {
            lemma_first_empty_full(*board, 0);
            if consistent(*board) {
                lemma_full_consistent_solved(*board);
            }
        }
        return;
    }

    let coordinates = coordinates_of_next_empty_cell(board);
    let row = coordinates.0;
    let column = coordinates.1;
    let possible_values = possible_values_for_cell(board, (row, column));
    proof {
        lemma_first_empty_char(*board, row as int, column as int, 0);
        let idx = first_empty_from(*board, 0);
        assert(idx / 9 == row as int && idx % 9 == column as int) by (nonlinear_arith)
            requires
                idx == (row as int) * 9 + (column as int),
                0 <= (row as int) && (row as int) < 9,
                0 <= (column as int) && (column as int) < 9,
        ;
        assert(spec_solve(*old(board)) == search_from(
            *old(board),
            row as int,
            column as int,
            1,
        ));
    }

    for guess in 1..10u8
        invariant
            *board == *old(board),
            search_from(*old(board), row as int, column as int, 1) == search_from(
                *old(board),
                row as int,
                column as int,
                guess as int,
            ),
    {
        let ghost g0 = *board;
        if is_bit_on(possible_values, guess - 1) {
            board[row][column] = guess;
            let ghost g1 = *board;
            proof {
                assert(value_possible(g0, row as int, column as int, guess));
                assert(same_except(g0, g1, row as int, column as int));
                lemma_num_empty_update(g0, g1, row as int, column as int);
                if consistent(g0) {
                    lemma_consistent_place(g0, g1, row as int, column as int);
                }
                lemma_place_cells(g0, row as int, column as int, guess);
                lemma_cellwise_eq(g1, place(g0, row as int, column as int, guess));
            }
            solve(board);
            if is_board_solved(board) {
                proof {
                    lemma_solve_success(g0, g1, *board, row as int, column as int);
                    if consistent(g0) {
                        lemma_full_consistent_solved(*board);
                    }
                    assert(search_from(g0, row as int, column as int, guess as int) == *board);
                }
                return;
            }
            board[row][column] = 0;
            proof {
                lemma_cellwise_eq(*board, g0);
                assert(search_from(g0, row as int, column as int, guess as int) == search_from(
                    g0,
                    row as int,
                    column as int,
                    guess as int + 1,
                ));
            }
        } else {
            proof {
                assert(!value_possible(g0, row as int, column as int, guess));
                assert(!is_full(g0));
                assert(search_from(g0, row as int, column as int, guess as int) == search_from(
                    g0,
                    row as int,
                    column as int,
                    guess as int + 1,
                ));
            }
        }
    }
    proof {
        assert(search_from(*old(board), row as int, column as int, 10) == *old(board));
    }
}

/// The facts the search needs on a branch that ends in a full grid:
/// g1 is g0 with one legal placement at (row, column), and g2 completes g1.
proof fn lemma_solve_success(g0: Grid, g1: Grid, g2: Grid, row: int, column: int)
    requires
        in_range(row),
        in_range(column),
        same_except(g0, g1, row, column),
        g0[row][column] == 0,
        1 <= g1[row][column] <= 9,
        value_possible(g0, row, column, g1[row][column]),
        forall|r: int, c: int|
            in_range(r) && in_range(c) && g1[r][c] != 0 ==> g2[r][c] == g1[r][c],
        forall|r: int, c: int|
            in_range(r) && in_range(c) && #[trigger] g2[r][c] != g1[r][c] ==> g1[r][c] == 0 && 1
                <= g2[r][c] <= 9 && placed_ok(g2, r, c),
    ensures
        forall|r: int, c: int|
            in_range(r) && in_range(c) && g0[r][c] != 0 ==> g2[r][c] == g0[r][c],
        forall|r: int, c: int|
            in_range(r) && in_range(c) && #[trigger] g2[r][c] != g0[r][c] ==> g0[r][c] == 0 && 1
                <= g2[r][c] <= 9 && placed_ok(g2, r, c),
{
    let v = g1[row][column];
    assert(g2[row][column] == v);
    assert forall|r: int, c: int|
        in_range(r) && in_range(c) && #[trigger] g2[r][c] != g0[r][c] implies g0[r][c] == 0 && 1
        <= g2[r][c] <= 9 && placed_ok(g2, r, c) by {
        if r == row && c == column {
            assert forall|r2: int, c2: int|
                in_range(r2) && in_range(c2) && !(r2 == row && c2 == column) && sees(
                    row,
                    column,
                    r2,
                    c2,
                ) implies g2[r2][c2] != g2[row][column] by {
                if g1[r2][c2] != 0 {
                    assert(g2[r2][c2] == g1[r2][c2] && g1[r2][c2] == g0[r2][c2]);
                } else if g2[r2][c2] != g1[r2][c2] {
                    assert(placed_ok(g2, r2, c2));
                    assert(sees(r2, c2, row, column));
                    assert(g2[row][column] != g2[r2][c2]);
                }
            }
        } else {
            assert(g2[r][c] != g1[r][c]);
        }
    }
}

} // verus!
