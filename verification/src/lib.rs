//! A 9x9 Sudoku solver: exhaustive backtracking search with row, column and
//! box constraint checking, verified against a cellwise model of the grid.

use vstd::prelude::*;

pub mod solver;

verus! {

/// The classic example puzzle: a well-known easy grid with a unique solution.
/// Kept as a shared fixture for exercising the solver.
pub fn test_board() -> (r: [[u8; 9]; 9])
    ensures
        solver::values_ok(r),
        !solver::is_full(r),
        solver::consistent(r),
{
    [
        [5, 3, 0, 0, 7, 0, 0, 0, 0],
        [6, 0, 0, 1, 9, 5, 0, 0, 0],
        [0, 9, 8, 0, 0, 0, 0, 6, 0],
        [8, 0, 0, 0, 6, 0, 0, 0, 3],
        [4, 0, 0, 8, 0, 3, 0, 0, 1],
        [7, 0, 0, 0, 2, 0, 0, 0, 6],
        [0, 6, 0, 0, 0, 0, 2, 8, 0],
        [0, 0, 0, 4, 1, 9, 0, 0, 5],
        [0, 0, 0, 0, 8, 0, 0, 7, 9],
    ]
}

} // verus!
