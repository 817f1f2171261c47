//! The solver's public entry point, named after the search strategy it uses.

use crate::sudoku::cells_in_range;
use crate::sudoku::extends;
use crate::sudoku::grid_full;
use crate::sudoku::only_digits_placed;
use crate::sudoku::partially_valid;
use crate::sudoku::solution_of;
use crate::sudoku::Sudoku;
use vstd::prelude::*;

verus! {

/// Solves the puzzle by depth-first backtracking search; see
/// [`crate::backtracking::solve`], which does the work.
///
/// Returns the first complete, consistent grid found that keeps every clue of
/// the input, or `None` exactly when the puzzle has no solution.
pub fn backtracking(sudoku_to_solve: &Sudoku) -> (res: Option<Sudoku>)
    ensures
        match res {
            Some(solved) => {
                &&& grid_full(solved@)
                &&& partially_valid(solved@)
                &&& extends(sudoku_to_solve@, solved@)
                &&& only_digits_placed(sudoku_to_solve@, solved@)
                &&& (cells_in_range(sudoku_to_solve@) ==> solution_of(sudoku_to_solve@, solved@))
            },
            None => forall|s: Seq<Seq<u8>>| !solution_of(sudoku_to_solve@, s),
        },
        !partially_valid(sudoku_to_solve@) ==> res is None,
        cells_in_range(sudoku_to_solve@) && grid_full(sudoku_to_solve@) && partially_valid(
            sudoku_to_solve@,
        ) ==> (res matches Some(solved) && solved@ == sudoku_to_solve@),
{
    crate::backtracking::solve(sudoku_to_solve)
}

} // verus!
