//! Depth-first backtracking search over grid states, on an explicit stack.

use crate::laws::lemma_conflict_preserved;
use crate::laws::lemma_extends_full_equal;
use crate::sudoku::cells_in_range;
use crate::sudoku::extends;
use crate::sudoku::grid_full;
use crate::sudoku::grid_update;
use crate::sudoku::grid_wf;
use crate::sudoku::only_digits_placed;
use crate::sudoku::partially_valid;
use crate::sudoku::solution_of;
use crate::sudoku::Sudoku;
use std::collections::VecDeque;
use vstd::prelude::*;

verus! {

// ---------------------------------------------------------------------------
// Termination measure for the search: expanding a grid removes one entry worth
// 10^e from the work stack (e its number of empty cells) and adds nine entries
// worth 10^(e-1) each, so the stack's total weight strictly shrinks.
// ---------------------------------------------------------------------------

/// Number of empty cells among the first `n` cells of one row.
spec fn count_empty_row(row: Seq<u8>, n: int) -> nat
    decreases n,
{
    if n <= 0 {
        0
    } else {
        count_empty_row(row, n - 1) + if row[n - 1] == 0 {
            1nat
        } else {
            0nat
        }
    }
}

/// Number of empty cells in the first `r` rows of the grid.
spec fn count_empty_upto(g: Seq<Seq<u8>>, r: int) -> nat
    decreases r,
{
    if r <= 0 {
        0
    } else {
        count_empty_upto(g, r - 1) + count_empty_row(g[r - 1], 9)
    }
}

/// Number of empty cells in the grid.
spec fn count_empty(g: Seq<Seq<u8>>) -> nat {
    count_empty_upto(g, 9)
}

spec fn pow10(e: nat) -> nat
    decreases e,
{
    if e == 0 {
        1
    } else {
        10 * pow10((e - 1) as nat)
    }
}

/// Total weight of the work stack: each queued grid counts 10^(empty cells).
spec fn stack_measure(st: Seq<Sudoku>) -> nat
    decreases st.len(),
{
    if st.len() == 0 {
        0
    } else {
        stack_measure(st.drop_last()) + pow10(count_empty(st.last()@))
    }
}

proof fn lemma_pow10_pos(e: nat)
    ensures
        pow10(e) >= 1,
    decreases e,
{
    if e > 0 {
        lemma_pow10_pos((e - 1) as nat);
    }
}

/// Writing a digit into an empty cell lowers the row's empty count by one
/// exactly when the cell lies among the counted prefix.
proof fn lemma_count_row_update(row: Seq<u8>, c: int, v: u8, n: int)
    requires
        0 <= c < row.len(),
        row[c] == 0,
        v != 0,
        n <= row.len(),
    ensures
        count_empty_row(row, n) == count_empty_row(row.update(c, v), n) + if c < n {
            1nat
        } else {
            0nat
        },
    decreases n,
{
    if n > 0 {
        lemma_count_row_update(row, c, v, n - 1);
    }
}

/// Writing a digit into an empty cell lowers the grid's empty count by one.
proof fn lemma_count_update(g: Seq<Seq<u8>>, r: int, c: int, v: u8, rr: int)
    requires
        grid_wf(g),
        0 <= r < 9,
        0 <= c < 9,
        g[r][c] == 0,
        v != 0,
        rr <= 9,
    ensures
        count_empty_upto(g, rr) == count_empty_upto(grid_update(g, r, c, v), rr) + if r < rr {
            1nat
        } else {
            0nat
        },
    decreases rr,
{
    let g2 = grid_update(g, r, c, v);
    if rr > 0 {
        lemma_count_update(g, r, c, v, rr - 1);
        if r == rr - 1 {
            assert(g2[rr - 1] == g[rr - 1].update(c, v));
            lemma_count_row_update(g[rr - 1], c, v, 9);
        } else {
            assert(g2[rr - 1] == g[rr - 1]);
        }
    }
}

/// Solves the puzzle by depth-first backtracking: repeatedly pop a grid from
/// the stack, discard it if a band already holds a duplicate, return it if it
/// is complete, and otherwise push one clone per candidate digit 1..=9 for its
/// first empty cell.
///
/// Returns the first complete, consistent grid found that keeps every clue of
/// the input, or `None` exactly when the puzzle has no solution.
pub fn solve(sudoku_to_solve: &Sudoku) -> (res: Option<Sudoku>)
    ensures
        match res {
            Some(solved) => {
                &&& grid_full(solved@)
                &&& partially_valid(solved@)
                &&& extends(sudoku_to_solve@, solved@)
                &&& only_digits_placed(sudoku_to_solve@, solved@)
                &&& (cells_in_range(sudoku_to_solve@) ==> solution_of(sudoku_to_solve@, solved@))
            },
            None => forall|s: Seq<Seq<u8>>| !solution_of(sudoku_to_solve@, s),
        },
        !partially_valid(sudoku_to_solve@) ==> res is None,
        cells_in_range(sudoku_to_solve@) && grid_full(sudoku_to_solve@) && partially_valid(
            sudoku_to_solve@,
        ) ==> (res matches Some(solved) && solved@ == sudoku_to_solve@),
{
    let ghost g0 = sudoku_to_solve@;
    let mut stack: VecDeque<Sudoku> = VecDeque::new();

    stack.push_back(sudoku_to_solve.clone());

    proof {
        assert(stack@[0] == *sudoku_to_solve);
        assert forall|s: Seq<Seq<u8>>| #[trigger] solution_of(g0, s) implies exists|k: int|
            0 <= k < stack@.len() && extends(#[trigger] stack@[k]@, s) by {
            assert(extends(stack@[0]@, s));
        }
    }

    while stack.len() != 0
        invariant
            forall|k: int| 0 <= k < stack@.len() ==> extends(g0, #[trigger] stack@[k]@),
            forall|k: int| 0 <= k < stack@.len() ==> only_digits_placed(g0, #[trigger] stack@[k]@),
            forall|s: Seq<Seq<u8>>|
                #[trigger] solution_of(g0, s) ==> exists|k: int|
                    0 <= k < stack@.len() && extends(#[trigger] stack@[k]@, s),
        decreases stack_measure(stack@),
    {
        let ghost pre = stack@;
        let current_state = stack.pop_back().unwrap();

        let sudoku = current_state;
        let ghost cur = sudoku@;
        let ghost base = stack_measure(pre.drop_last());
        proof {
            assert(sudoku == pre[pre.len() - 1]);
            assert(extends(g0, cur));
            assert(only_digits_placed(g0, cur));
            assert(pre.drop_last() =~= stack@);
            assert(stack_measure(pre) == base + pow10(count_empty(cur)));
            lemma_pow10_pos(count_empty(cur));
        }

        // discard this state and move to the next one on the stack
        if !sudoku.is_valid() {
            proof {
                assert forall|s: Seq<Seq<u8>>| #[trigger] solution_of(g0, s) implies exists|k: int|
                    0 <= k < stack@.len() && extends(#[trigger] stack@[k]@, s) by {
                    let k0 = choose|k: int| 0 <= k < pre.len() && extends(#[trigger] pre[k]@, s);
                    if k0 == pre.len() - 1 {
                        lemma_conflict_preserved(cur, s);
                        assert(false);
                    } else {
                        assert(stack@[k0]@ == pre[k0]@);
                        assert(extends(stack@[k0]@, s));
                    }
                }
            }
        } else {
            let next_empty_cell = sudoku.next_empty_cell();

            if next_empty_cell.is_none() {
                proof {
                    if !partially_valid(g0) {
                        lemma_conflict_preserved(g0, cur);
                        assert(false);
                    }
                    if cells_in_range(g0) {
                        assert(cells_in_range(cur));
                        if grid_full(g0) {
                            lemma_extends_full_equal(g0, cur);
                        }
                    }
                }
                return Some(sudoku);
            }
            let (next_row, next_column) = next_empty_cell.unwrap();
            let ghost e = count_empty(cur);
            proof {
                lemma_count_update(cur, next_row as int, next_column as int, 1, 9);
                assert forall|s: Seq<Seq<u8>>| #[trigger] solution_of(g0, s) implies (exists|
                    k: int,
                |
                    0 <= k < stack@.len() && extends(#[trigger] stack@[k]@, s)) || (extends(cur, s)
                    && 1 <= s[next_row as int][next_column as int]) by {
                    let k0 = choose|k: int| 0 <= k < pre.len() && extends(#[trigger] pre[k]@, s);
                    if k0 == pre.len() - 1 {
                        assert(extends(cur, s));
                        assert(s[next_row as int][next_column as int] != 0);
                    } else {
                        assert(stack@[k0]@ == pre[k0]@);
                        assert(extends(stack@[k0]@, s));
                    }
                }
            }

            let mut value: u8 = 1;
            proof {
                assert(stack_measure(stack@) == base);
                let vm0 = (value - 1) as nat;
                let p0 = pow10((e - 1) as nat);
                assert(vm0 * p0 == 0) by (nonlinear_arith)
                    requires
                        vm0 == 0,
                ;
            }
            while value <= 9
                invariant
                    1 <= value <= 10,
                    next_row < 9,
                    next_column < 9,
                    cur == sudoku@,
                    cur[next_row as int][next_column as int] == 0,
                    e == count_empty(cur),
                    e >= 1,
                    extends(g0, cur),
                    only_digits_placed(g0, cur),
                    stack_measure(stack@) == base + ((value - 1) as nat) * pow10((e - 1) as nat),
                    forall|k: int| 0 <= k < stack@.len() ==> extends(g0, #[trigger] stack@[k]@),
                    forall|k: int|
                        0 <= k < stack@.len() ==> only_digits_placed(g0, #[trigger] stack@[k]@),
                    forall|s: Seq<Seq<u8>>|
                        #[trigger] solution_of(g0, s) ==> (exists|k: int|
                            0 <= k < stack@.len() && extends(#[trigger] stack@[k]@, s)) || (extends(
                            cur,
                            s,
                        ) && value <= s[next_row as int][next_column as int]),
                decreases 10 - value,
            {
                let ghost inner_pre = stack@;
                let mut next_sudoku = sudoku.clone();
                next_sudoku.set_value(next_row, next_column, value);
                proof {
                    let r = next_row as int;
                    let c = next_column as int;
                    assert(next_sudoku@ == grid_update(cur, r, c, value));
                    assert(g0[r][c] == 0);
                    assert forall|p: int, q: int|
                        0 <= p < 9 && 0 <= q < 9 && g0[p][q] != 0 implies #[trigger] next_sudoku@[p][q]
                        == g0[p][q] by {
                        assert(cur[p][q] == g0[p][q]);
                    }
                    assert(extends(g0, next_sudoku@));
                    assert(only_digits_placed(g0, next_sudoku@));
                    lemma_count_update(cur, r, c, value, 9);
                    assert(count_empty(next_sudoku@) == (e - 1) as nat);
                }
                stack.push_back(next_sudoku);
                proof {
                    assert(stack@.drop_last() =~= inner_pre);
                    assert(stack_measure(stack@) == stack_measure(inner_pre) + pow10(
                        (e - 1) as nat,
                    ));
                    let p = pow10((e - 1) as nat);
                    let vm = (value - 1) as nat;
                    assert(vm * p + p == (vm + 1) * p) by (nonlinear_arith);
                    assert((vm + 1) as nat == ((value + 1) - 1) as nat);
                    assert forall|s: Seq<Seq<u8>>| #[trigger] solution_of(g0, s) implies (exists|
                        k: int,
                    |
                        0 <= k < stack@.len() && extends(#[trigger] stack@[k]@, s)) || (extends(
                        cur,
                        s,
                    ) && value + 1 <= s[next_row as int][next_column as int]) by {
                        let r = next_row as int;
                        let c = next_column as int;
                        if exists|k: int|
                            0 <= k < inner_pre.len() && extends(#[trigger] inner_pre[k]@, s) {
                            let k0 = choose|k: int|
                                0 <= k < inner_pre.len() && extends(#[trigger] inner_pre[k]@, s);
                            assert(stack@[k0]@ == inner_pre[k0]@);
                            assert(extends(stack@[k0]@, s));
                        } else {
                            assert(extends(cur, s) && value <= s[r][c]);
                            assert(1 <= s[r][c] <= 9);
                            if s[r][c] == value {
                                assert forall|p: int, q: int|
                                    0 <= p < 9 && 0 <= q < 9 && next_sudoku@[p][q] != 0 implies #[trigger] s[p][q]
                                    == next_sudoku@[p][q] by {
                                    if p == r && q == c {
                                    } else {
                                        assert(next_sudoku@[p][q] == cur[p][q]);
                                    }
                                }
                                assert(extends(next_sudoku@, s));
                                assert(stack@[stack@.len() - 1]@ == next_sudoku@);
                            }
                        }
                    }
                }
                value = value + 1;
            }
            proof {
                assert forall|s: Seq<Seq<u8>>| #[trigger] solution_of(g0, s) implies exists|k: int|
                    0 <= k < stack@.len() && extends(#[trigger] stack@[k]@, s) by {
                    assert(s[next_row as int][next_column as int] <= 9);
                }
                lemma_pow10_pos((e - 1) as nat);
                assert(pow10(e) == 10 * pow10((e - 1) as nat));
                assert(stack_measure(stack@) == base + 9 * pow10((e - 1) as nat));
                assert(stack_measure(stack@) < stack_measure(pre));
            }
        }
    }
    proof {
        assert forall|s: Seq<Seq<u8>>| !solution_of(g0, s) by {
            if solution_of(g0, s) {
                let k = choose|k: int| 0 <= k < stack@.len() && extends(#[trigger] stack@[k]@, s);
                assert(false);
            }
        }
        if cells_in_range(g0) && grid_full(g0) && partially_valid(g0) {
            assert(extends(g0, g0));
            assert(solution_of(g0, g0));
            assert(false);
        }
    }
    None
}

} // verus!
