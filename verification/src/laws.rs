//! Proved facts about the grid model that the solver and its callers rely on:
//! conflicts survive extension, extending a full grid changes nothing, and a
//! full consistent grid is a complete legal solution.

use crate::parse::is_digit_char;
use crate::parse::smd_grid;
use crate::parse::smd_ok;
use crate::sudoku::band_consistent;
use crate::sudoku::digit_char;
use crate::sudoku::smd_chars;
use crate::sudoku::box_of;
use crate::sudoku::cells_in_range;
use crate::sudoku::col_of;
use crate::sudoku::extends;
use crate::sudoku::grid_full;
use crate::sudoku::grid_wf;
use crate::sudoku::partially_valid;
use crate::sudoku::row_of;
use vstd::prelude::*;
use vstd::set_lib::lemma_int_range;
use vstd::set_lib::lemma_subset_equality;
use vstd::set_lib::set_int_range;

verus! {

/// A duplicate among the filled cells never goes away: every grid that extends
/// a grid failing the lenient consistency check fails it as well. This is why
/// the solver may prune an inconsistent branch without expanding it.
pub proof fn lemma_conflict_preserved(base: Seq<Seq<u8>>, g: Seq<Seq<u8>>)
    requires
        grid_wf(base),
        grid_wf(g),
        extends(base, g),
        !partially_valid(base),
    ensures
        !partially_valid(g),
{
    let i = choose|i: int|
        0 <= i < 9 && !(band_consistent(row_of(base, i)) && band_consistent(col_of(base, i))
            && band_consistent(box_of(base, i)));
    if !band_consistent(row_of(base, i)) {
        let (p, q) = choose|p: int, q: int|
            0 <= p < 9 && 0 <= q < 9 && p != q && row_of(base, i)[p] != 0 && row_of(base, i)[p]
                == row_of(base, i)[q];
        assert(row_of(g, i)[p] == base[i][p]);
        assert(row_of(g, i)[q] == base[i][q]);
        assert(!band_consistent(row_of(g, i)));
    } else if !band_consistent(col_of(base, i)) {
        let (p, q) = choose|p: int, q: int|
            0 <= p < 9 && 0 <= q < 9 && p != q && col_of(base, i)[p] != 0 && col_of(base, i)[p]
                == col_of(base, i)[q];
        assert(col_of(g, i)[p] == base[p][i]);
        assert(col_of(g, i)[q] == base[q][i]);
        assert(!band_consistent(col_of(g, i)));
    } else {
        let (p, q) = choose|p: int, q: int|
            0 <= p < 9 && 0 <= q < 9 && p != q && box_of(base, i)[p] != 0 && box_of(base, i)[p]
                == box_of(base, i)[q];
        assert(box_of(g, i)[p] == base[3 * (i / 3) + p / 3][3 * (i % 3) + p % 3]);
        assert(box_of(g, i)[q] == base[3 * (i / 3) + q / 3][3 * (i % 3) + q % 3]);
        assert(!band_consistent(box_of(g, i)));
    }
}

/// Extending a grid with no empty cell changes nothing: the extension is the
/// same grid. Hence solving an already complete, consistent grid returns it
/// unchanged.
pub proof fn lemma_extends_full_equal(base: Seq<Seq<u8>>, g: Seq<Seq<u8>>)
    requires
        grid_wf(base),
        grid_wf(g),
        grid_full(base),
        extends(base, g),
    ensures
        g == base,
{
    assert(g =~~= base);
}

/// Nine pairwise distinct digits, each between 1 and 9, cover every digit
/// between 1 and 9.
pub proof fn lemma_band_complete(b: Seq<u8>)
    requires
        b.len() == 9,
        forall|i: int| 0 <= i < 9 ==> 1 <= #[trigger] b[i] <= 9,
        band_consistent(b),
    ensures
        forall|d: u8| 1 <= d <= 9 ==> #[trigger] b.contains(d),
{
    broadcast use vstd::seq_lib::seq_to_set_is_finite;

    let bi = b.map_values(|v: u8| v as int);
    assert(bi.no_duplicates()) by {
        assert forall|i: int, j: int|
            0 <= i < bi.len() && 0 <= j < bi.len() && i != j implies bi[i] != bi[j] by {
            assert(b[i] != 0);
            assert(b[i] != b[j]);
        }
    }
    bi.unique_seq_to_set();
    let rng = set_int_range(1, 10);
    lemma_int_range(1, 10);
    assert(bi.to_set().subset_of(rng)) by {
        assert forall|x: int| bi.to_set().contains(x) implies rng.contains(x) by {
            let i = choose|i: int| 0 <= i < bi.len() && bi[i] == x;
            assert(1 <= b[i] <= 9);
        }
    }
    lemma_subset_equality(bi.to_set(), rng);
    assert forall|d: u8| 1 <= d <= 9 implies #[trigger] b.contains(d) by {
        assert(rng.contains(d as int));
        assert(bi.contains(d as int));
        let i = choose|i: int| 0 <= i < bi.len() && bi[i] == d as int;
        assert(b[i] == d);
    }
}

/// A grid with no empty cell that passes the lenient consistency check is a
/// fully legal solution: every digit 1..=9 occurs in every row, every column
/// and every box — and, each band being nine duplicate-free cells, exactly
/// once in each.
pub proof fn lemma_full_valid_grid_is_legal(g: Seq<Seq<u8>>)
    requires
        grid_wf(g),
        cells_in_range(g),
        grid_full(g),
        partially_valid(g),
    ensures
        forall|i: int, d: u8| 0 <= i < 9 && 1 <= d <= 9 ==> #[trigger] row_of(g, i).contains(d),
        forall|i: int, d: u8| 0 <= i < 9 && 1 <= d <= 9 ==> #[trigger] col_of(g, i).contains(d),
        forall|i: int, d: u8| 0 <= i < 9 && 1 <= d <= 9 ==> #[trigger] box_of(g, i).contains(d),
{
    assert forall|i: int, d: u8| 0 <= i < 9 && 1 <= d <= 9 implies #[trigger] row_of(
        g,
        i,
    ).contains(d) by {
        let b = row_of(g, i);
        assert forall|k: int| 0 <= k < 9 implies 1 <= #[trigger] b[k] <= 9 by {
            assert(g[i][k] != 0);
            assert(g[i][k] <= 9);
        }
        lemma_band_complete(b);
    }
    assert forall|i: int, d: u8| 0 <= i < 9 && 1 <= d <= 9 implies #[trigger] col_of(
        g,
        i,
    ).contains(d) by {
        let b = col_of(g, i);
        assert forall|k: int| 0 <= k < 9 implies 1 <= #[trigger] b[k] <= 9 by {
            assert(g[k][i] != 0);
            assert(g[k][i] <= 9);
        }
        lemma_band_complete(b);
    }
    assert forall|i: int, d: u8| 0 <= i < 9 && 1 <= d <= 9 implies #[trigger] box_of(
        g,
        i,
    ).contains(d) by {
        let b = box_of(g, i);
        assert forall|k: int| 0 <= k < 9 implies 1 <= #[trigger] b[k] <= 9 by {
            assert(0 <= 3 * (i / 3) + k / 3 < 9);
            assert(0 <= 3 * (i % 3) + k % 3 < 9);
            assert(g[3 * (i / 3) + k / 3][3 * (i % 3) + k % 3] != 0);
            assert(g[3 * (i / 3) + k / 3][3 * (i % 3) + k % 3] <= 9);
        }
        lemma_band_complete(b);
    }
}

/// Round trip: the flat text form rendered from a grid always parses, and it
/// parses back to the very same grid.
pub proof fn lemma_smd_round_trip(g: Seq<Seq<u8>>)
    requires
        grid_wf(g),
        cells_in_range(g),
    ensures
        smd_ok(smd_chars(g)),
        smd_grid(smd_chars(g)) == g,
{
    let s = smd_chars(g);
    assert(s.len() == 81);
    assert forall|i: int| 0 <= i < s.len() && i < 81 implies is_digit_char(#[trigger] s[i]) by {
        assert(0 <= i / 9 < 9 && 0 <= i % 9 < 9);
        assert(g[i / 9][i % 9] <= 9);
        assert(s[i] == digit_char(g[i / 9][i % 9]));
    }
    assert forall|r: int, c: int| 0 <= r < 9 && 0 <= c < 9 implies smd_grid(s)[r][c] == #[trigger] g[r][c] by {
        let i = 9 * r + c;
        assert(0 <= i < 81);
        assert(i / 9 == r && i % 9 == c);
        assert(s[i] == digit_char(g[r][c]));
        assert(g[r][c] <= 9);
    }
    assert(smd_grid(s) =~~= g);
}

} // verus!
