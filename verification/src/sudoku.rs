//! The 9x9 grid: its mathematical model, the band consistency checks, the scan
//! for the next empty cell, and cell updates.

use vstd::prelude::*;

verus! {

// ---------------------------------------------------------------------------
// The mathematical model: a grid is a sequence of nine rows of nine digits.
// ---------------------------------------------------------------------------

/// The grid has nine rows of nine cells each.
pub open spec fn grid_wf(g: Seq<Seq<u8>>) -> bool {
    &&& g.len() == 9
    &&& forall|r: int| 0 <= r < 9 ==> (#[trigger] g[r]).len() == 9
}

/// Every cell holds 0 (empty) or a digit 1..=9.
pub open spec fn cells_in_range(g: Seq<Seq<u8>>) -> bool {
    forall|r: int, c: int| 0 <= r < 9 && 0 <= c < 9 ==> #[trigger] g[r][c] <= 9
}

/// No nonzero value occurs twice in a band of nine cells; zeros are ignored.
pub open spec fn band_consistent(b: Seq<u8>) -> bool {
    forall|i: int, j: int|
        0 <= i < b.len() && 0 <= j < b.len() && i != j && #[trigger] b[i] != 0 ==> b[i]
            != #[trigger] b[j]
}

/// Row `r` of the grid, as a band.
pub open spec fn row_of(g: Seq<Seq<u8>>, r: int) -> Seq<u8> {
    g[r]
}

/// Column `c` of the grid, as a band.
pub open spec fn col_of(g: Seq<Seq<u8>>, c: int) -> Seq<u8> {
    Seq::new(9, |r: int| g[r][c])
}

/// Box `b` of the grid, as a band. Boxes are laid out row-major: box 0 covers
/// rows 0..3 and columns 0..3, box 1 covers rows 0..3 and columns 3..6, and so
/// on down to box 8 in the lower right corner.
pub open spec fn box_of(g: Seq<Seq<u8>>, b: int) -> Seq<u8> {
    Seq::new(9, |k: int| g[3 * (b / 3) + k / 3][3 * (b % 3) + k % 3])
}

/// The lenient validity used while searching: no band (row, column or box)
/// holds two equal nonzero digits; empty cells are allowed.
pub open spec fn partially_valid(g: Seq<Seq<u8>>) -> bool {
    forall|i: int|
        #![trigger row_of(g, i)]
        #![trigger col_of(g, i)]
        #![trigger box_of(g, i)]
        0 <= i < 9 ==> band_consistent(row_of(g, i)) && band_consistent(col_of(g, i))
            && band_consistent(box_of(g, i))
}

/// No cell is empty.
pub open spec fn grid_full(g: Seq<Seq<u8>>) -> bool {
    forall|r: int, c: int| 0 <= r < 9 && 0 <= c < 9 ==> #[trigger] g[r][c] != 0
}

/// The grid `g` agrees with `base` on every cell that `base` has filled in.
pub open spec fn extends(base: Seq<Seq<u8>>, g: Seq<Seq<u8>>) -> bool {
    forall|r: int, c: int|
        0 <= r < 9 && 0 <= c < 9 && base[r][c] != 0 ==> #[trigger] g[r][c] == base[r][c]
}

/// Every cell of `g` either keeps its value from `base` or holds a digit 1..=9.
pub open spec fn only_digits_placed(base: Seq<Seq<u8>>, g: Seq<Seq<u8>>) -> bool {
    forall|r: int, c: int|
        0 <= r < 9 && 0 <= c < 9 ==> #[trigger] g[r][c] == base[r][c] || (1 <= g[r][c] <= 9)
}

/// `s` is a solution of the puzzle `base`: a well-formed grid of digits 1..=9
/// that keeps every clue of `base` and has no duplicate in any band.
pub open spec fn solution_of(base: Seq<Seq<u8>>, s: Seq<Seq<u8>>) -> bool {
    &&& grid_wf(s)
    &&& cells_in_range(s)
    &&& extends(base, s)
    &&& grid_full(s)
    &&& partially_valid(s)
}

/// The grid with cell (r, c) set to `v` and every other cell unchanged.
pub open spec fn grid_update(g: Seq<Seq<u8>>, r: int, c: int, v: u8) -> Seq<Seq<u8>> {
    g.update(r, g[r].update(c, v))
}

// ---------------------------------------------------------------------------
// Text rendering: the character that stands for a digit, one row's line, the
// framed nine-line picture of a grid, and the flat 81-character form.
// ---------------------------------------------------------------------------

/// The character that displays the digit `d` (0 stands for an empty cell).
pub open spec fn digit_char(d: u8) -> char {
    if d == 0 {
        '0'
    } else if d == 1 {
        '1'
    } else if d == 2 {
        '2'
    } else if d == 3 {
        '3'
    } else if d == 4 {
        '4'
    } else if d == 5 {
        '5'
    } else if d == 6 {
        '6'
    } else if d == 7 {
        '7'
    } else if d == 8 {
        '8'
    } else {
        '9'
    }
}

/// One band rendered as a line: digits separated by blanks, with a `|` after
/// the third and the sixth digit, ending in a newline.
pub open spec fn row_chars(b: Seq<u8>) -> Seq<char> {
    seq![
        digit_char(b[0]),
        ' ',
        digit_char(b[1]),
        ' ',
        digit_char(b[2]),
        ' ',
        '|',
        ' ',
        digit_char(b[3]),
        ' ',
        digit_char(b[4]),
        ' ',
        digit_char(b[5]),
        ' ',
        '|',
        ' ',
        digit_char(b[6]),
        ' ',
        digit_char(b[7]),
        ' ',
        digit_char(b[8]),
        '\n',
    ]
}

/// The horizontal rule drawn between the grid's three row blocks.
pub open spec fn divider_chars() -> Seq<char> {
    "------+-------+------\n"@
}

/// The whole grid rendered for display: nine row lines with a divider before
/// the fourth and the seventh.
pub open spec fn grid_chars(g: Seq<Seq<u8>>) -> Seq<char> {
    row_chars(g[0]) + row_chars(g[1]) + row_chars(g[2]) + divider_chars() + row_chars(g[3])
        + row_chars(g[4]) + row_chars(g[5]) + divider_chars() + row_chars(g[6]) + row_chars(g[7])
        + row_chars(g[8])
}

/// The flat machine-readable form: the 81 cells in row-major order, one digit
/// character per cell.
pub open spec fn smd_chars(g: Seq<Seq<u8>>) -> Seq<char> {
    Seq::new(81, |i: int| digit_char(g[i / 9][i % 9]))
}

/// The one-character string displaying the digit `d`.
fn digit_str(d: u8) -> (r: &'static str)
    requires
        d <= 9,
    ensures
        r@ == seq![digit_char(d)],
{
    proof {
        reveal_strlit("0");
        reveal_strlit("1");
        reveal_strlit("2");
        reveal_strlit("3");
        reveal_strlit("4");
        reveal_strlit("5");
        reveal_strlit("6");
        reveal_strlit("7");
        reveal_strlit("8");
        reveal_strlit("9");
        assert("0"@ =~= seq!['0']);
        assert("1"@ =~= seq!['1']);
        assert("2"@ =~= seq!['2']);
        assert("3"@ =~= seq!['3']);
        assert("4"@ =~= seq!['4']);
        assert("5"@ =~= seq!['5']);
        assert("6"@ =~= seq!['6']);
        assert("7"@ =~= seq!['7']);
        assert("8"@ =~= seq!['8']);
        assert("9"@ =~= seq!['9']);
    }
    match d {
        0 => "0",
        1 => "1",
        2 => "2",
        3 => "3",
        4 => "4",
        5 => "5",
        6 => "6",
        7 => "7",
        8 => "8",
        _ => "9",
    }
}

// ---------------------------------------------------------------------------
// One band of nine cells, extracted from a row, a column or a box.
// ---------------------------------------------------------------------------

#[derive(Debug, Default, Clone, Copy)]
pub struct DataRow {
    pub values: [u8; 9],
}

impl DataRow {
    /// True iff no nonzero digit occurs twice in this band.
    pub fn is_valid(&self) -> (valid: bool)
        ensures
            valid == band_consistent(self.values@),
    {
        for i in 0..9usize
            invariant
                forall|p: int, q: int|
                    0 <= p < i && 0 <= q < 9 && p != q && #[trigger] self.values@[p] != 0
                        ==> self.values@[p] != #[trigger] self.values@[q],
        {
            for j in 0..9usize
                invariant
                    forall|q: int|
                        0 <= q < j && i != q && self.values@[i as int] != 0
                            ==> self.values@[i as int] != #[trigger] self.values@[q],
            {
                if i != j && self.values[i] != 0 && self.values[i] == self.values[j] {
                    return false;
                }
            }
        }
        true
    }

    /// This band as one display line.
    pub fn render(&self) -> (r: String)
        requires
            forall|i: int| 0 <= i < 9 ==> #[trigger] self.values@[i] <= 9,
        ensures
            r@ == row_chars(self.values@),
    {
        let mut out = String::new();
        out.append(digit_str(self.values[0]));
        out.append(" ");
        out.append(digit_str(self.values[1]));
        out.append(" ");
        out.append(digit_str(self.values[2]));
        out.append(" | ");
        out.append(digit_str(self.values[3]));
        out.append(" ");
        out.append(digit_str(self.values[4]));
        out.append(" ");
        out.append(digit_str(self.values[5]));
        out.append(" | ");
        out.append(digit_str(self.values[6]));
        out.append(" ");
        out.append(digit_str(self.values[7]));
        out.append(" ");
        out.append(digit_str(self.values[8]));
        out.append("\n");
        proof {
            reveal_strlit(" ");
            reveal_strlit(" | ");
            reveal_strlit("\n");
            assert(out@ =~= row_chars(self.values@));
        }
        out
    }
}

/*
  0 1 2   3 4 5   6 7 8       box indices
0 x x x | x x x | x x x  x x x | x x x | x x x
1 x x x | x x x | x x x  x 0 x | x 1 x | x 2 x
2 x x x | x x x | x x x  x x x | x x x | x x x
  ------+-------+------  ------+-------+------
3 x x x | x x x | x x x  x x x | x x x | x x x
4 x x x | x x x | x x x  x 3 x | x 4 x | x 5 x
5 x x x | x x x | x x x  x x x | x x x | x x x
  ------+-------+------  ------+-------+------
6 x x x | x x x | x x x  x x x | x x x | x x x
7 x x x | x x x | x x x  x 6 x | x 7 x | x 8 x
8 x x x | x x x | x x x  x x x | x x x | x x x
*/
#[derive(Debug, Default, Clone, Copy)]
pub struct Sudoku {
    pub values: [[u8; 9]; 9],
}

impl View for Sudoku {
    type V = Seq<Seq<u8>>;

    open spec fn view(&self) -> Seq<Seq<u8>> {
        Seq::new(9, |r: int| Seq::new(9, |c: int| self.values@[r]@[c]))
    }
}

impl Sudoku {
    /// The empty grid: all 81 cells unassigned.
    pub fn empty() -> (r: Sudoku)
        ensures
            forall|p: int, q: int| 0 <= p < 9 && 0 <= q < 9 ==> #[trigger] r@[p][q] == 0,
    {
        Sudoku { values: [[0u8; 9]; 9] }
    }

    /// True iff all 27 bands (9 rows, 9 columns, 9 boxes) are free of duplicate
    /// nonzero digits. A consistency check, not a completeness check: grids
    /// with empty cells can pass.
    pub fn is_valid(&self) -> (valid: bool)
        ensures
            valid == partially_valid(self@),
    {
        for idx in 0..9usize
            invariant
                forall|i: int|
                    #![trigger row_of(self@, i)]
                    #![trigger col_of(self@, i)]
                    #![trigger box_of(self@, i)]
                    0 <= i < idx ==> band_consistent(row_of(self@, i)) && band_consistent(
                        col_of(self@, i),
                    ) && band_consistent(box_of(self@, i)),
        {
            let row = self.get_row(idx).expect("Sudoku row malformed.");
            let column = self.get_column(idx).expect("Sudoku column malformed.");
            let s_box = self.get_box(idx).expect("Sudoku box is malformed");

            if !row.is_valid() {
                return false;
            }
            if !column.is_valid() {
                return false;
            }
            if !s_box.is_valid() {
                return false;
            }
        }
        true
    }

    /// The first empty cell in row-major order, as a (row, column) pair, or
    /// `None` when all 81 cells are filled.
    pub fn next_empty_cell(&self) -> (r: Option<(usize, usize)>)
        ensures
            match r {
                Some(cell) => {
                    &&& cell.0 < 9
                    &&& cell.1 < 9
                    &&& self@[cell.0 as int][cell.1 as int] == 0
                    &&& forall|p: int, q: int|
                        0 <= p < 9 && 0 <= q < 9 && (p < cell.0 || (p == cell.0 && q < cell.1))
                            ==> #[trigger] self@[p][q] != 0
                },
                None => grid_full(self@),
            },
            (r is None) <==> grid_full(self@),
    {
        for i in 0..9usize
            invariant
                forall|p: int, q: int|
                    0 <= p < i && 0 <= q < 9 ==> #[trigger] self@[p][q] != 0,
        {
            for j in 0..9usize
                invariant
                    forall|q: int| 0 <= q < j ==> #[trigger] self@[i as int][q] != 0,
            {
                if self.values[i][j] == 0 {
                    proof {
                        assert(self@[i as int][j as int] == 0);
                    }
                    return Some((i, j));
                }
            }
        }
        None
    }

    /// Writes `value` into cell (row, column). An out-of-range coordinate or a
    /// value above 9 is a silent no-op: the grid is left unchanged.
    pub fn set_value(&mut self, row: usize, column: usize, value: u8)
        ensures
            row < 9 && column < 9 && value <= 9 ==> final(self)@ == grid_update(
                old(self)@,
                row as int,
                column as int,
                value,
            ),
            !(row < 9 && column < 9 && value <= 9) ==> final(self)@ == old(self)@,
    {
        if row > 8 || column > 8 {
            return ;
        }
        if value > 9 {
            return ;
        }
        let mut cells = self.values[row];
        cells[column] = value;
        self.values[row] = cells;
        proof {
            assert(self@ =~~= grid_update(old(self)@, row as int, column as int, value));
        }
    }

    /// Row `idx` as a band, or `None` when `idx` is out of range.
    pub fn get_row(&self, idx: usize) -> (r: Option<DataRow>)
        ensures
            idx < 9 ==> (r matches Some(d) && d.values@ == row_of(self@, idx as int)),
            idx >= 9 ==> r is None,
    {
        if idx >= 9 {
            return None;
        }
        let row = self.values[idx];
        proof {
            assert(row@ =~= row_of(self@, idx as int));
        }
        Some(DataRow { values: row })
    }

    /// Column `idx` as a band, or `None` when `idx` is out of range.
    pub fn get_column(&self, idx: usize) -> (r: Option<DataRow>)
        ensures
            idx < 9 ==> (r matches Some(d) && d.values@ == col_of(self@, idx as int)),
            idx >= 9 ==> r is None,
    {
        if idx >= 9 {
            return None;
        }
        let column = [
            self.values[0][idx],
            self.values[1][idx],
            self.values[2][idx],
            self.values[3][idx],
            self.values[4][idx],
            self.values[5][idx],
            self.values[6][idx],
            self.values[7][idx],
            self.values[8][idx],
        ];
        proof {
            assert(column@ =~= col_of(self@, idx as int));
        }
        Some(DataRow { values: column })
    }

    /// Box `idx` as a band, or `None` when `idx` is out of range.
    pub fn get_box(&self, idx: usize) -> (r: Option<DataRow>)
        ensures
            idx < 9 ==> (r matches Some(d) && d.values@ == box_of(self@, idx as int)),
            idx >= 9 ==> r is None,
    {
        if idx >= 9 {
            return None;
        }
        let br = 3 * (idx / 3);
        let bc = 3 * (idx % 3);
        let data = [
            self.values[br][bc],
            self.values[br][bc + 1],
            self.values[br][bc + 2],
            self.values[br + 1][bc],
            self.values[br + 1][bc + 1],
            self.values[br + 1][bc + 2],
            self.values[br + 2][bc],
            self.values[br + 2][bc + 1],
            self.values[br + 2][bc + 2],
        ];
        proof {
            assert(data@ =~= box_of(self@, idx as int));
        }
        Some(DataRow { values: data })
    }

    /// The grid rendered for display: nine row lines with a horizontal rule
    /// before the fourth and the seventh.
    pub fn render(&self) -> (r: String)
        requires
            cells_in_range(self@),
        ensures
            r@ == grid_chars(self@),
    {
        let mut out = String::new();
        let divider = "------+-------+------\n";
        out.append(self.get_row(0).unwrap().render().as_str());
        out.append(self.get_row(1).unwrap().render().as_str());
        out.append(self.get_row(2).unwrap().render().as_str());
        out.append(divider);
        out.append(self.get_row(3).unwrap().render().as_str());
        out.append(self.get_row(4).unwrap().render().as_str());
        out.append(self.get_row(5).unwrap().render().as_str());
        out.append(divider);
        out.append(self.get_row(6).unwrap().render().as_str());
        out.append(self.get_row(7).unwrap().render().as_str());
        out.append(self.get_row(8).unwrap().render().as_str());
        proof {
            assert(out@ =~= grid_chars(self@));
        }
        out
    }

    /// The grid in its flat machine-readable form: 81 digit characters in
    /// row-major order.
    pub fn to_smd(&self) -> (r: String)
        requires
            cells_in_range(self@),
        ensures
            r@ == smd_chars(self@),
    {
        let mut out = String::new();
        for i in 0..81usize
            invariant
                out@.len() == i,
                forall|k: int| 0 <= k < i ==> out@[k] == smd_chars(self@)[k],
        {
            proof {
                assert(self@[(i / 9) as int][(i % 9) as int] <= 9);
            }
            out.append(digit_str(self.values[i / 9][i % 9]));
        }
        proof {
            assert(out@ =~= smd_chars(self@));
        }
        out
    }
}

} // verus!
