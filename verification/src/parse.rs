//! Parsing puzzle text into grids. Two formats are supported: the flat form
//! (81 digit characters, row-major) and the line-based form (one line per row,
//! lines starting with `#` skipped, non-digit characters reading as empty
//! cells). Reading a file is the caller's business: these functions take the
//! text.

use crate::sudoku::Sudoku;
use vstd::prelude::*;

verus! {

/// Why a puzzle text was rejected.
#[derive(Debug, Clone, Copy, PartialEq, Eq, Structural)]
pub enum ParseError {
    /// The file name does not end in a supported extension.
    UnsupportedExtension,
    /// The text does not hold a full nine-by-nine grid.
    MalformedGrid,
}

// ---------------------------------------------------------------------------
// Characters and digits.
// ---------------------------------------------------------------------------

/// The digit value of a digit character, and 10 for every other character.
pub open spec fn digit_val(c: char) -> u8 {
    if c == '0' {
        0
    } else if c == '1' {
        1
    } else if c == '2' {
        2
    } else if c == '3' {
        3
    } else if c == '4' {
        4
    } else if c == '5' {
        5
    } else if c == '6' {
        6
    } else if c == '7' {
        7
    } else if c == '8' {
        8
    } else if c == '9' {
        9
    } else {
        10
    }
}

pub open spec fn is_digit_char(c: char) -> bool {
    digit_val(c) <= 9
}

/// The digit a character stands for, or `None` for a non-digit.
fn char_to_digit(c: char) -> (r: Option<u8>)
    ensures
        (r is Some) <==> is_digit_char(c),
        r matches Some(d) ==> d == digit_val(c),
{
    match c {
        '0' => Some(0),
        '1' => Some(1),
        '2' => Some(2),
        '3' => Some(3),
        '4' => Some(4),
        '5' => Some(5),
        '6' => Some(6),
        '7' => Some(7),
        '8' => Some(8),
        '9' => Some(9),
        _ => None,
    }
}

// ---------------------------------------------------------------------------
// The flat form: 81 digit characters, row-major.
// ---------------------------------------------------------------------------

/// The cell at (r, c) that the flat form `s` describes: the digit at character
/// 9*r + c, or 0 where the text is shorter.
pub open spec fn smd_cell(s: Seq<char>, r: int, c: int) -> u8 {
    if 9 * r + c < s.len() {
        digit_val(s[9 * r + c])
    } else {
        0
    }
}

/// The grid that the flat form `s` describes.
pub open spec fn smd_grid(s: Seq<char>) -> Seq<Seq<u8>> {
    Seq::new(9, |r: int| Seq::new(9, |c: int| smd_cell(s, r, c)))
}

/// The first 81 characters (or all of them, if fewer) are digits.
pub open spec fn smd_ok(s: Seq<char>) -> bool {
    forall|i: int| 0 <= i < s.len() && i < 81 ==> is_digit_char(#[trigger] s[i])
}

/// Parses the flat form: the first 81 characters fill the cells in row-major
/// order; shorter text leaves the remaining cells empty, further text is
/// ignored. Fails exactly when a non-digit stands among the first 81
/// characters.
pub fn parse_smd(text: &str) -> (r: Result<Sudoku, ParseError>)
    ensures
        (r is Ok) <==> smd_ok(text@),
        r matches Ok(g) ==> g@ == smd_grid(text@),
        r matches Err(e) ==> e == ParseError::MalformedGrid,
{
    let len = text.unicode_len();
    let mut sudoku = Sudoku::empty();
    let mut idx: usize = 0;
    while idx < len && idx < 81
        invariant
            idx <= len,
            idx <= 81,
            forall|i: int| 0 <= i < idx ==> is_digit_char(#[trigger] text@[i]),
            forall|p: int, q: int|
                0 <= p < 9 && 0 <= q < 9 ==> #[trigger] sudoku@[p][q] == (if 9 * p + q < idx {
                    digit_val(text@[9 * p + q])
                } else {
                    0u8
                }),
        decreases 81 - idx,
    {
        let ch = text.get_char(idx);
        match char_to_digit(ch) {
            None => {
                return Err(ParseError::MalformedGrid);
            },
            Some(d) => {
                let ghost prev = sudoku@;
                sudoku.set_value(idx / 9, idx % 9, d);
                proof {
                    let r0 = (idx / 9) as int;
                    let c0 = (idx % 9) as int;
                    assert(9 * r0 + c0 == idx);
                    assert forall|p: int, q: int| 0 <= p < 9 && 0 <= q < 9 implies #[trigger] sudoku@[p][q]
                        == (if 9 * p + q < idx + 1 {
                        digit_val(text@[9 * p + q])
                    } else {
                        0u8
                    }) by {
                        if p == r0 && q == c0 {
                        } else {
                            assert(9 * p + q != idx);
                            assert(sudoku@[p][q] == prev[p][q]);
                        }
                    }
                }
            },
        }
        idx += 1;
    }
    proof {
        assert(sudoku@ =~~= smd_grid(text@));
    }
    Ok(sudoku)
}

// ---------------------------------------------------------------------------
// Lines.
// ---------------------------------------------------------------------------

/// The lines of `s` from position `i` on, `cur` being the line read so far: a
/// newline ends the current line; a last line without a final newline still
/// counts, an empty one does not.
pub open spec fn split_lines_from(s: Seq<char>, i: int, cur: Seq<char>) -> Seq<Seq<char>>
    decreases s.len() - i,
{
    if i < 0 || i >= s.len() {
        if cur.len() == 0 {
            Seq::empty()
        } else {
            seq![cur]
        }
    } else if s[i] == '\n' {
        seq![cur] + split_lines_from(s, i + 1, Seq::empty())
    } else {
        split_lines_from(s, i + 1, cur.push(s[i]))
    }
}

/// The lines of `s`, split at newline characters.
pub open spec fn split_lines(s: Seq<char>) -> Seq<Seq<char>> {
    split_lines_from(s, 0, Seq::empty())
}

/// Splits the text into lines at newline characters.
fn lines_of(text: &str) -> (r: Vec<Vec<char>>)
    ensures
        r.deep_view() == split_lines(text@),
{
    let len = text.unicode_len();
    let mut lines: Vec<Vec<char>> = Vec::new();
    let mut cur: Vec<char> = Vec::new();
    let mut idx: usize = 0;
    while idx < len
        invariant
            idx <= len,
            split_lines(text@) == lines.deep_view() + split_lines_from(text@, idx as int, cur@),
        decreases len - idx,
    {
        let ghost pre_lines = lines.deep_view();
        let ghost pre_cur = cur@;
        let ch = text.get_char(idx);
        if ch == '\n' {
            lines.push(cur);
            cur = Vec::new();
            proof {
                assert(lines.deep_view() =~~= pre_lines.push(pre_cur));
                assert(pre_lines + split_lines_from(text@, idx as int, pre_cur)
                    =~~= lines.deep_view() + split_lines_from(text@, idx + 1, cur@));
            }
        } else {
            cur.push(ch);
            proof {
                assert(split_lines_from(text@, idx as int, pre_cur) == split_lines_from(
                    text@,
                    idx + 1,
                    cur@,
                ));
            }
        }
        idx += 1;
    }
    if cur.len() > 0 {
        lines.push(cur);
        proof {
            assert(lines.deep_view() =~~= split_lines(text@));
        }
    } else {
        proof {
            assert(lines.deep_view() =~~= split_lines(text@));
        }
    }
    lines
}

// ---------------------------------------------------------------------------
// The line-based form.
// ---------------------------------------------------------------------------

/// A comment line: its first character is `#`.
pub open spec fn is_comment(l: Seq<char>) -> bool {
    l.len() > 0 && l[0] == '#'
}

/// A character read as a cell: its digit value, or an empty cell for a
/// non-digit.
pub open spec fn digit_or_zero(c: char) -> u8 {
    if is_digit_char(c) {
        digit_val(c)
    } else {
        0
    }
}

/// A line read as a row of cells.
pub open spec fn digit_row(l: Seq<char>) -> Seq<u8> {
    l.map_values(|c: char| digit_or_zero(c))
}

/// The rows that the non-comment lines describe, in order.
pub open spec fn sdk_rows(ls: Seq<Seq<char>>) -> Seq<Seq<u8>>
    decreases ls.len(),
{
    if ls.len() == 0 {
        Seq::empty()
    } else if is_comment(ls.last()) {
        sdk_rows(ls.drop_last())
    } else {
        sdk_rows(ls.drop_last()).push(digit_row(ls.last()))
    }
}

/// At least nine rows of at least nine cells each.
pub open spec fn rows_well_sized(d: Seq<Seq<u8>>) -> bool {
    d.len() >= 9 && forall|i: int| 0 <= i < 9 ==> (#[trigger] d[i]).len() >= 9
}

/// The top left nine-by-nine corner of the given rows.
pub open spec fn grid_of_rows(d: Seq<Seq<u8>>) -> Seq<Seq<u8>> {
    Seq::new(9, |r: int| Seq::new(9, |c: int| d[r][c]))
}

/// A character read as a cell value.
fn char_cell(c: char) -> (r: u8)
    ensures
        r == digit_or_zero(c),
{
    match char_to_digit(c) {
        Some(d) => d,
        None => 0,
    }
}

/// Assembles a grid from the top left nine-by-nine corner of the given rows,
/// ignoring anything beyond it. Fails exactly when fewer than nine rows are
/// given, or one of the first nine is shorter than nine cells.
pub fn from_vec(data: &Vec<Vec<u8>>) -> (r: Result<Sudoku, ParseError>)
    ensures
        (r is Ok) <==> rows_well_sized(data.deep_view()),
        r matches Ok(g) ==> g@ == grid_of_rows(data.deep_view()),
        r matches Err(e) ==> e == ParseError::MalformedGrid,
{
    if data.len() < 9 {
        return Err(ParseError::MalformedGrid);
    }
    for i in 0..9usize
        invariant
            data@.len() >= 9,
            forall|p: int| 0 <= p < i ==> (#[trigger] data.deep_view()[p]).len() >= 9,
    {
        if data[i].len() < 9 {
            proof {
                assert(data.deep_view()[i as int].len() < 9);
            }
            return Err(ParseError::MalformedGrid);
        }
        proof {
            assert(data.deep_view()[i as int].len() >= 9);
        }
    }
    let mut sudoku = Sudoku::empty();
    for i in 0..9usize
        invariant
            data@.len() >= 9,
            rows_well_sized(data.deep_view()),
            forall|p: int, q: int|
                0 <= p < i && 0 <= q < 9 ==> #[trigger] sudoku@[p][q] == data.deep_view()[p][q],
    {
        let ghost prev = sudoku@;
        let row = &data[i];
        proof {
            assert(data.deep_view()[i as int].len() >= 9);
            assert(row@.len() == data.deep_view()[i as int].len());
        }
        let cells = [row[0], row[1], row[2], row[3], row[4], row[5], row[6], row[7], row[8]];
        sudoku.values[i] = cells;
        proof {
            assert forall|p: int, q: int|
                0 <= p < i + 1 && 0 <= q < 9 implies #[trigger] sudoku@[p][q] == data.deep_view()[p][q] by {
                if p == i {
                    assert(sudoku@[p][q] == cells@[q]);
                    assert(data.deep_view()[p][q] == row@[q]);
                } else {
                    assert(sudoku@[p][q] == prev[p][q]);
                }
            }
        }
    }
    proof {
        assert(sudoku@ =~~= grid_of_rows(data.deep_view()));
    }
    Ok(sudoku)
}

/// Parses the line-based form: lines starting with `#` are skipped, every
/// other line contributes one row whose characters are read as digits, a
/// non-digit counting as an empty cell. The first nine rows of nine cells make
/// the grid.
pub fn parse_sdk(text: &str) -> (r: Result<Sudoku, ParseError>)
    ensures
        (r is Ok) <==> rows_well_sized(sdk_rows(split_lines(text@))),
        r matches Ok(g) ==> g@ == grid_of_rows(sdk_rows(split_lines(text@))),
        r matches Err(e) ==> e == ParseError::MalformedGrid,
{
    let lines = lines_of(text);
    let mut data: Vec<Vec<u8>> = Vec::new();
    let mut i: usize = 0;
    while i < lines.len()
        invariant
            i <= lines@.len(),
            lines.deep_view() == split_lines(text@),
            data.deep_view() == sdk_rows(lines.deep_view().subrange(0, i as int)),
        decreases lines@.len() - i,
    {
        let ghost pre_data = data.deep_view();
        let line = &lines[i];
        let skip = line.len() > 0 && line[0] == '#';
        if !skip {
            let mut rowv: Vec<u8> = Vec::new();
            let mut j: usize = 0;
            while j < line.len()
                invariant
                    j <= line@.len(),
                    rowv@.len() == j,
                    forall|k: int| 0 <= k < j ==> rowv@[k] == digit_or_zero(#[trigger] line@[k]),
                decreases line@.len() - j,
            {
                rowv.push(char_cell(line[j]));
                j += 1;
            }
            proof {
                assert(rowv@ =~= digit_row(line@));
            }
            data.push(rowv);
        }
        proof {
            let ls = lines.deep_view();
            assert(ls.subrange(0, i + 1).drop_last() =~= ls.subrange(0, i as int));
            assert(ls.subrange(0, i + 1).last() == ls[i as int]);
            assert(ls[i as int] == line.deep_view());
            assert(line.deep_view() =~= line@);
            if skip {
                assert(is_comment(ls[i as int]));
                assert(data.deep_view() == sdk_rows(ls.subrange(0, i + 1)));
            } else {
                assert(!is_comment(ls[i as int]));
                assert(data.deep_view() =~~= pre_data.push(digit_row(line@)));
                assert(data.deep_view() == sdk_rows(ls.subrange(0, i + 1)));
            }
        }
        i += 1;
    }
    proof {
        assert(lines.deep_view().subrange(0, lines.deep_view().len() as int) =~= lines.deep_view());
    }
    from_vec(&data)
}

// ---------------------------------------------------------------------------
// Format dispatch by file extension.
// ---------------------------------------------------------------------------

/// The path ends in a dot followed by the three given characters.
pub open spec fn has_extension(p: Seq<char>, e1: char, e2: char, e3: char) -> bool {
    &&& p.len() >= 4
    &&& p[p.len() - 4] == '.'
    &&& p[p.len() - 3] == e1
    &&& p[p.len() - 2] == e2
    &&& p[p.len() - 1] == e3
}

/// Parses puzzle text in the format its file name announces: `.sdk` for the
/// line-based form, `.smd` for the flat form. The caller reads the file and
/// hands in both the path and the text.
pub fn parse_sudoku(path: &str, text: &str) -> (r: Result<Sudoku, ParseError>)
    ensures
        has_extension(path@, 's', 'd', 'k') ==> {
            &&& ((r is Ok) <==> rows_well_sized(sdk_rows(split_lines(text@))))
            &&& (r matches Ok(g) ==> g@ == grid_of_rows(sdk_rows(split_lines(text@))))
            &&& (r matches Err(e) ==> e == ParseError::MalformedGrid)
        },
        !has_extension(path@, 's', 'd', 'k') && has_extension(path@, 's', 'm', 'd') ==> {
            &&& ((r is Ok) <==> smd_ok(text@))
            &&& (r matches Ok(g) ==> g@ == smd_grid(text@))
            &&& (r matches Err(e) ==> e == ParseError::MalformedGrid)
        },
        !has_extension(path@, 's', 'd', 'k') && !has_extension(path@, 's', 'm', 'd') ==> (r matches
            Err(e) && e == ParseError::UnsupportedExtension),
{
    let len = path.unicode_len();
    if len >= 4 && path.get_char(len - 4) == '.' {
        let c1 = path.get_char(len - 3);
        let c2 = path.get_char(len - 2);
        let c3 = path.get_char(len - 1);
        if c1 == 's' && c2 == 'd' && c3 == 'k' {
            return parse_sdk(text);
        }
        if c1 == 's' && c2 == 'm' && c3 == 'd' {
            return parse_smd(text);
        }
    }
    Err(ParseError::UnsupportedExtension)
}

} // verus!
