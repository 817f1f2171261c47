use sudoku_solver::sudoku::DataRow;
use sudoku_solver::sudoku::Sudoku;

#[test]
fn test_valid_row() {
    // row is valid
    let row = DataRow {
        values: [3, 4, 2, 1, 8, 7, 9, 6, 5],
    };
    assert!(row.is_valid(), "Should be valid row.");

    // row has duplicates
    let row = DataRow {
        values: [3, 3, 2, 1, 8, 7, 9, 6, 5],
    };
    assert!(!row.is_valid(), "Should be invalid due to duplicates.");
}

#[test]
fn test_get_box() {
    let test_sudoku = Sudoku {
        values: [
            [2, 0, 0, 1, 0, 5, 0, 0, 3],
            [0, 5, 4, 0, 0, 0, 7, 1, 0],
            [0, 1, 0, 2, 0, 3, 0, 8, 0],
            [6, 0, 2, 8, 0, 7, 3, 0, 4],
            [0, 0, 0, 0, 0, 0, 0, 0, 0],
            [1, 0, 5, 3, 0, 9, 8, 0, 6],
            [0, 2, 0, 7, 0, 1, 0, 6, 0],
            [0, 8, 1, 0, 0, 0, 2, 4, 0],
            [7, 0, 0, 4, 0, 2, 0, 0, 1],
        ],
    };

    let expected = [2, 0, 0, 0, 5, 4, 0, 1, 0];
    assert_eq!(expected, test_sudoku.get_box(0).unwrap().values);

    let expected = [8, 0, 7, 0, 0, 0, 3, 0, 9];
    assert_eq!(expected, test_sudoku.get_box(4).unwrap().values);

    let expected = [0, 6, 0, 2, 4, 0, 0, 0, 1];
    assert_eq!(expected, test_sudoku.get_box(8).unwrap().values);
}

#[test]
fn test_next_empty_cell() {
    let test_sudoku = Sudoku {
        values: [
            [2, 0, 0, 1, 0, 5, 0, 0, 3],
            [0, 5, 4, 0, 0, 0, 7, 1, 0],
            [0, 1, 0, 2, 0, 3, 0, 8, 0],
            [6, 0, 2, 8, 0, 7, 3, 0, 4],
            [0, 0, 0, 0, 0, 0, 0, 0, 0],
            [1, 0, 5, 3, 0, 9, 8, 0, 6],
            [0, 2, 0, 7, 0, 1, 0, 6, 0],
            [0, 8, 1, 0, 0, 0, 2, 4, 0],
            [7, 0, 0, 4, 0, 2, 0, 0, 1],
        ],
    };

    assert_eq!((0, 1), test_sudoku.next_empty_cell().unwrap());

    let test_sudoku = Sudoku {
        values: [
            [2, 3, 6, 1, 4, 5, 9, 7, 3],
            [0, 5, 4, 0, 0, 0, 7, 1, 0],
            [0, 1, 0, 2, 0, 3, 0, 8, 0],
            [6, 0, 2, 8, 0, 7, 3, 0, 4],
            [0, 0, 0, 0, 0, 0, 0, 0, 0],
            [1, 0, 5, 3, 0, 9, 8, 0, 6],
            [0, 2, 0, 7, 0, 1, 0, 6, 0],
            [0, 8, 1, 0, 0, 0, 2, 4, 0],
            [7, 0, 0, 4, 0, 2, 0, 0, 1],
        ],
    };

    assert_eq!((1, 0), test_sudoku.next_empty_cell().unwrap());
}

#[test]
fn test_next_empty_cell_full() {
    let test_sudoku = Sudoku {
        values: [
            [5, 3, 6, 4, 1, 2, 7, 9, 8],
            [7, 8, 4, 5, 6, 9, 3, 1, 2],
            [2, 9, 1, 7, 3, 8, 4, 6, 5],
            [8, 1, 9, 3, 7, 4, 5, 2, 6],
            [3, 5, 2, 1, 8, 6, 9, 4, 7],
            [6, 4, 7, 2, 9, 5, 8, 3, 1],
            [9, 6, 3, 8, 5, 1, 2, 7, 4],
            [4, 7, 5, 6, 2, 3, 1, 8, 9],
            [1, 2, 8, 9, 4, 7, 6, 5, 3],
        ],
    };
    assert!(test_sudoku.next_empty_cell().is_none());
}

#[test]
fn test_set_value() {
    let mut test_sudoku = Sudoku {
        values: [
            [2, 3, 6, 1, 4, 5, 9, 7, 3],
            [0, 5, 4, 0, 0, 0, 7, 1, 0],
            [0, 1, 0, 2, 0, 3, 0, 8, 0],
            [6, 0, 2, 8, 0, 7, 3, 0, 4],
            [0, 0, 0, 0, 0, 0, 0, 0, 0],
            [1, 0, 5, 3, 0, 9, 8, 0, 6],
            [0, 2, 0, 7, 0, 1, 0, 6, 0],
            [0, 8, 1, 0, 0, 0, 2, 4, 0],
            [7, 0, 0, 4, 0, 2, 0, 0, 1],
        ],
    };

    test_sudoku.set_value(1, 0, 8);
    let expected_sudoku = Sudoku {
        values: [
            [2, 3, 6, 1, 4, 5, 9, 7, 3],
            [8, 5, 4, 0, 0, 0, 7, 1, 0],
            [0, 1, 0, 2, 0, 3, 0, 8, 0],
            [6, 0, 2, 8, 0, 7, 3, 0, 4],
            [0, 0, 0, 0, 0, 0, 0, 0, 0],
            [1, 0, 5, 3, 0, 9, 8, 0, 6],
            [0, 2, 0, 7, 0, 1, 0, 6, 0],
            [0, 8, 1, 0, 0, 0, 2, 4, 0],
            [7, 0, 0, 4, 0, 2, 0, 0, 1],
        ],
    };

    assert_eq!(expected_sudoku.values, test_sudoku.values);
}

#[test]
fn test_set_value_out_of_range_is_no_op() {
    let mut test_sudoku = Sudoku {
        values: [[7; 9]; 9],
    };
    let before = test_sudoku.values;
    test_sudoku.set_value(9, 0, 5);
    assert_eq!(before, test_sudoku.values);
    test_sudoku.set_value(0, 9, 5);
    assert_eq!(before, test_sudoku.values);
    test_sudoku.set_value(0, 0, 10);
    assert_eq!(before, test_sudoku.values);
    // 0 is accepted as a value and clears the cell
    test_sudoku.set_value(0, 0, 0);
    assert_eq!(0, test_sudoku.values[0][0]);
}

#[test]
fn test_is_valid() {
    // a consistent but incomplete grid passes
    let test_sudoku = Sudoku {
        values: [
            [2, 0, 0, 1, 0, 5, 0, 0, 3],
            [0, 5, 4, 0, 0, 0, 7, 1, 0],
            [0, 1, 0, 2, 0, 3, 0, 8, 0],
            [6, 0, 2, 8, 0, 7, 3, 0, 4],
            [0, 0, 0, 0, 0, 0, 0, 0, 0],
            [1, 0, 5, 3, 0, 9, 8, 0, 6],
            [0, 2, 0, 7, 0, 1, 0, 6, 0],
            [0, 8, 1, 0, 0, 0, 2, 4, 0],
            [7, 0, 0, 4, 0, 2, 0, 0, 1],
        ],
    };
    assert!(test_sudoku.is_valid());

    // two equal nonzero digits in one column fail it
    let mut bad = test_sudoku;
    bad.set_value(1, 0, 2);
    assert!(!bad.is_valid());

    // two equal nonzero digits in one box fail it
    let mut bad = test_sudoku;
    bad.set_value(1, 0, 5);
    assert!(!bad.is_valid());
}

#[test]
fn test_render() {
    let test_sudoku = Sudoku {
        values: [
            [2, 0, 0, 1, 0, 5, 0, 0, 3],
            [0, 5, 4, 0, 0, 0, 7, 1, 0],
            [0, 1, 0, 2, 0, 3, 0, 8, 0],
            [6, 0, 2, 8, 0, 7, 3, 0, 4],
            [0, 0, 0, 0, 0, 0, 0, 0, 0],
            [1, 0, 5, 3, 0, 9, 8, 0, 6],
            [0, 2, 0, 7, 0, 1, 0, 6, 0],
            [0, 8, 1, 0, 0, 0, 2, 4, 0],
            [7, 0, 0, 4, 0, 2, 0, 0, 1],
        ],
    };
    let expected = "2 0 0 | 1 0 5 | 0 0 3\n\
                    0 5 4 | 0 0 0 | 7 1 0\n\
                    0 1 0 | 2 0 3 | 0 8 0\n\
                    ------+-------+------\n\
                    6 0 2 | 8 0 7 | 3 0 4\n\
                    0 0 0 | 0 0 0 | 0 0 0\n\
                    1 0 5 | 3 0 9 | 8 0 6\n\
                    ------+-------+------\n\
                    0 2 0 | 7 0 1 | 0 6 0\n\
                    0 8 1 | 0 0 0 | 2 4 0\n\
                    7 0 0 | 4 0 2 | 0 0 1\n";
    assert_eq!(expected, test_sudoku.render());
}
