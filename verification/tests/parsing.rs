use sudoku_solver::parse::from_vec;
use sudoku_solver::parse::parse_sdk;
use sudoku_solver::parse::parse_smd;
use sudoku_solver::parse::parse_sudoku;
use sudoku_solver::parse::ParseError;
use sudoku_solver::sudoku::Sudoku;

#[test]
fn test_from_vec() {
    let expected: Vec<Vec<u8>> = vec![
        vec![2, 0, 0, 1, 0, 5, 0, 0, 3],
        vec![0, 5, 4, 0, 0, 0, 7, 1, 0],
        vec![0, 1, 0, 2, 0, 3, 0, 8, 0],
        vec![6, 0, 2, 8, 0, 7, 3, 0, 4],
        vec![0, 0, 0, 0, 0, 0, 0, 0, 0],
        vec![1, 0, 5, 3, 0, 9, 8, 0, 6],
        vec![0, 2, 0, 7, 0, 1, 0, 6, 0],
        vec![0, 8, 1, 0, 0, 0, 2, 4, 0],
        vec![7, 0, 0, 4, 0, 2, 0, 0, 1],
    ];

    let parsed = from_vec(&expected).unwrap();

    assert_eq!(expected, parsed.values);
}

#[test]
fn test_from_vec_too_few_rows() {
    let data: Vec<Vec<u8>> = vec![vec![0; 9]; 8];
    assert_eq!(Err(ParseError::MalformedGrid), from_vec(&data).map(|g| g.values));
}

#[test]
fn test_from_vec_short_row() {
    let mut data: Vec<Vec<u8>> = vec![vec![0; 9]; 9];
    data[4] = vec![1, 2, 3];
    assert_eq!(Err(ParseError::MalformedGrid), from_vec(&data).map(|g| g.values));
}

#[test]
fn test_sdk() {
    let text = "# clues\n\
                200105003\n\
                054000710\n\
                010203080\n\
                602807304\n\
                000000000\n\
                105309806\n\
                020701060\n\
                081000240\n\
                700402001\n";

    let expected = [
        [2, 0, 0, 1, 0, 5, 0, 0, 3],
        [0, 5, 4, 0, 0, 0, 7, 1, 0],
        [0, 1, 0, 2, 0, 3, 0, 8, 0],
        [6, 0, 2, 8, 0, 7, 3, 0, 4],
        [0, 0, 0, 0, 0, 0, 0, 0, 0],
        [1, 0, 5, 3, 0, 9, 8, 0, 6],
        [0, 2, 0, 7, 0, 1, 0, 6, 0],
        [0, 8, 1, 0, 0, 0, 2, 4, 0],
        [7, 0, 0, 4, 0, 2, 0, 0, 1],
    ];

    let parsed = parse_sdk(text).unwrap();

    assert_eq!(expected, parsed.values);
}

#[test]
fn test_sdk_non_digits_read_as_empty() {
    // separators and stray characters count as empty cells
    let text = "2..1.5..3\n\
                .54...71.\n\
                .1.2.3.8.\n\
                6.28.73.4\n\
                .........\n\
                1.53.98.6\n\
                .2.7.1.6.\n\
                .81...24.\n\
                7..4.2..1\n";
    let parsed = parse_sdk(text).unwrap();
    assert_eq!(
        [
            [2, 0, 0, 1, 0, 5, 0, 0, 3],
            [0, 5, 4, 0, 0, 0, 7, 1, 0],
            [0, 1, 0, 2, 0, 3, 0, 8, 0],
            [6, 0, 2, 8, 0, 7, 3, 0, 4],
            [0, 0, 0, 0, 0, 0, 0, 0, 0],
            [1, 0, 5, 3, 0, 9, 8, 0, 6],
            [0, 2, 0, 7, 0, 1, 0, 6, 0],
            [0, 8, 1, 0, 0, 0, 2, 4, 0],
            [7, 0, 0, 4, 0, 2, 0, 0, 1],
        ],
        parsed.values
    );
}

#[test]
fn test_sdk_too_few_lines() {
    let text = "# clues\n200105003\n054000710\n";
    assert_eq!(Err(ParseError::MalformedGrid), parse_sdk(text).map(|g| g.values));
}

#[test]
fn test_smd() {
    let text = "000400098000509012000030000809004500052180040000000030960800000400020000008900600";

    let expected = [
        [0, 0, 0, 4, 0, 0, 0, 9, 8],
        [0, 0, 0, 5, 0, 9, 0, 1, 2],
        [0, 0, 0, 0, 3, 0, 0, 0, 0],
        [8, 0, 9, 0, 0, 4, 5, 0, 0],
        [0, 5, 2, 1, 8, 0, 0, 4, 0],
        [0, 0, 0, 0, 0, 0, 0, 3, 0],
        [9, 6, 0, 8, 0, 0, 0, 0, 0],
        [4, 0, 0, 0, 2, 0, 0, 0, 0],
        [0, 0, 8, 9, 0, 0, 6, 0, 0],
    ];

    let parsed = parse_smd(text).unwrap();

    assert_eq!(expected, parsed.values);
}

#[test]
fn test_smd_short_text_leaves_empty_cells() {
    let parsed = parse_smd("123").unwrap();
    let mut expected = [[0u8; 9]; 9];
    expected[0][0] = 1;
    expected[0][1] = 2;
    expected[0][2] = 3;
    assert_eq!(expected, parsed.values);
}

#[test]
fn test_smd_rejects_non_digit() {
    let text = "0004000980005090120000300x0809004500052180040000000030960800000400020000008900600";
    assert_eq!(Err(ParseError::MalformedGrid), parse_smd(text).map(|g| g.values));
}

#[test]
fn test_parse_sudoku_dispatch() {
    let flat = "000400098000509012000030000809004500052180040000000030960800000400020000008900600";
    let by_smd = parse_sudoku("puzzles/example.smd", flat).unwrap();
    let direct = parse_smd(flat).unwrap();
    assert_eq!(direct.values, by_smd.values);

    let lines = "# clues\n200105003\n054000710\n010203080\n602807304\n000000000\n105309806\n020701060\n081000240\n700402001\n";
    let by_sdk = parse_sudoku("puzzles/example.sdk", lines).unwrap();
    let direct = parse_sdk(lines).unwrap();
    assert_eq!(direct.values, by_sdk.values);
}

#[test]
fn test_parse_sudoku_unsupported_extension() {
    assert_eq!(
        Err(ParseError::UnsupportedExtension),
        parse_sudoku("puzzle.txt", "123").map(|g| g.values)
    );
    assert_eq!(
        Err(ParseError::UnsupportedExtension),
        parse_sudoku("no_extension", "123").map(|g| g.values)
    );
}

#[test]
fn test_smd_round_trip() {
    let sudoku = Sudoku {
        values: [
            [2, 0, 0, 1, 0, 5, 0, 0, 3],
            [0, 5, 4, 0, 0, 0, 7, 1, 0],
            [0, 1, 0, 2, 0, 3, 0, 8, 0],
            [6, 0, 2, 8, 0, 7, 3, 0, 4],
            [0, 0, 0, 0, 0, 0, 0, 0, 0],
            [1, 0, 5, 3, 0, 9, 8, 0, 6],
            [0, 2, 0, 7, 0, 1, 0, 6, 0],
            [0, 8, 1, 0, 0, 0, 2, 4, 0],
            [7, 0, 0, 4, 0, 2, 0, 0, 1],
        ],
    };
    let text = sudoku.to_smd();
    assert_eq!(
        "200105003054000710010203080602807304000000000105309806020701060081000240700402001",
        text
    );
    let parsed = parse_smd(text.as_str()).unwrap();
    assert_eq!(sudoku.values, parsed.values);
}
