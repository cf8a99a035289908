use sudoku::grid::{Cell, ParseError};
use sudoku::load::parse_grid;

#[test]
fn four_by_four_loads() {
    let g = parse_grid(b"1 . 3 4\n. 2 . .\n3 . 1 .\n. 4 . 2\n").unwrap();
    assert_eq!(g.size, 4);
    assert_eq!(g.block_size, 2);
    assert_eq!(g.data.len(), 4);
    for row in &g.data {
        assert_eq!(row.len(), 4);
    }
    assert_eq!(g.data[0][0], Cell { fixed: true, val: 1 });
    assert_eq!(g.data[0][1], Cell { fixed: false, val: 0 });
    assert_eq!(g.data[3][1], Cell { fixed: true, val: 4 });
}

#[test]
fn nine_by_nine_loads() {
    let mut text = Vec::new();
    for r in 0..9 {
        for c in 0..9 {
            if (r + c) % 2 == 0 {
                text.extend_from_slice(format!("{}", (r + c) % 9 + 1).as_bytes());
            } else {
                text.push(b'.');
            }
            text.push(if c == 8 { b'\n' } else { b' ' });
        }
    }
    let g = parse_grid(&text).unwrap();
    assert_eq!(g.size, 9);
    assert_eq!(g.block_size, 3);
    assert_eq!(g.data[0][0], Cell { fixed: true, val: 1 });
    assert_eq!(g.data[0][1], Cell { fixed: false, val: 0 });
}

#[test]
fn three_by_three_is_rejected() {
    let e = parse_grid(b"1 . 3\n. 2 .\n3 . 1\n").unwrap_err();
    assert_eq!(e, ParseError::DimensionError { height: 3, width: 3 });
}

#[test]
fn five_by_five_is_rejected() {
    let mut text = Vec::new();
    for _ in 0..5 {
        text.extend_from_slice(b"1 2 3 4 5\n");
    }
    let e = parse_grid(&text).unwrap_err();
    assert_eq!(e, ParseError::DimensionError { height: 5, width: 5 });
}

#[test]
fn six_rows_of_nine_are_rejected() {
    let mut text = Vec::new();
    for _ in 0..6 {
        text.extend_from_slice(b"1 2 3 4 5 6 7 8 9\n");
    }
    let e = parse_grid(&text).unwrap_err();
    assert_eq!(e, ParseError::DimensionError { height: 6, width: 9 });
}

#[test]
fn ragged_rows_are_rejected() {
    let e = parse_grid(b"1 2\n1 2 3\n").unwrap_err();
    assert_eq!(e, ParseError::ShapeError);
    let e = parse_grid(b"1 2\n1\n1 2\n").unwrap_err();
    assert_eq!(e, ParseError::ShapeError);
}

#[test]
fn malformed_token_is_rejected() {
    let e = parse_grid(b"x\n").unwrap_err();
    assert_eq!(e, ParseError::CellParseError { token: b"x".to_vec() });
}

#[test]
fn first_malformed_token_is_named() {
    let e = parse_grid(b"1 y\nz 2\n").unwrap_err();
    assert_eq!(e, ParseError::CellParseError { token: b"y".to_vec() });
}

#[test]
fn malformed_token_beats_ragged_rows() {
    let e = parse_grid(b"1\nx 2 3\n").unwrap_err();
    assert_eq!(e, ParseError::CellParseError { token: b"x".to_vec() });
}

#[test]
fn shape_beats_dimensions() {
    let e = parse_grid(b"1 2\n3 4\n5 6\n").unwrap_err();
    assert_eq!(e, ParseError::DimensionError { height: 3, width: 2 });
}

#[test]
fn blank_cell_is_not_fixed() {
    let g = parse_grid(b".\n").unwrap();
    assert_eq!(g.size, 1);
    assert_eq!(g.block_size, 1);
    assert_eq!(g.data[0][0], Cell { fixed: false, val: 0 });
}

#[test]
fn given_cell_is_fixed() {
    let g = parse_grid(b"7\n").unwrap();
    assert_eq!(g.data[0][0], Cell { fixed: true, val: 7 });
}

#[test]
fn negative_value_is_kept() {
    let g = parse_grid(b"-5\n").unwrap();
    assert_eq!(g.data[0][0], Cell { fixed: true, val: -5 });
}

#[test]
fn signed_and_padded_literals() {
    assert_eq!(parse_grid(b"+3\n").unwrap().data[0][0].val, 3);
    assert_eq!(parse_grid(b"007\n").unwrap().data[0][0].val, 7);
    assert_eq!(parse_grid(b"-0\n").unwrap().data[0][0].val, 0);
}

#[test]
fn i8_range_bounds() {
    assert_eq!(parse_grid(b"127\n").unwrap().data[0][0].val, 127);
    assert_eq!(parse_grid(b"-128\n").unwrap().data[0][0].val, -128);
    assert_eq!(
        parse_grid(b"128\n").unwrap_err(),
        ParseError::CellParseError { token: b"128".to_vec() }
    );
    assert_eq!(
        parse_grid(b"-129\n").unwrap_err(),
        ParseError::CellParseError { token: b"-129".to_vec() }
    );
}

#[test]
fn near_blank_tokens_are_rejected() {
    assert_eq!(
        parse_grid(b"..\n").unwrap_err(),
        ParseError::CellParseError { token: b"..".to_vec() }
    );
    assert_eq!(
        parse_grid(b".5\n").unwrap_err(),
        ParseError::CellParseError { token: b".5".to_vec() }
    );
    assert_eq!(
        parse_grid(b"+\n").unwrap_err(),
        ParseError::CellParseError { token: b"+".to_vec() }
    );
}

#[test]
fn carriage_returns_are_whitespace() {
    let g = parse_grid(b"1\r\n").unwrap();
    assert_eq!(g.size, 1);
    assert_eq!(g.data[0][0].val, 1);
}

#[test]
fn tabs_separate_tokens() {
    let g = parse_grid(b"1\t.\t3\t4\n.\t2\t.\t.\n3\t.\t1\t.\n.\t4\t.\t2\n").unwrap();
    assert_eq!(g.size, 4);
    assert_eq!(g.block_size, 2);
}

#[test]
fn empty_lines_are_skipped() {
    let g = parse_grid(b"\n\n5\n\n").unwrap();
    assert_eq!(g.size, 1);
    assert_eq!(g.data[0][0].val, 5);
}

#[test]
fn whitespace_only_line_is_an_empty_row() {
    let e = parse_grid(b"5\n \n").unwrap_err();
    assert_eq!(e, ParseError::ShapeError);
}

#[test]
fn empty_input_is_an_empty_grid() {
    let g = parse_grid(b"").unwrap();
    assert_eq!(g.size, 0);
    assert_eq!(g.block_size, 0);
    assert!(g.data.is_empty());
}

#[test]
fn missing_trailing_newline_is_fine() {
    let g = parse_grid(b"4").unwrap();
    assert_eq!(g.size, 1);
    assert_eq!(g.data[0][0].val, 4);
}

#[test]
fn io_error_carries_path_and_reason() {
    let e = ParseError::IoError { path: String::from("puzzle.txt"), reason: String::from("missing") };
    assert!(matches!(e, ParseError::IoError { .. }));
}
