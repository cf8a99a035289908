use sudoku::num::{int_sqrt, parse_i8};

#[test]
fn parses_plain_digits() {
    assert_eq!(parse_i8(b"0"), Some(0));
    assert_eq!(parse_i8(b"9"), Some(9));
    assert_eq!(parse_i8(b"42"), Some(42));
    assert_eq!(parse_i8(b"127"), Some(127));
}

#[test]
fn parses_signed_literals() {
    assert_eq!(parse_i8(b"+1"), Some(1));
    assert_eq!(parse_i8(b"-1"), Some(-1));
    assert_eq!(parse_i8(b"-128"), Some(-128));
    assert_eq!(parse_i8(b"+127"), Some(127));
}

#[test]
fn rejects_out_of_range() {
    assert_eq!(parse_i8(b"128"), None);
    assert_eq!(parse_i8(b"-129"), None);
    assert_eq!(parse_i8(b"1000"), None);
    assert_eq!(parse_i8(b"99999999999999999999"), None);
}

#[test]
fn rejects_malformed_literals() {
    assert_eq!(parse_i8(b""), None);
    assert_eq!(parse_i8(b"+"), None);
    assert_eq!(parse_i8(b"-"), None);
    assert_eq!(parse_i8(b"1 2"), None);
    assert_eq!(parse_i8(b"2x"), None);
    assert_eq!(parse_i8(b"."), None);
    assert_eq!(parse_i8(b"--1"), None);
}

#[test]
fn integer_square_roots() {
    assert_eq!(int_sqrt(0), 0);
    assert_eq!(int_sqrt(1), 1);
    assert_eq!(int_sqrt(3), 1);
    assert_eq!(int_sqrt(4), 2);
    assert_eq!(int_sqrt(15), 3);
    assert_eq!(int_sqrt(16), 4);
    assert_eq!(int_sqrt(81), 9);
    assert_eq!(int_sqrt(82), 9);
}
