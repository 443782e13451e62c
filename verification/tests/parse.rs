use slitherlink_core::parse::{parse_header, parse_puzzle};
use slitherlink_core::Cell::{Clue, Empty};
use slitherlink_core::{ParseError, Puzzle};

#[test]
fn parses_with_row_newlines() {
    let p: Puzzle = "3x2\n3a2\nb1\n".parse().unwrap();
    assert_eq!(p.width(), 3);
    assert_eq!(p.height(), 2);
    assert_eq!(p.cells(), &[Clue(3), Empty, Clue(2), Empty, Empty, Clue(1)]);
}

#[test]
fn parses_without_row_newlines() {
    let p: Puzzle = "3x2\n3a2b1".parse().unwrap();
    assert_eq!(p.cells(), &[Clue(3), Empty, Clue(2), Empty, Empty, Clue(1)]);
}

#[test]
fn parses_with_extra_newlines() {
    let p: Puzzle = "3x2\n\n3a2\n\nb1\n\n".parse().unwrap();
    assert_eq!(p.cells(), &[Clue(3), Empty, Clue(2), Empty, Empty, Clue(1)]);
}

#[test]
fn parses_run_crossing_row_boundary() {
    let p: Puzzle = "3x2\nf".parse().unwrap();
    assert_eq!(p.cells(), &[Empty; 6]);
}

#[test]
fn parses_crlf() {
    let p: Puzzle = "3x2\r\n3a2\r\nb1\r\n".parse().unwrap();
    assert_eq!(p.cells(), &[Clue(3), Empty, Clue(2), Empty, Empty, Clue(1)]);
}

#[test]
fn rejects_missing_header_newline() {
    assert_eq!("3x2".parse::<Puzzle>(), Err(ParseError::MissingHeaderNewline));
}

#[test]
fn rejects_bad_header() {
    let err = "3y2\n".parse::<Puzzle>().unwrap_err();
    assert!(matches!(err, ParseError::InvalidHeader(_)));
}

#[test]
fn rejects_unexpected_char() {
    let err = "3x2\n3a2\nb!1".parse::<Puzzle>().unwrap_err();
    assert_eq!(err, ParseError::UnexpectedChar { line: 3, col: 2, ch: '!' });
}

#[test]
fn rejects_too_many_cells() {
    let err = "3x2\n3a2\nb12".parse::<Puzzle>().unwrap_err();
    assert!(matches!(err, ParseError::TooManyCells { expected: 6, .. }));
}

#[test]
fn rejects_too_few_cells() {
    let err = "3x2\n3a2\nb".parse::<Puzzle>().unwrap_err();
    assert_eq!(err, ParseError::TooFewCells { expected: 6, got: 5 });
}

#[test]
fn rejects_clue_out_of_range() {
    let err = "3x2\n3a2\nb4".parse::<Puzzle>().unwrap_err();
    assert_eq!(err, ParseError::UnexpectedChar { line: 3, col: 2, ch: '4' });
}

#[test]
fn invalid_header_keeps_the_header_without_carriage_returns() {
    let err = "3y2\r\r\n".parse::<Puzzle>().unwrap_err();
    assert_eq!(err, ParseError::InvalidHeader(String::from("3y2")));
}

#[test]
fn header_accepts_plus_and_rejects_minus_and_overflow() {
    assert_eq!(parse_header("+3x2"), Ok((3, 2)));
    assert!(matches!(parse_header("-3x2"), Err(ParseError::InvalidHeader(_))));
    assert!(matches!(parse_header("3x"), Err(ParseError::InvalidHeader(_))));
    assert!(matches!(parse_header("x2"), Err(ParseError::InvalidHeader(_))));
    assert!(matches!(
        parse_header("99999999999999999999999x2"),
        Err(ParseError::InvalidHeader(_))
    ));
    assert_eq!(parse_header("10x12\r"), Ok((10, 12)));
}

#[test]
fn header_whose_cell_count_overflows_is_invalid() {
    let text = format!("{}x{}\n", usize::MAX, 2);
    assert!(matches!(parse_puzzle(&text), Err(ParseError::InvalidHeader(_))));
}

#[test]
fn too_many_cells_from_a_run_reports_its_position() {
    let err = "2x1\n\nc".parse::<Puzzle>().unwrap_err();
    assert_eq!(err, ParseError::TooManyCells { line: 3, col: 1, expected: 2 });
}

#[test]
fn carriage_returns_count_as_columns() {
    let err = "2x1\n\r?".parse::<Puzzle>().unwrap_err();
    assert_eq!(err, ParseError::UnexpectedChar { line: 2, col: 2, ch: '?' });
}
