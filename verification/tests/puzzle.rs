use slitherlink_core::Cell::{Clue, Empty};
use slitherlink_core::{EdgeState, Lines, PlayLines, Puzzle};

fn sample() -> Puzzle {
    Puzzle::new(3, 2, vec![Clue(3), Empty, Clue(2), Empty, Empty, Clue(1)])
}

#[test]
fn pretty_print_format() {
    let mut want = String::new();
    want.push_str(".   .   .   .\n");
    want.push_str("  3       2 \n");
    want.push_str(".   .   .   .\n");
    want.push_str("          1 \n");
    want.push_str(".   .   .   .\n");
    assert_eq!(sample().to_string(), want);
}

#[test]
fn storage_round_trip() {
    let p = sample();
    let serialized = p.to_storage_string();
    assert_eq!(serialized, "3x2\n3a2\nb1\n");
    let reparsed: Puzzle = serialized.parse().unwrap();
    assert_eq!(reparsed, p);
}

#[test]
fn storage_chunks_long_empty_runs() {
    // 30 empty cells in a row -> "z" (26) then "d" (4)
    let mut cells = vec![Empty; 30];
    cells.push(Clue(0));
    let p = Puzzle::new(31, 1, cells);
    assert_eq!(p.to_storage_string(), "31x1\nzd0\n");
}

#[test]
fn storage_of_exactly_26_blanks_is_one_letter() {
    let p = Puzzle::empty(26, 1);
    assert_eq!(p.to_storage_string(), "26x1\nz\n");
    let p = Puzzle::empty(27, 1);
    assert_eq!(p.to_storage_string(), "27x1\nza\n");
}

#[test]
fn storage_of_a_wide_header() {
    let p = Puzzle::empty(12, 105);
    let s = p.to_storage_string();
    assert!(s.starts_with("12x105\nl\nl\n"));
    let reparsed: Puzzle = s.parse().unwrap();
    assert_eq!(reparsed, p);
}

#[test]
fn overlay_draws_edges() {
    let p = Puzzle::new(1, 1, vec![Clue(3)]);
    let mut s = PlayLines::empty(1, 1);
    s.set_h_edge(0, 0, EdgeState::Loop);
    s.set_h_edge(0, 1, EdgeState::Excluded);
    s.set_v_edge(0, 0, EdgeState::Loop);
    assert_eq!(p.overlay(&s), ".---.\n| 3  \n. x .\n");
}

#[test]
fn set_cell_changes_one_cell() {
    let mut p = sample();
    p.set_cell(1, 1, Clue(0));
    assert_eq!(p.cell(1, 1), Clue(0));
    assert_eq!(p.cells(), &[Clue(3), Empty, Clue(2), Empty, Clue(0), Clue(1)]);
}
