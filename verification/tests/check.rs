use slitherlink_core::Cell::{Clue, Empty};
use slitherlink_core::{is_solved, EdgeState, Lines, PlayLines, Puzzle};

fn set_loop_h(s: &mut PlayLines, edges: &[(usize, usize)]) {
    for &(x, y) in edges {
        s.set_h_edge(x, y, EdgeState::Loop);
    }
}

fn set_loop_v(s: &mut PlayLines, edges: &[(usize, usize)]) {
    for &(x, y) in edges {
        s.set_v_edge(x, y, EdgeState::Loop);
    }
}

fn border_2x2_loop() -> PlayLines {
    let mut s = PlayLines::empty(2, 2);
    set_loop_h(&mut s, &[(0, 0), (1, 0), (0, 2), (1, 2)]);
    set_loop_v(&mut s, &[(0, 0), (0, 1), (2, 0), (2, 1)]);
    s
}

#[test]
fn solves_2x2_border_loop() {
    let p = Puzzle::new(2, 2, vec![Clue(2); 4]);
    assert!(is_solved(&p, &border_2x2_loop()));
}

#[test]
fn solves_1x1_loop_around_empty_cell() {
    let p = Puzzle::new(1, 1, vec![Empty]);
    let mut s = PlayLines::empty(1, 1);
    set_loop_h(&mut s, &[(0, 0), (0, 1)]);
    set_loop_v(&mut s, &[(0, 0), (1, 0)]);
    assert!(is_solved(&p, &s));
}

#[test]
fn rejects_empty_solution() {
    let p = Puzzle::new(2, 2, vec![Clue(2); 4]);
    assert!(!is_solved(&p, &PlayLines::empty(2, 2)));
}

#[test]
fn rejects_clue_mismatch() {
    let p = Puzzle::new(2, 2, vec![Clue(3), Clue(2), Clue(2), Clue(2)]);
    assert!(!is_solved(&p, &border_2x2_loop()));
}

#[test]
fn rejects_open_path() {
    let p = Puzzle::new(2, 2, vec![Clue(2); 4]);
    let mut s = PlayLines::empty(2, 2);
    set_loop_h(&mut s, &[(0, 0), (1, 0)]);
    set_loop_v(&mut s, &[(2, 0)]);
    assert!(!is_solved(&p, &s));
}

#[test]
fn rejects_branch_with_matching_clues() {
    let p = Puzzle::new(2, 2, vec![Clue(3); 4]);
    let mut s = border_2x2_loop();
    set_loop_v(&mut s, &[(1, 0), (1, 1)]);
    assert!(!is_solved(&p, &s));
}

#[test]
fn rejects_two_separate_loops() {
    let p: Puzzle = "4x1\na11a".parse().unwrap();
    let mut s = PlayLines::empty(4, 1);
    set_loop_h(&mut s, &[(0, 0), (0, 1), (3, 0), (3, 1)]);
    set_loop_v(&mut s, &[(0, 0), (1, 0), (3, 0), (4, 0)]);
    assert!(!is_solved(&p, &s));
}

#[test]
fn excluded_edges_are_not_loop() {
    let p = Puzzle::new(2, 2, vec![Clue(2); 4]);
    let mut s = border_2x2_loop();
    s.set_v_edge(1, 0, EdgeState::Excluded);
    s.set_v_edge(1, 1, EdgeState::Excluded);
    s.set_h_edge(0, 1, EdgeState::Excluded);
    s.set_h_edge(1, 1, EdgeState::Excluded);
    assert!(is_solved(&p, &s));
}
