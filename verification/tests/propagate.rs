use slitherlink_core::Cell::{Clue, Empty};
use slitherlink_core::{
    auto_exclude, find_problems, is_solved, propagate, propagate_easy, propagate_from, EdgeState,
    Lines, PlayLines, Puzzle, SolverLines,
};

fn count_loop(sol: &impl Lines) -> usize {
    let mut n = 0;
    for y in 0..=sol.height() {
        for x in 0..sol.width() {
            if sol.h_edge(x, y) == EdgeState::Loop {
                n += 1;
            }
        }
    }
    for y in 0..sol.height() {
        for x in 0..=sol.width() {
            if sol.v_edge(x, y) == EdgeState::Loop {
                n += 1;
            }
        }
    }
    n
}

fn count_excluded(sol: &impl Lines) -> usize {
    let mut n = 0;
    for y in 0..=sol.height() {
        for x in 0..sol.width() {
            if sol.h_edge(x, y) == EdgeState::Excluded {
                n += 1;
            }
        }
    }
    for y in 0..sol.height() {
        for x in 0..=sol.width() {
            if sol.v_edge(x, y) == EdgeState::Excluded {
                n += 1;
            }
        }
    }
    n
}

#[test]
fn empty_puzzle_no_deductions() {
    let p = Puzzle::new(3, 3, vec![Empty; 9]);
    let s = propagate(&p);
    assert_eq!(count_loop(&s), 0);
    assert_eq!(count_excluded(&s), 0);
}

#[test]
fn zero_clue_excludes_all_four_edges() {
    let mut cells = vec![Empty; 9];
    cells[4] = Clue(0); // centre cell
    let p = Puzzle::new(3, 3, cells);
    let s = propagate(&p);
    assert_eq!(s.h_edge(1, 1), EdgeState::Excluded);
    assert_eq!(s.h_edge(1, 2), EdgeState::Excluded);
    assert_eq!(s.v_edge(1, 1), EdgeState::Excluded);
    assert_eq!(s.v_edge(2, 1), EdgeState::Excluded);
    assert_eq!(count_loop(&s), 0);
}

#[test]
fn adjacent_zero_and_three_propagates() {
    let p = Puzzle::new(2, 1, vec![Clue(0), Clue(3)]);
    let s = propagate(&p);
    assert_eq!(s.v_edge(1, 0), EdgeState::Excluded);
    assert_eq!(s.h_edge(1, 0), EdgeState::Loop);
    assert_eq!(s.h_edge(1, 1), EdgeState::Loop);
    assert_eq!(s.v_edge(2, 0), EdgeState::Loop);
}

#[test]
fn vertex_corner_forces_dead_end() {
    let p = Puzzle::new(1, 1, vec![Clue(0)]);
    let s = propagate(&p);
    assert_eq!(count_loop(&s), 0);
    assert_eq!(count_excluded(&s), 4);
}

#[test]
fn detects_3_next_to_0_as_unsolvable() {
    let p = Puzzle::new(2, 1, vec![Clue(3), Clue(0)]);
    let s = propagate(&p);
    let problems = find_problems(&p, &s);
    let any_problem = !problems.bad_cells.is_empty() || !problems.bad_vertices.is_empty();
    assert!(any_problem, "expected some problem to be flagged");
}

#[test]
fn detects_manual_dead_end_vertex() {
    let p = Puzzle::new(2, 2, vec![Empty; 4]);
    let mut s = PlayLines::empty(2, 2);
    s.set_h_edge(0, 0, EdgeState::Loop);
    s.set_h_edge(1, 0, EdgeState::Excluded);
    s.set_v_edge(1, 0, EdgeState::Excluded);
    let problems = find_problems(&p, &s);
    assert!(problems.bad_vertices.contains(&(1, 0)));
}

#[test]
fn no_problems_on_open_grid() {
    let p = Puzzle::new(3, 3, vec![Empty; 9]);
    let s = propagate(&p);
    let problems = find_problems(&p, &s);
    assert!(problems.bad_cells.is_empty());
    assert!(problems.bad_vertices.is_empty());
}

#[test]
fn detects_clue_overflow() {
    let p = Puzzle::new(2, 2, vec![Clue(3), Empty, Empty, Empty]);
    let mut s = PlayLines::empty(2, 2);
    s.set_h_edge(0, 0, EdgeState::Excluded);
    s.set_v_edge(0, 0, EdgeState::Excluded);
    let problems = find_problems(&p, &s);
    assert!(problems.bad_cells.contains(&(0, 0)));
}

#[test]
fn three_in_corner_forces_pair_loop() {
    let mut cells = vec![Empty; 9];
    cells[0] = Clue(3);
    let p = Puzzle::new(3, 3, cells);
    let s = propagate(&p);
    assert_eq!(s.h_edge(0, 0), EdgeState::Loop);
    assert_eq!(s.v_edge(0, 0), EdgeState::Loop);
}

#[test]
fn one_in_corner_forces_pair_excluded() {
    let mut cells = vec![Empty; 9];
    cells[0] = Clue(1);
    let p = Puzzle::new(3, 3, cells);
    let s = propagate(&p);
    assert_eq!(s.h_edge(0, 0), EdgeState::Excluded);
    assert_eq!(s.v_edge(0, 0), EdgeState::Excluded);
}

#[test]
fn adjacent_horizontal_threes_force_three_loops() {
    let p = Puzzle::new(4, 1, vec![Empty, Clue(3), Clue(3), Empty]);
    let s = propagate(&p);
    assert_eq!(s.v_edge(1, 0), EdgeState::Loop);
    assert_eq!(s.v_edge(2, 0), EdgeState::Loop);
    assert_eq!(s.v_edge(3, 0), EdgeState::Loop);
}

#[test]
fn adjacent_horizontal_threes_force_extensions_excluded() {
    let mut cells = vec![Empty; 12];
    cells[5] = Clue(3); // (1, 1)
    cells[6] = Clue(3); // (2, 1)
    let p = Puzzle::new(4, 3, cells);
    let s = propagate(&p);
    assert_eq!(s.v_edge(2, 0), EdgeState::Excluded);
    assert_eq!(s.v_edge(2, 2), EdgeState::Excluded);
}

#[test]
fn adjacent_vertical_threes_force_three_loops() {
    let p = Puzzle::new(1, 4, vec![Empty, Clue(3), Clue(3), Empty]);
    let s = propagate(&p);
    assert_eq!(s.h_edge(0, 1), EdgeState::Loop);
    assert_eq!(s.h_edge(0, 2), EdgeState::Loop);
    assert_eq!(s.h_edge(0, 3), EdgeState::Loop);
}

#[test]
fn diagonal_threes_force_outer_pair_loops() {
    let mut cells = vec![Empty; 9];
    cells[0] = Clue(3); // (0,0)
    cells[4] = Clue(3); // (1,1)
    let p = Puzzle::new(3, 3, cells);
    let s = propagate(&p);
    assert_eq!(s.h_edge(0, 0), EdgeState::Loop);
    assert_eq!(s.v_edge(0, 0), EdgeState::Loop);
    assert_eq!(s.h_edge(1, 2), EdgeState::Loop);
    assert_eq!(s.v_edge(2, 1), EdgeState::Loop);
}

#[test]
fn no_premature_loop_excludes_closing_edge() {
    let p = Puzzle::new(3, 1, vec![Empty, Empty, Clue(1)]);
    let mut s = SolverLines::empty(3, 1);
    s.set_h_edge(0, 0, EdgeState::Loop);
    s.set_h_edge(0, 1, EdgeState::Loop);
    s.set_v_edge(0, 0, EdgeState::Loop);
    propagate_from(&p, &mut s);
    assert_eq!(s.v_edge(1, 0), EdgeState::Excluded);
}

#[test]
fn closing_edge_kept_when_it_completes_puzzle() {
    let p = Puzzle::new(1, 1, vec![Empty]);
    let mut s = SolverLines::empty(1, 1);
    s.set_h_edge(0, 0, EdgeState::Loop);
    s.set_h_edge(0, 1, EdgeState::Loop);
    s.set_v_edge(0, 0, EdgeState::Loop);
    propagate_from(&p, &mut s);
    assert_ne!(s.v_edge(1, 0), EdgeState::Excluded);
}

#[test]
fn propagate_from_partial_state() {
    let p = Puzzle::new(2, 2, vec![Empty; 4]);
    let mut s = SolverLines::empty(2, 2);
    s.set_h_edge(0, 0, EdgeState::Loop);
    s.set_h_edge(1, 0, EdgeState::Loop);
    propagate_from(&p, &mut s);
    assert_eq!(s.v_edge(1, 0), EdgeState::Excluded);
}

#[test]
fn auto_exclude_caps_satisfied_clue() {
    let p = Puzzle::new(2, 2, vec![Clue(1), Empty, Empty, Empty]);
    let mut s = PlayLines::empty(2, 2);
    s.set_h_edge(0, 0, EdgeState::Loop);
    let loops_before = count_loop(&s);
    auto_exclude(&p, &mut s);
    assert_eq!(s.h_edge(0, 1), EdgeState::Excluded);
    assert_eq!(s.v_edge(0, 0), EdgeState::Excluded);
    assert_eq!(s.v_edge(1, 0), EdgeState::Excluded);
    assert_eq!(count_loop(&s), loops_before, "auto_exclude must not add Loop edges");
}

#[test]
fn auto_exclude_does_not_complete_clue() {
    let p = Puzzle::new(2, 2, vec![Clue(3), Empty, Empty, Empty]);
    let mut s = PlayLines::empty(2, 2);
    s.set_h_edge(0, 1, EdgeState::Excluded);
    s.set_v_edge(1, 0, EdgeState::Excluded);
    auto_exclude(&p, &mut s);
    assert_eq!(s.h_edge(0, 0), EdgeState::Unset);
    assert_eq!(s.v_edge(0, 0), EdgeState::Unset);
}

#[test]
fn auto_exclude_x_dead_end_vertex() {
    let p = Puzzle::new(2, 2, vec![Empty; 4]);
    let mut s = PlayLines::empty(2, 2);
    s.set_h_edge(1, 0, EdgeState::Excluded);
    s.set_v_edge(1, 0, EdgeState::Excluded);
    auto_exclude(&p, &mut s);
    assert_eq!(s.h_edge(0, 0), EdgeState::Excluded);
}

#[test]
fn auto_exclude_does_not_extend_at_vertex() {
    let p = Puzzle::new(2, 2, vec![Empty; 4]);
    let mut s = PlayLines::empty(2, 2);
    s.set_h_edge(0, 0, EdgeState::Loop);
    s.set_h_edge(1, 0, EdgeState::Excluded);
    auto_exclude(&p, &mut s);
    assert_eq!(s.v_edge(1, 0), EdgeState::Unset);
}

/// Every loop edge of `sol` is drawn in `loop_h`/`loop_v`, and every excluded one is not.
fn agrees_with(sol: &impl Lines, loop_h: &[(usize, usize)], loop_v: &[(usize, usize)]) -> bool {
    for y in 0..=sol.height() {
        for x in 0..sol.width() {
            let on = loop_h.contains(&(x, y));
            match sol.h_edge(x, y) {
                EdgeState::Loop if !on => return false,
                EdgeState::Excluded if on => return false,
                _ => {}
            }
        }
    }
    for y in 0..sol.height() {
        for x in 0..=sol.width() {
            let on = loop_v.contains(&(x, y));
            match sol.v_edge(x, y) {
                EdgeState::Loop if !on => return false,
                EdgeState::Excluded if on => return false,
                _ => {}
            }
        }
    }
    true
}

#[test]
fn easy_solver_keeps_the_solution() {
    // The 2x2 border loop is one solution of this puzzle.
    let p = Puzzle::new(2, 2, vec![Clue(2), Empty, Empty, Clue(2)]);
    let sol = propagate_easy(&p);
    let loop_h = [(0, 0), (1, 0), (0, 2), (1, 2)];
    let loop_v = [(0, 0), (0, 1), (2, 0), (2, 1)];
    assert!(agrees_with(&sol, &loop_h, &loop_v));
}

#[test]
fn easy_solver_solves_a_single_cell() {
    let p = Puzzle::new(1, 1, vec![Clue(4)]);
    let sol = propagate_easy(&p);
    assert!(is_solved(&p, &sol));
    assert_eq!(count_loop(&sol), 4);
}

#[test]
fn auto_exclude_keeps_a_solution_being_drawn() {
    // Half of the 2x2 border loop drawn; auto-exclude must not touch the rest of it.
    let p = Puzzle::new(2, 2, vec![Clue(2); 4]);
    let mut s = PlayLines::empty(2, 2);
    s.set_h_edge(0, 0, EdgeState::Loop);
    s.set_h_edge(1, 0, EdgeState::Loop);
    s.set_v_edge(0, 0, EdgeState::Loop);
    auto_exclude(&p, &mut s);
    let loop_h = [(0, 0), (1, 0), (0, 2), (1, 2)];
    let loop_v = [(0, 0), (0, 1), (2, 0), (2, 1)];
    assert!(agrees_with(&s, &loop_h, &loop_v));
    assert_eq!(s.h_edge(0, 1), EdgeState::Excluded);
    assert_eq!(s.v_edge(1, 0), EdgeState::Excluded);
}

#[test]
fn propagate_keeps_the_l_tromino_loop() {
    // The outline of the L made of cells (0,0), (1,0) and (0,1), with every clue given;
    // its two 3-clues sit diagonally.
    let p = Puzzle::new(
        3,
        3,
        vec![Clue(2), Clue(3), Clue(1), Clue(3), Clue(2), Clue(0), Clue(1), Clue(0), Clue(0)],
    );
    let sol = propagate(&p);
    let loop_h = [(0, 0), (1, 0), (1, 1), (0, 2)];
    let loop_v = [(0, 0), (0, 1), (2, 0), (1, 1)];
    assert!(agrees_with(&sol, &loop_h, &loop_v));
    assert_eq!(sol.h_edge(1, 0), EdgeState::Loop);
    assert_eq!(sol.v_edge(2, 0), EdgeState::Loop);
    assert_eq!(sol.h_edge(0, 2), EdgeState::Loop);
    assert_eq!(sol.v_edge(0, 1), EdgeState::Loop);
}

#[test]
fn propagate_draws_the_shared_side_of_a_lone_three_pair() {
    // The only solution of this puzzle is the rectangle round both cells, without the
    // shared side; the adjacent-threes seed pattern draws that side anyway.
    let p = Puzzle::new(2, 1, vec![Clue(3), Clue(3)]);
    let mut rect = PlayLines::empty(2, 1);
    rect.set_h_edge(0, 0, EdgeState::Loop);
    rect.set_h_edge(1, 0, EdgeState::Loop);
    rect.set_h_edge(0, 1, EdgeState::Loop);
    rect.set_h_edge(1, 1, EdgeState::Loop);
    rect.set_v_edge(0, 0, EdgeState::Loop);
    rect.set_v_edge(2, 0, EdgeState::Loop);
    assert!(is_solved(&p, &rect));
    let sol = propagate(&p);
    assert_eq!(sol.v_edge(1, 0), EdgeState::Loop);
}

#[test]
fn solvers_do_not_settle_a_puzzle_with_two_solutions() {
    // With no clues, a square round either cell is a solution, so neither solver may
    // claim the puzzle.
    let p = Puzzle::new(2, 1, vec![Empty, Empty]);
    for cx in 0..2 {
        let mut square = PlayLines::empty(2, 1);
        square.set_h_edge(cx, 0, EdgeState::Loop);
        square.set_h_edge(cx, 1, EdgeState::Loop);
        square.set_v_edge(cx, 0, EdgeState::Loop);
        square.set_v_edge(cx + 1, 0, EdgeState::Loop);
        assert!(is_solved(&p, &square));
    }
    assert!(!is_solved(&p, &propagate_easy(&p)));
    assert!(!is_solved(&p, &propagate(&p)));
}

#[test]
fn propagate_draws_round_a_lone_four() {
    // No seed pattern fires here; the lookahead still finds the four sides.
    let mut cells = vec![Empty; 9];
    cells[4] = Clue(4);
    let p = Puzzle::new(3, 3, cells);
    let sol = propagate(&p);
    assert_eq!(sol.h_edge(1, 1), EdgeState::Loop);
    assert_eq!(sol.h_edge(1, 2), EdgeState::Loop);
    assert_eq!(sol.v_edge(1, 1), EdgeState::Loop);
    assert_eq!(sol.v_edge(2, 1), EdgeState::Loop);
    assert!(is_solved(&p, &sol));
}

#[test]
fn auto_exclude_leaves_an_impossible_clue_alone() {
    let p = Puzzle::new(2, 2, vec![Clue(7), Empty, Empty, Empty]);
    let mut s = PlayLines::empty(2, 2);
    s.set_h_edge(0, 0, EdgeState::Loop);
    s.set_h_edge(1, 1, EdgeState::Excluded);
    auto_exclude(&p, &mut s);
    assert_eq!(s.h_edge(0, 0), EdgeState::Loop);
    assert_eq!(s.h_edge(0, 1), EdgeState::Unset);
    assert_eq!(s.v_edge(0, 0), EdgeState::Unset);
    assert_eq!(s.v_edge(1, 0), EdgeState::Unset);
    assert_eq!(s.h_edge(1, 1), EdgeState::Excluded);
}
