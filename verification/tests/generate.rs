use slitherlink_core::generate::common::{border_sides, borders_touched, is_valid_region, region_picture};
use slitherlink_core::generate::{clues_from_region, pick_algo, seed_from};
use slitherlink_core::rng::Rng;
use slitherlink_core::{
    generate, generate_seeded, generate_with, is_solved, propagate, propagate_easy, Cell,
    Difficulty, EdgeState, Lines, MetropolisBuilder, ProposalAction, RegionAlgo, WalkBuilder,
};

#[test]
fn region_validity_rejects_singletons() {
    let mut inside = vec![false; 9];
    inside[4] = true;
    assert!(!is_valid_region(3, 3, &inside));
}

#[test]
fn region_validity_rejects_hole() {
    // 3x3 ring: outer 8 cells inside, centre outside -> complement has a hole.
    let mut inside = vec![true; 9];
    inside[4] = false;
    assert!(!is_valid_region(3, 3, &inside));
}

#[test]
fn region_validity_rejects_disconnected() {
    // Two diagonal cells, no connecting cell.
    let mut inside = vec![false; 9];
    inside[0] = true;
    inside[8] = true;
    assert!(!is_valid_region(3, 3, &inside));
}

#[test]
fn region_validity_accepts_simple_pair() {
    let mut inside = vec![false; 9];
    inside[4] = true;
    inside[5] = true;
    assert!(is_valid_region(3, 3, &inside));
}

#[test]
fn region_validity_rejects_whole_grid() {
    assert!(!is_valid_region(2, 2, &[true; 4]));
}

#[test]
fn region_validity_accepts_outside_split_along_the_border() {
    // A middle column cuts the outside in two, but both parts touch the border.
    let inside = vec![false, true, false, false, true, false, false, true, false];
    assert!(is_valid_region(3, 3, &inside));
}

#[test]
fn clues_for_top_row_region_2x2() {
    // R = top row {(0,0), (1,0)}. The loop wraps the top row.
    // Both top-row cells have 3 of their 4 edges on the loop (top, side, bottom).
    // Both bottom-row cells have 1 (their top, shared with the inside row).
    let inside = vec![true, true, false, false];
    let p = clues_from_region(2, 2, &inside);
    assert_eq!(p.cell(0, 0), Cell::Clue(3));
    assert_eq!(p.cell(1, 0), Cell::Clue(3));
    assert_eq!(p.cell(0, 1), Cell::Clue(1));
    assert_eq!(p.cell(1, 1), Cell::Clue(1));
}

#[test]
fn clues_of_a_centre_cell_region() {
    let mut inside = vec![false; 9];
    inside[4] = true;
    let p = clues_from_region(3, 3, &inside);
    assert_eq!(p.cell(1, 1), Cell::Clue(4));
    assert_eq!(p.cell(0, 0), Cell::Clue(0));
    assert_eq!(p.cell(1, 0), Cell::Clue(1));
}

#[test]
fn generated_puzzle_has_clues_in_range() {
    let p = generate(5, 5, 42);
    for c in p.cells() {
        if let Cell::Clue(n) = c {
            assert!(*n <= 3, "clue {n} out of range");
        }
    }
}

#[test]
fn generated_puzzle_is_propagation_solvable() {
    for seed in 1..10 {
        let p = generate(5, 5, seed);
        let sol = propagate(&p);
        assert!(
            is_solved(&p, &sol),
            "seed {seed} did not solve via propagation:\n{}",
            p.overlay(&sol),
        );
    }
}

#[test]
fn easy_generated_is_solvable_by_easy_solver() {
    for seed in 1..15 {
        let p = generate_with(7, 7, seed, Difficulty::Easy, RegionAlgo::Walk);
        let sol = propagate_easy(&p);
        assert!(
            is_solved(&p, &sol),
            "easy seed {seed} not solvable by the easy solver:\n{}",
            p.overlay(&sol),
        );
    }
}

#[test]
fn generated_puzzle_is_deterministic() {
    let a = generate(6, 6, 12345);
    let b = generate(6, 6, 12345);
    assert_eq!(a, b);
}

#[test]
fn generate_seeded_is_deterministic() {
    let a = generate_seeded(7, 7, Difficulty::Easy, 12345);
    let b = generate_seeded(7, 7, Difficulty::Easy, 12345);
    assert_eq!(a, b);
}

#[test]
fn generate_seeded_difficulty_changes_board() {
    let easy = generate_seeded(7, 7, Difficulty::Easy, 999);
    let hard = generate_seeded(7, 7, Difficulty::Hard, 999);
    assert_ne!(easy, hard);
}

#[test]
fn generate_seeded_uses_both_algos_across_seeds() {
    let mut saw_walk = false;
    let mut saw_metropolis = false;
    for seed in 1..32 {
        let mut rng = Rng::new(seed);
        match pick_algo(&mut rng) {
            RegionAlgo::Walk => saw_walk = true,
            RegionAlgo::Metropolis => saw_metropolis = true,
        }
    }
    assert!(saw_walk && saw_metropolis, "expected both region generators to be picked");
}

#[test]
fn generated_puzzle_strips_at_least_one_clue() {
    let p = generate(7, 7, 1);
    let stripped = p.cells().iter().filter(|c| matches!(c, Cell::Empty)).count();
    assert!(stripped > 0, "no clues stripped at all");
}

#[test]
fn solution_loop_consistent_with_solved_puzzle() {
    let p = generate(5, 5, 7);
    let sol = propagate(&p);
    assert!(is_solved(&p, &sol));
    for y in 0..p.height() {
        for x in 0..p.width() {
            if let Cell::Clue(n) = p.cell(x, y) {
                let mut got = 0u8;
                if sol.h_edge(x, y) == EdgeState::Loop {
                    got += 1;
                }
                if sol.h_edge(x, y + 1) == EdgeState::Loop {
                    got += 1;
                }
                if sol.v_edge(x, y) == EdgeState::Loop {
                    got += 1;
                }
                if sol.v_edge(x + 1, y) == EdgeState::Loop {
                    got += 1;
                }
                assert_eq!(got, n);
            }
        }
    }
}

#[test]
fn metropolis_generator_also_yields_solvable_boards() {
    for seed in 1..6 {
        let p = generate_with(6, 6, seed, Difficulty::Hard, RegionAlgo::Metropolis);
        let sol = propagate(&p);
        assert!(is_solved(&p, &sol), "metropolis seed {seed}");
    }
}

#[test]
fn seed_from_separates_categories() {
    let a = seed_from(7, 7, Difficulty::Easy, 1);
    assert_eq!(a, seed_from(7, 7, Difficulty::Easy, 1));
    assert_ne!(a, seed_from(7, 7, Difficulty::Hard, 1));
    assert_ne!(a, seed_from(7, 7, Difficulty::Easy, 2));
    assert_ne!(a, seed_from(8, 7, Difficulty::Easy, 1));
}

#[test]
fn walk_region_stays_valid_and_only_grows() {
    let mut b = WalkBuilder::new(6, 6, 99);
    assert_eq!(b.count(), 1);
    let (tx, ty) = b.tip().unwrap();
    assert!(b.inside()[ty * 6 + tx]);
    let mut before = b.inside().to_vec();
    let mut steps = 0;
    while b.step() {
        let now = b.inside().to_vec();
        for i in 0..36 {
            assert!(!before[i] || now[i], "a cell left the region");
        }
        let added = (0..36).filter(|&i| now[i] && !before[i]).count();
        assert!(added <= 1);
        if b.count() >= 2 {
            assert!(is_valid_region(6, 6, b.inside()));
        }
        before = now;
        steps += 1;
        assert!(steps < 100_000);
    }
    assert!(b.target() >= 19 && b.target() <= 25);
}

#[test]
fn walk_lottery_has_stop_and_four_directions() {
    let mut b = WalkBuilder::new(4, 4, 5);
    let before = b.inside().to_vec();
    let rows = b.next_lottery().expect("a new walk has a tip");
    assert_eq!(b.inside(), &before[..]);
    assert_eq!(rows.len(), 5);
    assert_eq!(rows[0].label, "stop");
    assert_eq!(rows[0].weight, 2);
    assert_eq!(rows[0].target, None);
    let labels: Vec<&str> = rows.iter().map(|r| r.label).collect();
    assert_eq!(labels, vec!["stop", "E", "W", "S", "N"]);
    let (tx, ty) = b.tip().unwrap();
    for row in &rows[1..] {
        match row.target {
            Some((x, y)) => {
                assert_eq!(row.weight, 16);
                assert_eq!(row.note, "fresh");
                assert_eq!(tx.abs_diff(x) + ty.abs_diff(y), 1);
            }
            None => {
                assert_eq!(row.weight, 0);
                assert_eq!(row.note, "off-grid");
            }
        }
    }
}

#[test]
fn metropolis_accepts_only_valid_regions() {
    let mut b = MetropolisBuilder::new(5, 5, 3);
    assert_eq!(b.count(), 2);
    assert_eq!(b.iteration(), 0);
    assert_eq!(b.max_iterations(), 2500);
    assert!(b.last_proposal().is_none());
    let mut before = b.inside().to_vec();
    while b.step() {
        let prop = b.last_proposal().unwrap().clone();
        let now = b.inside().to_vec();
        let i = prop.cell.1 * 5 + prop.cell.0;
        assert_eq!(prop.action == ProposalAction::Remove, before[i]);
        if prop.accepted {
            assert_eq!(prop.note, "valid");
            assert!(is_valid_region(5, 5, &now));
            assert_eq!(now[i], !before[i]);
        } else {
            assert_ne!(prop.note, "valid");
            assert_eq!(now, before);
        }
        before = now;
    }
    assert!(b.iteration() <= b.max_iterations());
}

#[test]
fn rng_is_deterministic_and_in_range() {
    let mut a = Rng::new(7);
    let mut b = Rng::new(7);
    for n in 1..50usize {
        let x = a.range(n);
        assert_eq!(x, b.range(n));
        assert!(x < n);
    }
    let mut v: Vec<u32> = (0..20).collect();
    a.shuffle(&mut v);
    let mut sorted = v.clone();
    sorted.sort();
    assert_eq!(sorted, (0..20).collect::<Vec<u32>>());
}

#[test]
fn walk_adds_cells_only_next_to_the_tip() {
    let mut b = WalkBuilder::new(5, 4, 7);
    let mut steps = 0;
    loop {
        let before = b.inside().to_vec();
        let tip = b.tip();
        if !b.step() {
            break;
        }
        let now = b.inside().to_vec();
        let added: Vec<usize> = (0..20).filter(|&i| now[i] && !before[i]).collect();
        assert!(added.len() <= 1);
        if let Some(&i) = added.first() {
            let (tx, ty) = tip.expect("a cell is added only from a tip");
            let (cx, cy) = (i % 5, i / 5);
            assert_eq!(tx.abs_diff(cx) + ty.abs_diff(cy), 1);
            assert_eq!(b.tip(), Some((cx, cy)));
            assert!(is_valid_region(5, 4, b.inside()));
        }
        steps += 1;
        assert!(steps < 100_000);
    }
}

#[test]
fn metropolis_advances_to_the_next_add() {
    let mut a = MetropolisBuilder::new(5, 5, 11);
    let mut b = MetropolisBuilder::new(5, 5, 11);
    for _ in 0..10 {
        if a.done() {
            break;
        }
        let (rejects, removes, halted) = a.advance_to_next_add();
        let (mut r2, mut m2, mut h2) = (0usize, 0usize, false);
        loop {
            if !b.step() {
                h2 = true;
                break;
            }
            let p = b.last_proposal().unwrap();
            if p.accepted && p.action == ProposalAction::Add {
                break;
            }
            if p.accepted {
                m2 += 1;
            } else {
                r2 += 1;
            }
        }
        assert_eq!((rejects, removes, halted), (r2, m2, h2));
        assert_eq!(a.inside(), b.inside());
        assert_eq!(a.iteration(), b.iteration());
        if halted {
            break;
        }
        let p = a.last_proposal().unwrap();
        assert!(p.accepted && p.action == ProposalAction::Add);
    }
}

#[test]
fn metropolis_region_is_always_valid() {
    for (w, h) in [(2usize, 2usize), (2, 3), (4, 4), (5, 3)] {
        for seed in 1..12u64 {
            let mut b = MetropolisBuilder::new(w, h, seed);
            assert!(is_valid_region(w, h, b.inside()));
            while b.step() {
                assert!(is_valid_region(w, h, b.inside()));
                assert!(b.count() >= 2 && b.count() < w * h);
                assert!(b.iteration() <= b.max_iterations());
            }
        }
    }
}

#[test]
fn walk_halts_within_its_budget() {
    for (w, h) in [(2usize, 2usize), (3, 2), (4, 4), (6, 5)] {
        let n = w * h;
        for seed in 1..20u64 {
            let mut b = WalkBuilder::new(w, h, seed);
            let mut going_on = 0usize;
            while b.step() {
                going_on += 1;
                assert!(going_on < n * (n + 1));
            }
        }
    }
}

#[test]
fn seeds_differ_in_every_coordinate() {
    let base = seed_from(7, 7, Difficulty::Easy, 1);
    assert_ne!(base, seed_from(8, 7, Difficulty::Easy, 1));
    assert_ne!(base, seed_from(7, 8, Difficulty::Easy, 1));
    assert_ne!(base, seed_from(7, 7, Difficulty::Hard, 1));
    assert_ne!(base, seed_from(7, 7, Difficulty::Easy, 2));
}

#[test]
fn region_picture_marks_cells_row_by_row() {
    let inside = [true, false, false, true, true, false];
    assert_eq!(region_picture(3, 2, &inside, None), "X . . \nX X . \n");
    assert_eq!(region_picture(3, 2, &inside, Some((1, 1))), "X . . \nX * . \n");
    assert_eq!(region_picture(3, 2, &inside, Some((2, 0))), "X . * \nX X . \n");
}

#[test]
fn border_sides_tell_each_border() {
    let inside = [true, false, false, true, true, false];
    assert_eq!(border_sides(3, 2, &inside), (true, true, true, false));
    assert!(!borders_touched(3, 2, &inside));
    let all = [false, true, false, true, true, true, false, true, false];
    assert_eq!(border_sides(3, 3, &all), (true, true, true, true));
    assert!(borders_touched(3, 3, &all));
}
