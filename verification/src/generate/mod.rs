//! Puzzle generation: random regions whose boundary is the loop.
use vstd::prelude::*;

pub mod common;
pub mod metropolis;
pub mod walk;

use crate::cell::Cell;
use crate::check::{is_solution, is_solved};
use crate::lines::{count_of, lemma_row_major, Lines};
use crate::closing::lemma_solution_inside;
use crate::edge::EdgeId;
use crate::lines::Grid;
use crate::propagate::{
    easy_result,
    hard_result,
    agrees, clues_at_most_four, fits, local_fixpoint, no_premature_fixpoint, propagate, propagate_easy, rules_out_all,
};
use crate::seeds::follows_seed_patterns;
use crate::puzzle::{Puzzle, PuzzleView};
use crate::rng::{lemma_shuffle_perm, lemma_mix_injective, lemma_xor_cancel, mix, mix_spec, next_draw, next_state, shuffle_spec, Rng, GOLDEN_GAMMA};
use crate::generate::common::{
    lemma_cell_coords, lemma_inside_neighbour, lemma_outside_neighbour, lemma_width_positive,
    neighbor_cells, on_border, region_valid_spec,
};
use crate::generate::metropolis::{metro_from, metro_halts_at, metro_start, metro_step};
use crate::generate::walk::{walk_from, walk_halts_at, walk_start, walk_step};

verus! {

/// Which region generator to use.
#[derive(Debug, Clone, Copy, PartialEq, Eq, Structural)]
pub enum RegionAlgo {
    /// Weighted DFS random walk (see [`walk::WalkBuilder`]).
    Walk,
    /// Pure Metropolis cell-toggle chain (see [`metropolis::MetropolisBuilder`]).
    Metropolis,
}

/// Target difficulty. Selects the solver used to vet the puzzle during
/// generation: a board is only emitted if that solver can solve it end-to-end,
/// so the tier bounds how hard the player's deductions have to be.
///
/// - [`Easy`](Difficulty::Easy): the limited rule set in [`propagate_easy`] —
///   clue completion, vertex continuation, soft-exclusion, and no-premature-loop,
///   with no lookahead. Deliberately beatable by hand.
/// - [`Hard`](Difficulty::Hard): the full [`propagate`], including the seed
///   patterns and 1-step lookahead.
#[derive(Debug, Clone, Copy, PartialEq, Eq, Structural)]
pub enum Difficulty {
    Easy,
    Hard,
}

/// How many fresh regions to try for a fully-clued board the tier's solver can
/// solve before settling for the last one drawn.
pub const MAX_REGION_ATTEMPTS: usize = 256;

/// The grid sizes that generation handles: at least 2x2, and small enough for
/// its counters and the solver's vertex numbering.
pub open spec fn generatable(width: nat, height: nat) -> bool {
    &&& width >= 2
    &&& height >= 2
    &&& width * height * 100 <= usize::MAX
    &&& width * height * 16 <= u32::MAX
    &&& (width + 1) * (height + 1) <= u32::MAX
    &&& 2 * ((width + 1) * (height + 1)) <= usize::MAX
}

/// Cell (`x`, `y`) is inside the region; cells off the grid are outside.
pub open spec fn in_region(w: nat, h: nat, inside: Seq<bool>, x: int, y: int) -> bool {
    0 <= x < w && 0 <= y < h && inside[y * w + x]
}

/// How many sides of cell (`x`, `y`) separate it from a neighbour, or from the
/// outside of the grid, on the other side of the region's boundary: the clue
/// that the region's boundary loop gives the cell.
pub open spec fn region_clue(w: nat, h: nat, inside: Seq<bool>, x: int, y: int) -> nat {
    let me = in_region(w, h, inside, x, y);
    (if me != in_region(w, h, inside, x - 1, y) { 1nat } else { 0nat }) + (if me != in_region(w, h, inside, x + 1, y) {
        1nat
    } else {
        0nat
    }) + (if me != in_region(w, h, inside, x, y - 1) { 1nat } else { 0nat }) + (if me != in_region(
        w,
        h,
        inside,
        x,
        y + 1,
    ) { 1nat } else { 0nat })
}

/// Every cell of `p` is blank or shows the clue that `inside` gives it.
pub open spec fn clues_within(p: PuzzleView, inside: Seq<bool>) -> bool {
    forall|x: int, y: int|
        0 <= x < p.width && 0 <= y < p.height ==> (#[trigger] p.cell(x, y) == Cell::Empty || p.cell(x, y) == Cell::Clue(
            region_clue(p.width, p.height, inside, x, y) as u8,
        ))
}

/// What a region generator hands back: a valid region, or, when the walk
/// made no move at all, its starting cell.
pub open spec fn generated_region(w: nat, h: nat, inside: Seq<bool>) -> bool {
    count_of(inside, true) == 1 || region_valid_spec(w, h, inside)
}

/// A puzzle that some generated region clues: every cell is blank or shows the
/// region's clue.
pub open spec fn clued_by_region(p: PuzzleView) -> bool {
    exists|inside: Seq<bool>|
        #![trigger clues_within(p, inside)]
        inside.len() == p.width * p.height && generated_region(p.width, p.height, inside) && clues_within(p, inside)
}

/// The clue of every cell of `inside`'s region: the number of its sides on the
/// region's boundary.
pub fn clues_from_region(w: usize, h: usize, inside: &[bool]) -> (p: Puzzle)
    requires
        inside@.len() == w * h,
    ensures
        p.wf(),
        p@.width == w,
        p@.height == h,
        forall|x: int, y: int|
            0 <= x < w && 0 <= y < h ==> #[trigger] p@.cell(x, y) == Cell::Clue(
                region_clue(w as nat, h as nat, inside@, x, y) as u8,
            ),
{
    let n = inside.len();
    let ghost s = inside@;
    let mut cells: Vec<Cell> = Vec::with_capacity(n);
    let mut i: usize = 0;
    while i < n
        invariant
            i <= n,
            n == w * h,
            s == inside@,
            s.len() == n,
            cells@.len() == i,
            forall|k: int|
                0 <= k < i ==> #[trigger] cells@[k] == Cell::Clue(
                    region_clue(w as nat, h as nat, s, k % (w as int), k / (w as int)) as u8,
                ),
        decreases n - i,
    {
        proof {
            lemma_cell_coords(w as int, h as int, i as int);
        }
        let x = i % w;
        let y = i / w;
        proof {
            assert(i == y * w + x);
            if x + 1 < w {
                lemma_row_major(w as int, h as int, (x + 1) as int, y as int);
            }
            if y > 0 {
                assert(i >= w) by (nonlinear_arith)
                    requires
                        i == y * w + x,
                        y >= 1,
                        x >= 0,
                ;
            }
            if y + 1 < h {
                lemma_row_major(w as int, h as int, x as int, (y + 1) as int);
                assert((y + 1) * w + x == i + w) by (nonlinear_arith)
                    requires
                        i == y * w + x,
                ;
            }
        }
        let me = inside[i];
        let mut count: u8 = 0;
        let left = if x > 0 {
            inside[i - 1]
        } else {
            false
        };
        let right = if x + 1 < w {
            inside[i + 1]
        } else {
            false
        };
        let up = if y > 0 {
            inside[i - w]
        } else {
            false
        };
        let down = if y + 1 < h {
            inside[i + w]
        } else {
            false
        };
        if me != left {
            count += 1;
        }
        if me != right {
            count += 1;
        }
        if me != up {
            count += 1;
        }
        if me != down {
            count += 1;
        }
        proof {
            let xi = x as int;
            let yi = y as int;
            assert(i == yi * w + xi);
            assert(me == in_region(w as nat, h as nat, s, xi, yi));
            assert(left == in_region(w as nat, h as nat, s, xi - 1, yi));
            assert(right == in_region(w as nat, h as nat, s, xi + 1, yi));
            assert(up == in_region(w as nat, h as nat, s, xi, yi - 1)) by {
                if y > 0 {
                    assert((yi - 1) * w + xi == i - w) by (nonlinear_arith)
                        requires
                            i == yi * w + xi,
                    ;
                }
            }
            assert(down == in_region(w as nat, h as nat, s, xi, yi + 1)) by {
                assert((yi + 1) * w + xi == i + w) by (nonlinear_arith)
                    requires
                        i == yi * w + xi,
                ;
            }
        }
        cells.push(Cell::Clue(count));
        i += 1;
    }
    let p = Puzzle::new(w, h, cells);
    proof {
        assert forall|x: int, y: int| 0 <= x < w && 0 <= y < h implies #[trigger] p@.cell(x, y) == Cell::Clue(
            region_clue(w as nat, h as nat, s, x, y) as u8,
        ) by {
            let k = y * w + x;
            lemma_row_major(w as int, h as int, x, y);
            vstd::arithmetic::div_mod::lemma_fundamental_div_mod_converse(k, w as int, y, x);
            assert(cells@[k] == Cell::Clue(region_clue(w as nat, h as nat, s, k % (w as int), k / (w as int)) as u8));
        }
    }
    p
}

/// A region's clue is at most 4.
proof fn lemma_region_clue_le4(w: nat, h: nat, inside: Seq<bool>, x: int, y: int)
    ensures
        region_clue(w, h, inside, x, y) <= 4,
{
}

/// A neighbour of cell (`x`, `y`) that has the cell's membership takes one side
/// off its clue.
proof fn lemma_neighbour_side(w: nat, h: nat, s: Seq<bool>, x: int, y: int, j: int)
    requires
        0 <= x < w,
        0 <= y < h,
        s.len() == w * h,
        neighbor_cells(w, h, y * w + x, j),
        s[j] == s[y * w + x],
    ensures
        region_clue(w, h, s, x, y) <= 3,
{
    let c = y * w + x;
    lemma_row_major(w as int, h as int, x, y);
    vstd::arithmetic::div_mod::lemma_fundamental_div_mod_converse(c, w as int, y, x);
    lemma_cell_coords(w as int, h as int, j);
    let nx = j % (w as int);
    let ny = j / (w as int);
    assert(in_region(w, h, s, nx, ny) == s[j]);
}

/// Every clue of a valid region is at most 3: each cell has a neighbour, or
/// the outside of the grid, on its own side of the boundary.
pub proof fn lemma_region_clue_le3(w: nat, h: nat, s: Seq<bool>, x: int, y: int)
    requires
        s.len() == w * h,
        region_valid_spec(w, h, s),
        0 <= x < w,
        0 <= y < h,
    ensures
        region_clue(w, h, s, x, y) <= 3,
{
    let c = y * w + x;
    lemma_row_major(w as int, h as int, x, y);
    vstd::arithmetic::div_mod::lemma_fundamental_div_mod_converse(c, w as int, y, x);
    let beside_outside = (x == 0 || y == 0 || x == w - 1 || y == h - 1) && !s[c];
    if beside_outside {
        // The outside of the grid lies beside the cell.
    } else {
        if s[c] {
            lemma_inside_neighbour(w, h, s, c);
            let j = choose|j: int| #[trigger] neighbor_cells(w, h, c, j) && s[j];
            lemma_neighbour_side(w, h, s, x, y, j);
        } else {
            assert(!on_border(w, h, c));
            lemma_outside_neighbour(w, h, s, c);
            let j = choose|j: int| #[trigger] neighbor_cells(w, h, c, j) && !s[j];
            lemma_neighbour_side(w, h, s, x, y, j);
        }
    }
}

/// A puzzle clued from a valid region shows clues of at most 3.
pub proof fn lemma_generated_clues_le3(p: PuzzleView, inside: Seq<bool>)
    requires
        p.cells.len() == p.width * p.height,
        inside.len() == p.width * p.height,
        region_valid_spec(p.width, p.height, inside),
        clues_within(p, inside),
    ensures
        forall|i: int| 0 <= i < p.cells.len() ==> (#[trigger] p.cells[i] matches Cell::Clue(n) ==> n <= 3),
{
    assert forall|i: int| 0 <= i < p.cells.len() implies (#[trigger] p.cells[i] matches Cell::Clue(n) ==> n <= 3) by {
        lemma_width_positive(p.width as int, p.height as int);
        lemma_cell_coords(p.width as int, p.height as int, i);
        let x = i % (p.width as int);
        let y = i / (p.width as int);
        assert(p.cell(x, y) == p.cells[i]);
        lemma_region_clue_le3(p.width, p.height, inside, x, y);
        lemma_region_clue_le4(p.width, p.height, inside, x, y);
    }
}

/// The easy solver, run from the blank grid, ends at a solution.
#[verifier::opaque]
pub open spec fn easy_solves(p: PuzzleView) -> bool {
    is_solution(p, easy_result(p))
}

/// The full solver, run from the blank grid, ends at a solution.
#[verifier::opaque]
pub open spec fn hard_solves(p: PuzzleView) -> bool {
    is_solution(p, hard_result(p))
}

/// The solver of `difficulty`, run from the blank grid, ends at a solution.
pub open spec fn tier_verdict(p: PuzzleView, difficulty: Difficulty) -> bool {
    match difficulty {
        Difficulty::Easy => easy_solves(p),
        Difficulty::Hard => hard_solves(p),
    }
}

/// A grid the easy solver can stop at: of the puzzle's size, agreed with by
/// every solution, and with neither a local rule nor the loop-closing rule
/// firing anywhere.
pub open spec fn easy_stop(p: PuzzleView, g: Grid) -> bool {
    &&& fits(p, g)
    &&& local_fixpoint(p, g, false)
    &&& no_premature_fixpoint(p, g)
    &&& forall|s: Grid| #[trigger] is_solution(p, s) && fits(p, s) ==> agrees(g, s)
}

/// A grid the full solver can stop at: of the puzzle's size, agreed with by
/// every solution that follows the seed patterns, with the loop-closing rule
/// firing nowhere, and the local rules firing nowhere unless no solution agrees
/// with it.
pub open spec fn hard_stop(p: PuzzleView, g: Grid) -> bool {
    &&& fits(p, g)
    &&& no_premature_fixpoint(p, g)
    &&& forall|s: Grid| #[trigger] is_solution(p, s) && fits(p, s) && follows_seed_patterns(p, s) ==> agrees(g, s)
    &&& local_fixpoint(p, g, false) || rules_out_all(p, g)
}

/// A grid the solver of `difficulty` can stop at.
pub open spec fn tier_stop(p: PuzzleView, difficulty: Difficulty, g: Grid) -> bool {
    match difficulty {
        Difficulty::Easy => easy_stop(p, g),
        Difficulty::Hard => hard_stop(p, g),
    }
}

/// Whether the solver for `difficulty` solves `puzzle` end-to-end: the result
/// is whether the grid that solver stops at is a solution. When it is, the
/// puzzle has exactly the one solution that the solver found (among those that
/// follow the seed patterns, for the hard tier).
fn tier_solves(puzzle: &Puzzle, difficulty: Difficulty) -> (r: bool)
    requires
        puzzle.wf(),
        clues_at_most_four(puzzle@),
        (puzzle@.width + 1) * (puzzle@.height + 1) <= u32::MAX,
        2 * ((puzzle@.width + 1) * (puzzle@.height + 1)) <= usize::MAX,
    ensures
        exists|g: Grid| #[trigger] tier_stop(puzzle@, difficulty, g) && r == is_solution(puzzle@, g),
        r ==> tier_settles(puzzle@, difficulty),
        r == tier_verdict(puzzle@, difficulty),
{
    let ghost p = puzzle@;
    proof {
        assert(p.width <= usize::MAX && p.height <= usize::MAX) by (nonlinear_arith)
            requires
                (p.width + 1) * (p.height + 1) <= u32::MAX,
        ;
    }
    match difficulty {
        Difficulty::Easy => {
            let sol = propagate_easy(puzzle);
            let r = is_solved(puzzle, &sol);
            proof {
                reveal(easy_solves);
                if r {
                    let g = sol.grid();
                    assert forall|s: Grid| #[trigger] is_solution(p, s) && fits(p, s) implies same_loop_edges(g, s) by {
                        lemma_agreed_is_sole(p, g, s);
                    }
                    assert(sole_solution(p, g));
                }
                assert(tier_stop(p, difficulty, sol.grid()));
            }
            r
        },
        Difficulty::Hard => {
            let sol = propagate(puzzle);
            let r = is_solved(puzzle, &sol);
            proof {
                reveal(hard_solves);
                if r {
                    let g = sol.grid();
                    assert forall|s: Grid| #[trigger] is_solution(p, s) && fits(p, s) && follows_seed_patterns(p, s)
                        implies same_loop_edges(g, s) by {
                        lemma_agreed_is_sole(p, g, s);
                    }
                    assert(sole_patterned_solution(p, g));
                }
                assert(tier_stop(p, difficulty, sol.grid()));
            }
            r
        },
    }
}

/// `g` and `s` draw the same edges.
pub open spec fn same_loop_edges(g: Grid, s: Grid) -> bool {
    forall|f: EdgeId| #[trigger] g.is_loop(f) <==> s.is_loop(f)
}

/// `g` solves `p`, and every solution of `p` draws the same edges as `g`.
pub open spec fn sole_solution(p: PuzzleView, g: Grid) -> bool {
    &&& is_solution(p, g)
    &&& fits(p, g)
    &&& forall|s: Grid| #[trigger] is_solution(p, s) && fits(p, s) ==> same_loop_edges(g, s)
}

/// `g` solves `p`, and every solution of `p` that follows the seed patterns
/// draws the same edges as `g`.
pub open spec fn sole_patterned_solution(p: PuzzleView, g: Grid) -> bool {
    &&& is_solution(p, g)
    &&& fits(p, g)
    &&& forall|s: Grid| #[trigger] is_solution(p, s) && fits(p, s) && follows_seed_patterns(p, s) ==> same_loop_edges(g, s)
}

/// What the tier's solver finding a solution tells of a puzzle: an easy puzzle
/// has exactly one solution; a hard one has exactly one among the solutions that
/// follow the seed patterns.
pub open spec fn tier_settles(p: PuzzleView, difficulty: Difficulty) -> bool {
    match difficulty {
        Difficulty::Easy => exists|g: Grid| sole_solution(p, g),
        Difficulty::Hard => exists|g: Grid| sole_patterned_solution(p, g),
    }
}

/// Every cell of the puzzle shows the clue of some generated region.
pub open spec fn fully_clued_by_region(p: PuzzleView) -> bool {
    exists|inside: Seq<bool>|
        #![trigger generated_region(p.width, p.height, inside)]
        inside.len() == p.width * p.height && generated_region(p.width, p.height, inside) && forall|x: int, y: int|
            0 <= x < p.width && 0 <= y < p.height ==> #[trigger] p.cell(x, y) == Cell::Clue(
                region_clue(p.width, p.height, inside, x, y) as u8,
            )
}

/// A solution of the puzzle that another solution agrees with draws exactly
/// the same edges as it.
proof fn lemma_agreed_is_sole(p: PuzzleView, g: Grid, s: Grid)
    requires
        is_solution(p, g),
        fits(p, g),
        g.width <= usize::MAX,
        g.height <= usize::MAX,
        is_solution(p, s),
        agrees(g, s),
    ensures
        same_loop_edges(g, s),
{
    assert forall|f: EdgeId| #[trigger] g.is_loop(f) implies s.is_loop(f) by {}
    lemma_solution_inside(p, g, s);
}

/// The positions of a `w` x `h` grid in row-major order.
pub open spec fn all_positions(w: nat, h: nat) -> Seq<(usize, usize)> {
    Seq::new(w * h, |i: int| ((i % (w as int)) as usize, (i / (w as int)) as usize))
}

/// Strips clues one by one in a shuffled order of the positions, keeping a
/// strip only if the tier's solver still solves the puzzle.
fn strip_clues(puzzle: Puzzle, rng: &mut Rng, difficulty: Difficulty) -> (r: Puzzle)
    requires
        puzzle.wf(),
        clues_at_most_four(puzzle@),
        (puzzle@.width + 1) * (puzzle@.height + 1) <= u32::MAX,
        2 * ((puzzle@.width + 1) * (puzzle@.height + 1)) <= usize::MAX,
    ensures
        r.wf(),
        r@.width == puzzle@.width,
        r@.height == puzzle@.height,
        forall|i: int| 0 <= i < r@.cells.len() ==> #[trigger] r@.cells[i] == puzzle@.cells[i] || r@.cells[i] == Cell::Empty,
        tier_settles(r@, difficulty) || r@ == puzzle@,
        tier_verdict(r@, difficulty) || r@ == puzzle@,
        r@ == strip_spec(
            puzzle@,
            difficulty,
            shuffle_spec(all_positions(puzzle@.width, puzzle@.height), puzzle@.width * puzzle@.height, old(rng).state()).0,
        ),
        final(rng).state() == shuffle_spec(
            all_positions(puzzle@.width, puzzle@.height),
            puzzle@.width * puzzle@.height,
            old(rng).state(),
        ).1,
{
    let mut puzzle = puzzle;
    let ghost p0 = puzzle@;
    let w = puzzle.width();
    let h = puzzle.height();
    proof {
        puzzle.lemma_wf();
    }
    let n = w * h;
    let mut positions: Vec<(usize, usize)> = Vec::with_capacity(n);
    let mut i: usize = 0;
    while i < n
        invariant
            i <= n,
            n == w * h,
            w == p0.width,
            h == p0.height,
            positions@.len() == i,
            forall|k: int| 0 <= k < i ==> #[trigger] positions@[k] == all_positions(w as nat, h as nat)[k],
        decreases n - i,
    {
        positions.push((i % w, i / w));
        i += 1;
    }
    proof {
        assert(positions@ =~= all_positions(w as nat, h as nat));
    }
    let ghost before = positions@;
    rng.shuffle(&mut positions);
    proof {
        assert forall|q: int| 0 <= q < positions@.len() implies #[trigger] positions@[q].0 < w && positions@[q].1 < h by {
            vstd::seq_lib::to_multiset_contains(positions@, positions@[q]);
            vstd::seq_lib::to_multiset_contains(before, positions@[q]);
            let k = choose|k: int| 0 <= k < before.len() && before[k] == positions@[q];
            lemma_cell_coords(w as int, h as int, k);
        }
    }
    let mut q: usize = 0;
    while q < positions.len()
        invariant
            q <= positions@.len(),
            forall|j: int| 0 <= j < positions@.len() ==> #[trigger] positions@[j].0 < w && positions@[j].1 < h,
            puzzle.wf(),
            puzzle@.width == w,
            puzzle@.height == h,
            w == p0.width,
            h == p0.height,
            puzzle@.cells.len() == p0.cells.len(),
            clues_at_most_four(puzzle@),
            (w + 1) * (h + 1) <= u32::MAX,
            2 * ((w + 1) * (h + 1)) <= usize::MAX,
            forall|j: int| 0 <= j < puzzle@.cells.len() ==> #[trigger] puzzle@.cells[j] == p0.cells[j] || puzzle@.cells[j] == Cell::Empty,
            tier_settles(puzzle@, difficulty) || puzzle@ == p0,
            tier_verdict(puzzle@, difficulty) || puzzle@ == p0,
            puzzle@ == strip_spec(p0, difficulty, positions@.take(q as int)),
        decreases positions@.len() - q,
    {
        let (x, y) = positions[q];
        let ghost pq = puzzle@;
        proof {
            assert(positions@.take(q + 1).drop_last() =~= positions@.take(q as int));
            assert(positions@.take(q + 1).last() == (x, y));
            assert(positions@[q as int].0 < w && positions@[q as int].1 < h);
            lemma_row_major(w as int, h as int, x as int, y as int);
            puzzle.lemma_wf();
        }
        let saved = puzzle.cell(x, y);
        if saved != Cell::Empty {
            let ghost pb = puzzle@;
            puzzle.set_cell(x, y, Cell::Empty);
            proof {
                let k = y * w + x;
                assert forall|j: int| 0 <= j < puzzle@.cells.len() implies #[trigger] puzzle@.cells[j] == p0.cells[j]
                    || puzzle@.cells[j] == Cell::Empty by {
                    if j != k {
                        assert(puzzle@.cells[j] == pb.cells[j]);
                    }
                }
                assert forall|j: int| 0 <= j < puzzle@.cells.len() implies (#[trigger] puzzle@.cells[j] matches Cell::Clue(
                    c,
                ) ==> c <= 4) by {
                    if j != k {
                        assert(puzzle@.cells[j] == pb.cells[j]);
                    }
                }
            }
            if !tier_solves(&puzzle, difficulty) {
                puzzle.set_cell(x, y, saved);
                proof {
                    assert(puzzle@.cells =~= pb.cells);
                    assert(puzzle@ == pb);
                }
            }
        }
        proof {
            assert(pq.cell(x as int, y as int) == pq.cells[y * pq.width + x]);
            assert(puzzle@ == strip_spec(p0, difficulty, positions@.take(q + 1)));
        }
        q += 1;
    }
    proof {
        assert(positions@.take(q as int) =~= positions@);
    }
    puzzle
}

/// The puzzle after trying to blank the listed cells in order: a clue is
/// blanked only if the solver of `difficulty` still solves the puzzle without it.
pub open spec fn strip_spec(p: PuzzleView, difficulty: Difficulty, order: Seq<(usize, usize)>) -> PuzzleView
    decreases order.len(),
{
    if order.len() == 0 {
        p
    } else {
        let q = strip_spec(p, difficulty, order.drop_last());
        let (x, y) = order.last();
        let k = y * q.width + x;
        if q.cells[k] == Cell::Empty {
            q
        } else {
            let q2 = PuzzleView { width: q.width, height: q.height, cells: q.cells.update(k, Cell::Empty) };
            if tier_verdict(q2, difficulty) {
                q2
            } else {
                q
            }
        }
    }
}

/// The index of position `c` on a grid `w` wide.
pub open spec fn pos_index(w: nat, c: (usize, usize)) -> int {
    c.1 * w + c.0
}

/// `p` with the cell at index `k` blanked.
pub open spec fn blanked(p: PuzzleView, k: int) -> PuzzleView {
    PuzzleView { width: p.width, height: p.height, cells: p.cells.update(k, Cell::Empty) }
}

/// Stripping keeps the size of the board.
proof fn lemma_strip_shape(p: PuzzleView, d: Difficulty, order: Seq<(usize, usize)>)
    requires
        forall|j: int| 0 <= j < order.len() ==> 0 <= pos_index(p.width, #[trigger] order[j]) < p.cells.len(),
    ensures
        strip_spec(p, d, order).width == p.width,
        strip_spec(p, d, order).height == p.height,
        strip_spec(p, d, order).cells.len() == p.cells.len(),
    decreases order.len(),
{
    if order.len() > 0 {
        let o2 = order.drop_last();
        assert forall|j: int| 0 <= j < o2.len() implies 0 <= pos_index(p.width, #[trigger] o2[j]) < p.cells.len() by {
            assert(o2[j] == order[j]);
        }
        lemma_strip_shape(p, d, o2);
        assert(0 <= pos_index(p.width, order[order.len() - 1]) < p.cells.len());
    }
}

/// Stripping at positions other than `k` leaves the cell at `k` as it was.
proof fn lemma_strip_elsewhere(p: PuzzleView, d: Difficulty, order: Seq<(usize, usize)>, m: int, k: int)
    requires
        0 <= m <= order.len(),
        0 <= k < p.cells.len(),
        forall|j: int| 0 <= j < order.len() ==> 0 <= pos_index(p.width, #[trigger] order[j]) < p.cells.len(),
        forall|j: int| m <= j < order.len() ==> pos_index(p.width, #[trigger] order[j]) != k,
    ensures
        strip_spec(p, d, order).cells[k] == strip_spec(p, d, order.take(m)).cells[k],
    decreases order.len() - m,
{
    if m < order.len() {
        let o2 = order.drop_last();
        assert forall|j: int| m <= j < o2.len() implies pos_index(p.width, #[trigger] o2[j]) != k by {
            assert(o2[j] == order[j]);
        }
        assert forall|j: int| 0 <= j < o2.len() implies 0 <= pos_index(p.width, #[trigger] o2[j]) < p.cells.len() by {
            assert(o2[j] == order[j]);
        }
        lemma_strip_elsewhere(p, d, o2, m, k);
        assert(o2.take(m) =~= order.take(m));
        lemma_strip_shape(p, d, o2);
        assert(pos_index(p.width, order[order.len() - 1]) != k);
    } else {
        assert(order.take(m) =~= order);
    }
}

/// Every clue that stripping leaves was tried: at its turn in the order,
/// blanking it on the board as it then stood made the tier's solver fail.
/// This holds of every clue, a 0 included.
pub proof fn lemma_kept_clue_needed(p: PuzzleView, d: Difficulty, order: Seq<(usize, usize)>, i: int)
    requires
        0 <= i < order.len(),
        forall|j: int| 0 <= j < order.len() ==> 0 <= pos_index(p.width, #[trigger] order[j]) < p.cells.len(),
        forall|j: int| 0 <= j < order.len() && j != i ==> pos_index(p.width, #[trigger] order[j]) != pos_index(
            p.width,
            order[i],
        ),
        strip_spec(p, d, order).cells[pos_index(p.width, order[i])] != Cell::Empty,
    ensures
        strip_spec(p, d, order.take(i)).cells[pos_index(p.width, order[i])] != Cell::Empty,
        strip_spec(p, d, order.take(i)).cells[pos_index(p.width, order[i])] == p.cells[pos_index(p.width, order[i])],
        !tier_verdict(blanked(strip_spec(p, d, order.take(i)), pos_index(p.width, order[i])), d),
{
    let k = pos_index(p.width, order[i]);
    assert(0 <= k < p.cells.len());
    lemma_strip_elsewhere(p, d, order, i + 1, k);
    let t = order.take(i + 1);
    let o = order.take(i);
    assert(t.drop_last() =~= o);
    assert(t.last() == order[i]);
    assert forall|j: int| 0 <= j < o.len() implies 0 <= pos_index(p.width, #[trigger] o[j]) < p.cells.len() by {
        assert(o[j] == order[j]);
    }
    assert forall|j: int| 0 <= j < o.len() implies pos_index(p.width, #[trigger] o[j]) != k by {
        assert(o[j] == order[j]);
    }
    lemma_strip_shape(p, d, o);
    lemma_strip_untouched(p, d, o, k);
}

/// A position not yet in the order keeps its cell.
proof fn lemma_strip_untouched(p: PuzzleView, d: Difficulty, order: Seq<(usize, usize)>, k: int)
    requires
        0 <= k < p.cells.len(),
        forall|j: int| 0 <= j < order.len() ==> 0 <= pos_index(p.width, #[trigger] order[j]) < p.cells.len(),
        forall|j: int| 0 <= j < order.len() ==> pos_index(p.width, #[trigger] order[j]) != k,
    ensures
        strip_spec(p, d, order).cells[k] == p.cells[k],
{
    lemma_strip_elsewhere(p, d, order, 0, k);
    assert(order.take(0) =~= Seq::<(usize, usize)>::empty());
}

/// The board the tier settles on has the grid's size.
proof fn lemma_tier_board_shape(
    algo: RegionAlgo,
    d: Difficulty,
    w: nat,
    h: nat,
    state: u64,
    attempts: nat,
)
    ensures
        tier_board(algo, d, w, h, state, attempts).0.width == w,
        tier_board(algo, d, w, h, state, attempts).0.height == h,
        tier_board(algo, d, w, h, state, attempts).0.cells.len() == w * h,
    decreases MAX_REGION_ATTEMPTS - attempts,
{
    reveal(region_board);
    let b = region_board(w, h, region_of(algo, w, h, state));
    if !(attempts >= MAX_REGION_ATTEMPTS || tier_verdict(b, d)) {
        lemma_tier_board_shape(algo, d, w, h, next_state(state), attempts + 1);
    }
}

/// Every position of a grid once, row by row: no position twice, and each
/// on the grid.
proof fn lemma_all_positions(w: nat, h: nat)
    requires
        w > 0,
        w * h <= usize::MAX,
    ensures
        all_positions(w, h).no_duplicates(),
        forall|j: int| 0 <= j < all_positions(w, h).len() ==> (#[trigger] all_positions(w, h)[j]).0 < w
            && all_positions(w, h)[j].1 < h,
{
    let s = all_positions(w, h);
    assert forall|j: int| 0 <= j < s.len() implies (#[trigger] s[j]).0 < w && s[j].1 < h by {
        lemma_cell_coords(w as int, h as int, j);
    }
    assert forall|i: int, j: int| 0 <= i < s.len() && 0 <= j < s.len() && i != j implies s[i] != s[j] by {
        lemma_cell_coords(w as int, h as int, i);
        lemma_cell_coords(w as int, h as int, j);
        assert(w <= w * h) by (nonlinear_arith)
            requires
                w > 0,
                w * h >= 1,
        ;
        assert(h <= w * h) by (nonlinear_arith)
            requires
                w > 0,
        ;
        if s[i] == s[j] {
            assert(i % (w as int) == j % (w as int));
            assert(i / (w as int) == j / (w as int));
        }
    }
}

/// The order in which generation tries to strip clues: each position of
/// the grid once.
proof fn lemma_strip_order(w: nat, h: nat, st: u64)
    requires
        w > 0,
        w * h <= usize::MAX,
    ensures
        shuffle_spec(all_positions(w, h), w * h, st).0.no_duplicates(),
        forall|j: int|
            0 <= j < shuffle_spec(all_positions(w, h), w * h, st).0.len() ==> (
            #[trigger] shuffle_spec(all_positions(w, h), w * h, st).0[j]).0 < w && shuffle_spec(
                all_positions(w, h),
                w * h,
                st,
            ).0[j].1 < h,
{
    let a = all_positions(w, h);
    let o = shuffle_spec(a, w * h, st).0;
    lemma_all_positions(w, h);
    lemma_shuffle_perm(a, w * h, st);
    broadcast use vstd::multiset::group_multiset_axioms;
    a.lemma_multiset_has_no_duplicates();
    assert forall|c: (usize, usize)| o.to_multiset().contains(c) implies o.to_multiset().count(c) == 1 by {}
    o.lemma_multiset_has_no_duplicates_conv();
    assert forall|j: int| 0 <= j < o.len() implies (#[trigger] o[j]).0 < w && o[j].1 < h by {
        vstd::seq_lib::to_multiset_contains(o, o[j]);
        vstd::seq_lib::to_multiset_contains(a, o[j]);
        let k = choose|k: int| 0 <= k < a.len() && a[k] == o[j];
        assert(a[k].0 < w && a[k].1 < h);
    }
}

/// Every clue a generated puzzle shows was needed: with the clues present
/// at its turn in the strip order, blanking it makes the tier's solver fail.
/// A 0 clue is tried like any other.
pub proof fn lemma_generated_clue_needed(
    algo: RegionAlgo,
    d: Difficulty,
    w: nat,
    h: nat,
    state: u64,
    i: int,
)
    requires
        w > 0,
        w * h <= usize::MAX,
        0 <= i < w * h,
        ({
            let (b, st) = tier_board(algo, d, w, h, state, 1);
            let order = shuffle_spec(all_positions(w, h), w * h, st).0;
            generated(algo, d, w, h, state).cells[pos_index(w, order[i])] != Cell::Empty
        }),
    ensures
        ({
            let (b, st) = tier_board(algo, d, w, h, state, 1);
            let order = shuffle_spec(all_positions(w, h), w * h, st).0;
            let k = pos_index(w, order[i]);
            &&& strip_spec(b, d, order.take(i)).cells[k] == b.cells[k]
            &&& b.cells[k] != Cell::Empty
            &&& !tier_verdict(blanked(strip_spec(b, d, order.take(i)), k), d)
        }),
{
    let (b, st) = tier_board(algo, d, w, h, state, 1);
    let a = all_positions(w, h);
    let order = shuffle_spec(a, w * h, st).0;
    lemma_tier_board_shape(algo, d, w, h, state, 1);
    lemma_shuffle_perm(a, w * h, st);
    lemma_strip_order(w, h, st);
    assert forall|j: int| 0 <= j < order.len() implies 0 <= pos_index(b.width, #[trigger] order[j]) < b.cells.len() by {
        lemma_row_major(w as int, h as int, order[j].0 as int, order[j].1 as int);
    }
    assert forall|j: int| 0 <= j < order.len() && j != i implies pos_index(b.width, #[trigger] order[j]) != pos_index(
        b.width,
        order[i],
    ) by {
        if pos_index(b.width, order[j]) == pos_index(b.width, order[i]) {
            crate::lines::lemma_row_major_inj(
                w as int,
                order[j].0 as int,
                order[j].1 as int,
                order[i].0 as int,
                order[i].1 as int,
            );
        }
    }
    lemma_kept_clue_needed(b, d, order, i);
}

/// A region drawn by the chosen generator from `rng`.
fn run_region(algo: RegionAlgo, width: usize, height: usize, rng: &mut Rng) -> (r: Vec<bool>)
    requires
        generatable(width as nat, height as nat),
    ensures
        r@.len() == width * height,
        generated_region(width as nat, height as nat, r@),
        r@ == region_of(algo, width as nat, height as nat, old(rng).state()),
        final(rng).state() == next_state(old(rng).state()),
{
    match algo {
        RegionAlgo::Walk => {
            let r = walk::run(width, height, rng);
            proof {
                reveal(region_of);
                let v = walk_start(width as nat, height as nat, next_draw(old(rng).state()));
                let k = choose|k: nat| walk_halts_at(v, k) && r@ == walk_step(walk_from(v, k)).0.inside;
                let k2 = choose|k: nat| walk_halts_at(v, k);
                if k < k2 {
                    assert(walk_step(walk_from(v, k)).1);
                } else if k2 < k {
                    assert(walk_step(walk_from(v, k2)).1);
                }
            }
            r
        },
        RegionAlgo::Metropolis => {
            let r = metropolis::run(width, height, rng);
            proof {
                reveal(region_of);
                let v = metro_start(width as nat, height as nat, next_draw(old(rng).state()));
                let k = choose|k: nat| metro_halts_at(v, k) && r@ == metro_step(metro_from(v, k)).0.inside;
                let k2 = choose|k: nat| metro_halts_at(v, k);
                if k < k2 {
                    assert(metro_step(metro_from(v, k)).1);
                } else if k2 < k {
                    assert(metro_step(metro_from(v, k2)).1);
                }
            }
            r
        },
    }
}

/// The fully clued board of a region on a `w` x `h` grid.
#[verifier::opaque]
pub open spec fn region_board(w: nat, h: nat, inside: Seq<bool>) -> PuzzleView {
    PuzzleView {
        width: w,
        height: h,
        cells: Seq::new(w * h, |i: int| Cell::Clue(region_clue(w, h, inside, i % (w as int), i / (w as int)) as u8)),
    }
}

/// A board whose every cell shows the region's clue is the region's board.
proof fn lemma_region_board(p: PuzzleView, w: nat, h: nat, inside: Seq<bool>)
    requires
        p.width == w,
        p.height == h,
        w > 0,
        p.cells.len() == w * h,
        forall|x: int, y: int|
            0 <= x < w && 0 <= y < h ==> #[trigger] p.cell(x, y) == Cell::Clue(region_clue(w, h, inside, x, y) as u8),
    ensures
        p == region_board(w, h, inside),
{
    reveal(region_board);
    let b = region_board(w, h, inside);
    assert forall|i: int| 0 <= i < p.cells.len() implies p.cells[i] == b.cells[i] by {
        lemma_cell_coords(w as int, h as int, i);
        assert(p.cell(i % (w as int), i / (w as int)) == p.cells[i]);
    }
    assert(p.cells =~= b.cells);
}

/// The board the tier settles on and the generator's state after it: from
/// state `state`, with `attempts` draws made counting this one, a region is
/// drawn and its full board kept if the tier's solver solves it or the attempts
/// are used up; otherwise another is drawn.
pub open spec fn tier_board(
    algo: RegionAlgo,
    difficulty: Difficulty,
    w: nat,
    h: nat,
    state: u64,
    attempts: nat,
) -> (PuzzleView, u64)
    decreases MAX_REGION_ATTEMPTS - attempts,
{
    let b = region_board(w, h, region_of(algo, w, h, state));
    if attempts >= MAX_REGION_ATTEMPTS || tier_verdict(b, difficulty) {
        (b, next_state(state))
    } else {
        tier_board(algo, difficulty, w, h, next_state(state), attempts + 1)
    }
}

/// The puzzle of `difficulty` that `algo` generates from a generator in state
/// `state`: the board of [`tier_board`], stripped in the shuffled order of its
/// cells.
pub open spec fn generated(algo: RegionAlgo, difficulty: Difficulty, w: nat, h: nat, state: u64) -> PuzzleView {
    let (b, st) = tier_board(algo, difficulty, w, h, state, 1);
    strip_spec(b, difficulty, shuffle_spec(all_positions(w, h), w * h, st).0)
}

/// The region that `algo` draws on a `w` x `h` grid from a generator in state
/// `state`: the region of the first state at which the walk or chain halts.
#[verifier::opaque]
pub open spec fn region_of(algo: RegionAlgo, w: nat, h: nat, state: u64) -> Seq<bool> {
    match algo {
        RegionAlgo::Walk => {
            let v = walk_start(w, h, next_draw(state));
            walk_step(walk_from(v, choose|k: nat| walk_halts_at(v, k))).0.inside
        },
        RegionAlgo::Metropolis => {
            let v = metro_start(w, h, next_draw(state));
            metro_step(metro_from(v, choose|k: nat| metro_halts_at(v, k))).0.inside
        },
    }
}

/// Generates an easy-difficulty puzzle of the requested size, seeded by `seed`,
/// using the [`Walk`](RegionAlgo::Walk) generator. Convenience wrapper around
/// [`generate_with`].
pub fn generate(width: usize, height: usize, seed: u64) -> (p: Puzzle)
    requires
        generatable(width as nat, height as nat),
    ensures
        p.wf(),
        p@.width == width,
        p@.height == height,
        clued_by_region(p@),
        tier_settles(p@, Difficulty::Easy) || fully_clued_by_region(p@),
        tier_verdict(p@, Difficulty::Easy) || fully_clued_by_region(p@),
        p@ == generated(RegionAlgo::Walk, Difficulty::Easy, width as nat, height as nat, seed),
{
    generate_with(width, height, seed, Difficulty::Easy, RegionAlgo::Walk)
}

/// Generates the puzzle identified by `(width, height, difficulty, number)`.
/// `number` is the per-category level number, not an RNG seed: the actual seed is
/// derived internally by [`seed_from`].
///
/// One [`Rng`] is seeded once and used first to pick a region generator and then
/// to drive that generator, so the same coordinates always yield the same puzzle.
pub fn generate_seeded(width: usize, height: usize, difficulty: Difficulty, number: u64) -> (p: Puzzle)
    requires
        generatable(width as nat, height as nat),
    ensures
        p.wf(),
        p@.width == width,
        p@.height == height,
        clued_by_region(p@),
        tier_settles(p@, difficulty) || fully_clued_by_region(p@),
        tier_verdict(p@, difficulty) || fully_clued_by_region(p@),
        p@ == generated(
            if next_draw(seed_spec(width, height, difficulty, number)) % 2 == 0 {
                RegionAlgo::Walk
            } else {
                RegionAlgo::Metropolis
            },
            difficulty,
            width as nat,
            height as nat,
            next_state(seed_spec(width, height, difficulty, number)),
        ),
{
    let mut rng = Rng::new(seed_from(width, height, difficulty, number));
    let algo = pick_algo(&mut rng);
    generate_with_rng(width, height, &mut rng, algo, difficulty)
}

/// The seed for a puzzle's category coordinates.
pub open spec fn seed_spec(width: usize, height: usize, difficulty: Difficulty, number: u64) -> u64 {
    let diff: u64 = match difficulty {
        Difficulty::Easy => 0,
        Difficulty::Hard => 1,
    };
    let h1 = mix_spec(GOLDEN_GAMMA ^ (width as u64));
    let h2 = mix_spec(h1 ^ (height as u64));
    let h3 = mix_spec(h2 ^ diff);
    mix_spec(h3 ^ number)
}

/// The seed tells the categories apart: with three coordinates fixed,
/// different values of the fourth give different seeds.
pub proof fn lemma_seed_injective(
    w1: usize,
    h1: usize,
    d1: Difficulty,
    n1: u64,
    w2: usize,
    h2: usize,
    d2: Difficulty,
    n2: u64,
)
    requires
        seed_spec(w1, h1, d1, n1) == seed_spec(w2, h2, d2, n2),
    ensures
        h1 == h2 && d1 == d2 && n1 == n2 ==> w1 == w2,
        w1 == w2 && d1 == d2 && n1 == n2 ==> h1 == h2,
        w1 == w2 && h1 == h2 && n1 == n2 ==> d1 == d2,
        w1 == w2 && h1 == h2 && d1 == d2 ==> n1 == n2,
{
    let e1: u64 = match d1 {
        Difficulty::Easy => 0,
        Difficulty::Hard => 1,
    };
    let e2: u64 = match d2 {
        Difficulty::Easy => 0,
        Difficulty::Hard => 1,
    };
    let a1 = mix_spec(GOLDEN_GAMMA ^ (w1 as u64));
    let a2 = mix_spec(GOLDEN_GAMMA ^ (w2 as u64));
    let b1 = mix_spec(a1 ^ (h1 as u64));
    let b2 = mix_spec(a2 ^ (h2 as u64));
    let c1 = mix_spec(b1 ^ e1);
    let c2 = mix_spec(b2 ^ e2);
    lemma_mix_injective(c1 ^ n1, c2 ^ n2);
    if n1 == n2 {
        lemma_xor_cancel(n1, c1, c2);
        assert(c1 ^ n1 == n1 ^ c1) by (bit_vector);
        assert(c2 ^ n2 == n2 ^ c2) by (bit_vector);
        lemma_mix_injective(b1 ^ e1, b2 ^ e2);
        if d1 == d2 {
            assert(b1 ^ e1 == e1 ^ b1) by (bit_vector);
            assert(b2 ^ e2 == e2 ^ b2) by (bit_vector);
            lemma_xor_cancel(e1, b1, b2);
            lemma_mix_injective(a1 ^ (h1 as u64), a2 ^ (h2 as u64));
            if h1 == h2 {
                assert(a1 ^ (h1 as u64) == (h1 as u64) ^ a1) by (bit_vector);
                assert(a2 ^ (h2 as u64) == (h2 as u64) ^ a2) by (bit_vector);
                lemma_xor_cancel(h1 as u64, a1, a2);
                lemma_mix_injective(GOLDEN_GAMMA ^ (w1 as u64), GOLDEN_GAMMA ^ (w2 as u64));
                lemma_xor_cancel(GOLDEN_GAMMA, w1 as u64, w2 as u64);
            }
            if w1 == w2 {
                lemma_xor_cancel(a1, h1 as u64, h2 as u64);
            }
        }
        if w1 == w2 && h1 == h2 {
            lemma_xor_cancel(b1, e1, e2);
        }
    }
    if w1 == w2 && h1 == h2 && d1 == d2 {
        lemma_xor_cancel(c1, n1, n2);
    }
}

/// Derives a well-distributed RNG seed from a puzzle's category coordinates.
/// Uses splitmix64 mixing so nearby level numbers (1, 2, 3, ...) and the small
/// size/difficulty values still produce uncorrelated generator streams.
pub fn seed_from(width: usize, height: usize, difficulty: Difficulty, number: u64) -> (r: u64)
    ensures
        r == seed_spec(width, height, difficulty, number),
{
    let diff: u64 = match difficulty {
        Difficulty::Easy => 0,
        Difficulty::Hard => 1,
    };
    let mut h = GOLDEN_GAMMA;
    h = mix(h ^ width as u64);
    h = mix(h ^ height as u64);
    h = mix(h ^ diff);
    mix(h ^ number)
}

/// Picks a region generator from `rng`: the walk or the Metropolis chain, by
/// the parity of the next draw.
pub fn pick_algo(rng: &mut Rng) -> (r: RegionAlgo)
    ensures
        r == (if next_draw(old(rng).state()) % 2 == 0 {
            RegionAlgo::Walk
        } else {
            RegionAlgo::Metropolis
        }),
        final(rng).state() == next_state(old(rng).state()),
{
    let k = rng.range(2);
    if k == 0 {
        RegionAlgo::Walk
    } else {
        RegionAlgo::Metropolis
    }
}

/// Generates a puzzle of the requested size and `difficulty`, seeded by `seed`,
/// using the chosen region generator.
///
/// The resulting puzzle is solvable end-to-end by the tier's solver alone (see
/// [`Difficulty`]): clues are stripped one by one in random order, and a strip is
/// only kept if that solver still produces a fully-solved board. So the tier's
/// solver, run from the blank grid, solves the puzzle ([`tier_verdict`]), and
/// the puzzle has one solution (for the hard tier: one among those that follow
/// the seed patterns); or else it shows every clue of its region, as it does
/// when no region drawn within the attempts solved under the tier. The puzzle
/// is exactly [`generated`] from the seed.
pub fn generate_with(width: usize, height: usize, seed: u64, difficulty: Difficulty, algo: RegionAlgo) -> (p: Puzzle)
    requires
        generatable(width as nat, height as nat),
    ensures
        p.wf(),
        p@.width == width,
        p@.height == height,
        clued_by_region(p@),
        tier_settles(p@, difficulty) || fully_clued_by_region(p@),
        tier_verdict(p@, difficulty) || fully_clued_by_region(p@),
        p@ == generated(algo, difficulty, width as nat, height as nat, seed),
{
    let mut rng = Rng::new(seed);
    generate_with_rng(width, height, &mut rng, algo, difficulty)
}

/// Draws regions until the fully-clued board solves under the tier's solver (or
/// the attempts run out), then strips clues from it.
#[verifier::rlimit(50)]
fn generate_with_rng(width: usize, height: usize, rng: &mut Rng, algo: RegionAlgo, difficulty: Difficulty) -> (p: Puzzle)
    requires
        generatable(width as nat, height as nat),
    ensures
        p.wf(),
        p@.width == width,
        p@.height == height,
        clued_by_region(p@),
        tier_settles(p@, difficulty) || fully_clued_by_region(p@),
        tier_verdict(p@, difficulty) || fully_clued_by_region(p@),
        p@ == generated(algo, difficulty, width as nat, height as nat, old(rng).state()),
{
    let ghost s0 = rng.state();
    let ghost mut cur = rng.state();
    let region = run_region(algo, width, height, rng);
    let mut full = clues_from_region(width, height, region.as_slice());
    let ghost mut r_spec = region@;
    proof {
        full.lemma_wf();
        lemma_full_clues(full@, r_spec);
        lemma_region_board(full@, width as nat, height as nat, r_spec);
    }
    let mut attempts: usize = 1;
    while attempts < MAX_REGION_ATTEMPTS && !tier_solves(&full, difficulty)
        invariant
            generatable(width as nat, height as nat),
            full.wf(),
            full@.width == width,
            full@.height == height,
            clues_at_most_four(full@),
            r_spec.len() == width * height,
            generated_region(width as nat, height as nat, r_spec),
            clues_within(full@, r_spec),
            forall|x: int, y: int|
                0 <= x < width && 0 <= y < height ==> #[trigger] full@.cell(x, y) == Cell::Clue(
                    region_clue(width as nat, height as nat, r_spec, x, y) as u8,
                ),
            attempts <= MAX_REGION_ATTEMPTS,
            1 <= attempts,
            r_spec == region_of(algo, width as nat, height as nat, cur),
            full@ == region_board(width as nat, height as nat, r_spec),
            rng.state() == next_state(cur),
            tier_board(algo, difficulty, width as nat, height as nat, s0, 1) == tier_board(
                algo,
                difficulty,
                width as nat,
                height as nat,
                cur,
                attempts as nat,
            ),
        decreases MAX_REGION_ATTEMPTS - attempts,
    {
        proof {
            assert(!tier_verdict(full@, difficulty));
            assert(tier_board(algo, difficulty, width as nat, height as nat, cur, attempts as nat) == tier_board(
                algo,
                difficulty,
                width as nat,
                height as nat,
                next_state(cur),
                (attempts + 1) as nat,
            ));
        }
        let ghost prev = cur;
        proof {
            cur = rng.state();
        }
        let region = run_region(algo, width, height, rng);
        full = clues_from_region(width, height, region.as_slice());
        proof {
            r_spec = region@;
            full.lemma_wf();
            lemma_full_clues(full@, r_spec);
            lemma_region_board(full@, width as nat, height as nat, r_spec);
        }
        attempts += 1;
    }
    proof {
        assert(tier_board(algo, difficulty, width as nat, height as nat, cur, attempts as nat) == (full@, rng.state()));
    }
    let ghost f0 = full@;
    let p = strip_clues(full, rng, difficulty);
    proof {
        if !tier_settles(p@, difficulty) || !tier_verdict(p@, difficulty) {
            assert(p@ == f0);
            assert(generated_region(f0.width, f0.height, r_spec));
        }
        assert forall|x: int, y: int| 0 <= x < p@.width && 0 <= y < p@.height implies (#[trigger] p@.cell(x, y) == Cell::Empty
            || p@.cell(x, y) == Cell::Clue(region_clue(p@.width, p@.height, r_spec, x, y) as u8)) by {
            lemma_row_major(width as int, height as int, x, y);
            p.lemma_wf();
            let k = y * width + x;
            assert(p@.cells[k] == f0.cells[k] || p@.cells[k] == Cell::Empty);
            assert(f0.cell(x, y) == Cell::Empty || f0.cell(x, y) == Cell::Clue(region_clue(f0.width, f0.height, r_spec, x, y) as u8));
        }
        assert(clues_within(p@, r_spec));
    }
    p
}

/// A fully-clued board has every clue within 4 and clues within its region.
proof fn lemma_full_clues(p: PuzzleView, inside: Seq<bool>)
    requires
        p.cells.len() == p.width * p.height,
        forall|x: int, y: int|
            0 <= x < p.width && 0 <= y < p.height ==> #[trigger] p.cell(x, y) == Cell::Clue(
                region_clue(p.width, p.height, inside, x, y) as u8,
            ),
    ensures
        clues_at_most_four(p),
        clues_within(p, inside),
{
    assert forall|i: int| 0 <= i < p.cells.len() implies (#[trigger] p.cells[i] matches Cell::Clue(n) ==> n <= 4) by {
        lemma_width_positive(p.width as int, p.height as int);
        lemma_cell_coords(p.width as int, p.height as int, i);
        let x = i % (p.width as int);
        let y = i / (p.width as int);
        assert(p.cell(x, y) == p.cells[i]);
        lemma_region_clue_le4(p.width, p.height, inside, x, y);
    }
}

} // verus!
