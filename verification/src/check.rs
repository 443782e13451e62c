//! Whether a grid of edges solves a puzzle.
use vstd::prelude::*;

use crate::cell::Cell;
use crate::edge::{EdgeId, EdgeState};
use crate::lines::{Grid, Lines};
use crate::puzzle::{Puzzle, PuzzleView};

verus! {

/// The four edges around cell (x, y): top, bottom, left, right.
pub open spec fn cell_edge_list(x: usize, y: usize) -> Seq<EdgeId> {
    seq![
        EdgeId::H(x, y),
        EdgeId::H(x, (y + 1) as usize),
        EdgeId::V(x, y),
        EdgeId::V((x + 1) as usize, y),
    ]
}

/// The edges that meet at vertex (x, y) on a `w` x `h` grid: left, right, up, down,
/// leaving out those that fall off the grid.
pub open spec fn vertex_edge_list(x: usize, y: usize, w: nat, h: nat) -> Seq<EdgeId> {
    (if x > 0 { seq![EdgeId::H((x - 1) as usize, y)] } else { Seq::empty() }) + (if x < w {
        seq![EdgeId::H(x, y)]
    } else {
        Seq::empty()
    }) + (if y > 0 { seq![EdgeId::V(x, (y - 1) as usize)] } else { Seq::empty() }) + (if y < h {
        seq![EdgeId::V(x, y)]
    } else {
        Seq::empty()
    })
}

/// How many of the listed edges are in state `s`.
pub open spec fn count_state(g: Grid, es: Seq<EdgeId>, s: EdgeState) -> nat
    decreases es.len(),
{
    if es.len() == 0 {
        0
    } else {
        count_state(g, es.drop_last(), s) + if g.state(es.last()) == s { 1nat } else { 0nat }
    }
}

/// Every clue counts the loop edges around its cell.
pub open spec fn clues_satisfied(p: PuzzleView, g: Grid) -> bool {
    forall|x: usize, y: usize|
        x < p.width && y < p.height ==> match #[trigger] p.cell(x as int, y as int) {
            Cell::Clue(n) => count_state(g, cell_edge_list(x, y), EdgeState::Loop) == n,
            Cell::Empty => true,
        }
}

/// Every vertex touches zero or two loop edges.
pub open spec fn degrees_valid(g: Grid) -> bool {
    forall|x: usize, y: usize|
        x <= g.width && y <= g.height ==> {
            let d = #[trigger] count_state(g, vertex_edge_list(x, y, g.width, g.height), EdgeState::Loop);
            d == 0 || d == 2
        }
}

/// The loop edges of `g` solve puzzle `p`: every clue is met, every vertex has
/// degree 0 or 2, and the loop edges form a single connected loop.
pub open spec fn is_solution(p: PuzzleView, g: Grid) -> bool {
    &&& clues_satisfied(p, g)
    &&& degrees_valid(g)
    &&& g.single_loop()
}

/// The four-entry count, spelled out.
pub proof fn lemma_count4(g: Grid, es: Seq<EdgeId>, s: EdgeState)
    requires
        es.len() == 4,
    ensures
        count_state(g, es, s) == (if g.state(es[0]) == s { 1nat } else { 0nat }) + (if g.state(es[1])
            == s { 1nat } else { 0nat }) + (if g.state(es[2]) == s { 1nat } else { 0nat }) + (if g.state(
            es[3],
        ) == s { 1nat } else { 0nat }),
{
    reveal_with_fuel(count_state, 5);
    assert(es.drop_last().drop_last().drop_last().drop_last() =~= Seq::<EdgeId>::empty());
}

/// Checks that `solution` solves `puzzle`.
pub fn is_solved<L: Lines>(puzzle: &Puzzle, solution: &L) -> (r: bool)
    requires
        puzzle.wf(),
        solution.inv(),
        puzzle@.width == solution.grid().width,
        puzzle@.height == solution.grid().height,
        (puzzle@.width + 1) * (puzzle@.height + 1) <= u32::MAX,
    ensures
        r == is_solution(puzzle@, solution.grid()),
{
    let w = puzzle.width();
    let h = puzzle.height();
    if !clues_satisfied_exec(puzzle, solution) {
        return false;
    }
    if !vertex_degrees_valid(solution, w, h) {
        return false;
    }
    solution.is_single_loop()
}

fn clues_satisfied_exec<L: Lines>(puzzle: &Puzzle, solution: &L) -> (r: bool)
    requires
        puzzle.wf(),
        solution.inv(),
        puzzle@.width == solution.grid().width,
        puzzle@.height == solution.grid().height,
    ensures
        r == clues_satisfied(puzzle@, solution.grid()),
{
    let ghost p = puzzle@;
    let ghost g = solution.grid();
    let mut y: usize = 0;
    while y < puzzle.height()
        invariant
            puzzle.wf(),
            solution.inv(),
            p == puzzle@,
            g == solution.grid(),
            p.width == g.width,
            p.height == g.height,
            y <= p.height,
            forall|cx: usize, cy: usize|
                cx < p.width && cy < y ==> match #[trigger] p.cell(cx as int, cy as int) {
                    Cell::Clue(n) => count_state(g, cell_edge_list(cx, cy), EdgeState::Loop) == n,
                    Cell::Empty => true,
                },
        decreases p.height - y,
    {
        let mut x: usize = 0;
        while x < puzzle.width()
            invariant
                puzzle.wf(),
                solution.inv(),
                p == puzzle@,
                g == solution.grid(),
                p.width == g.width,
                p.height == g.height,
                y < p.height,
                x <= p.width,
                forall|cx: usize, cy: usize|
                    ((cx < p.width && cy < y) || (cx < x && cy == y)) ==> match #[trigger] p.cell(
                        cx as int,
                        cy as int,
                    ) {
                        Cell::Clue(n) => count_state(g, cell_edge_list(cx, cy), EdgeState::Loop) == n,
                        Cell::Empty => true,
                    },
            decreases p.width - x,
        {
            if let Cell::Clue(n) = puzzle.cell(x, y) {
                if cell_loop_edges(solution, x, y) != n as usize {
                    return false;
                }
            }
            x = x + 1;
        }
        y = y + 1;
    }
    true
}

fn vertex_degrees_valid<L: Lines>(solution: &L, w: usize, h: usize) -> (r: bool)
    requires
        solution.inv(),
        w == solution.grid().width,
        h == solution.grid().height,
    ensures
        r == degrees_valid(solution.grid()),
{
    let ghost g = solution.grid();
    proof {
        solution.lemma_inv();
        assert(w + 1 <= (w + 1) * (h + 1)) by (nonlinear_arith);
        assert(h + 1 <= (w + 1) * (h + 1)) by (nonlinear_arith);
    }
    let mut y: usize = 0;
    while y <= h
        invariant
            solution.inv(),
            g == solution.grid(),
            w == g.width,
            h == g.height,
            h < usize::MAX,
            w < usize::MAX,
            y <= h + 1,
            forall|vx: usize, vy: usize|
                vx <= w && vy < y ==> {
                    let d = #[trigger] count_state(g, vertex_edge_list(vx, vy, g.width, g.height), EdgeState::Loop);
                    d == 0 || d == 2
                },
        decreases h + 1 - y,
    {
        let mut x: usize = 0;
        while x <= w
            invariant
                solution.inv(),
                g == solution.grid(),
                w == g.width,
                h == g.height,
                h < usize::MAX,
                w < usize::MAX,
                y <= h,
                x <= w + 1,
                forall|vx: usize, vy: usize|
                    ((vx <= w && vy < y) || (vx < x && vy == y)) ==> {
                        let d = #[trigger] count_state(g, vertex_edge_list(vx, vy, g.width, g.height), EdgeState::Loop);
                        d == 0 || d == 2
                    },
            decreases w + 1 - x,
        {
            let d = vertex_loop_degree(solution, x, y, w, h);
            if d != 0 && d != 2 {
                return false;
            }
            x = x + 1;
        }
        y = y + 1;
    }
    true
}

/// Number of loop edges around cell (x, y).
fn cell_loop_edges<L: Lines>(s: &L, x: usize, y: usize) -> (n: usize)
    requires
        s.inv(),
        x < s.grid().width,
        y < s.grid().height,
    ensures
        n == count_state(s.grid(), cell_edge_list(x, y), EdgeState::Loop),
{
    proof {
        lemma_count4(s.grid(), cell_edge_list(x, y), EdgeState::Loop);
        s.lemma_inv();
    }
    let mut n: usize = 0;
    if s.h_edge(x, y) == EdgeState::Loop {
        n += 1;
    }
    if s.h_edge(x, y + 1) == EdgeState::Loop {
        n += 1;
    }
    if s.v_edge(x, y) == EdgeState::Loop {
        n += 1;
    }
    if s.v_edge(x + 1, y) == EdgeState::Loop {
        n += 1;
    }
    n
}

/// Number of loop edges at vertex (x, y).
fn vertex_loop_degree<L: Lines>(s: &L, x: usize, y: usize, w: usize, h: usize) -> (d: usize)
    requires
        s.inv(),
        w == s.grid().width,
        h == s.grid().height,
        x <= w,
        y <= h,
        w < usize::MAX,
        h < usize::MAX,
    ensures
        d == count_state(s.grid(), vertex_edge_list(x, y, w as nat, h as nat), EdgeState::Loop),
{
    loop_neighbors(s, x, y, w, h).len()
}

/// The vertices joined to vertex (x, y) by a loop edge: left, right, up, down.
fn loop_neighbors<L: Lines>(s: &L, x: usize, y: usize, w: usize, h: usize) -> (out: Vec<(usize, usize)>)
    requires
        s.inv(),
        w == s.grid().width,
        h == s.grid().height,
        x <= w,
        y <= h,
        w < usize::MAX,
        h < usize::MAX,
    ensures
        out@.len() == count_state(s.grid(), vertex_edge_list(x, y, w as nat, h as nat), EdgeState::Loop),
{
    let ghost g = s.grid();
    let ghost l0: Seq<EdgeId> = if x > 0 { seq![EdgeId::H((x - 1) as usize, y)] } else { Seq::empty() };
    let ghost l1: Seq<EdgeId> = if x < w { seq![EdgeId::H(x, y)] } else { Seq::empty() };
    let ghost l2: Seq<EdgeId> = if y > 0 { seq![EdgeId::V(x, (y - 1) as usize)] } else { Seq::empty() };
    let ghost l3: Seq<EdgeId> = if y < h { seq![EdgeId::V(x, y)] } else { Seq::empty() };
    let mut out: Vec<(usize, usize)> = Vec::with_capacity(2);
    if x > 0 && s.h_edge(x - 1, y) == EdgeState::Loop {
        out.push((x - 1, y));
    }
    proof {
        lemma_count_append(g, Seq::empty(), l0, EdgeState::Loop);
        reveal_with_fuel(count_state, 2);
        assert(Seq::<EdgeId>::empty() + l0 =~= l0);
        assert(out@.len() == count_state(g, l0, EdgeState::Loop));
    }
    if x < w && s.h_edge(x, y) == EdgeState::Loop {
        out.push((x + 1, y));
    }
    proof {
        lemma_count_append(g, l0, l1, EdgeState::Loop);
        reveal_with_fuel(count_state, 2);
        assert(out@.len() == count_state(g, l0 + l1, EdgeState::Loop));
    }
    if y > 0 && s.v_edge(x, y - 1) == EdgeState::Loop {
        out.push((x, y - 1));
    }
    proof {
        lemma_count_append(g, l0 + l1, l2, EdgeState::Loop);
        reveal_with_fuel(count_state, 2);
        assert(out@.len() == count_state(g, l0 + l1 + l2, EdgeState::Loop));
    }
    if y < h && s.v_edge(x, y) == EdgeState::Loop {
        out.push((x, y + 1));
    }
    proof {
        lemma_count_append(g, l0 + l1 + l2, l3, EdgeState::Loop);
        reveal_with_fuel(count_state, 2);
        assert(vertex_edge_list(x, y, w as nat, h as nat) == l0 + l1 + l2 + l3);
    }
    out
}

/// Counting over a concatenation adds the counts.
pub proof fn lemma_count_append(g: Grid, a: Seq<EdgeId>, b: Seq<EdgeId>, s: EdgeState)
    ensures
        count_state(g, a + b, s) == count_state(g, a, s) + count_state(g, b, s),
    decreases b.len(),
{
    if b.len() == 0 {
        assert(a + b =~= a);
    } else {
        lemma_count_append(g, a, b.drop_last(), s);
        assert((a + b).drop_last() =~= a + b.drop_last());
    }
}

} // verus!
