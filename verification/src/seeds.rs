//! Why the seed patterns of the propagator rule out no solution: each deduction
//! they make holds in every solution of the puzzle, except the shared edge of
//! two adjacent 3-clues, which a solution leaves out only when it is the
//! rectangle round that pair and nothing else.
use vstd::prelude::*;

use crate::cell::Cell;
use crate::check::{cell_edge_list, count_state, degrees_valid, is_solution, lemma_count4, lemma_count_append, vertex_edge_list};
use crate::closing::lemma_loops_inside;
use crate::edge::{EdgeId, EdgeState};
use crate::lines::{edge_in_bounds, Grid};
use crate::propagate::{
    agrees,
    corner,
    fits,
    keeps_solutions,
    threes_across,
    threes_diagonal,
    threes_down,
};
use crate::puzzle::PuzzleView;

verus! {

/// The one deduction of the seed patterns that a solution can break: between two
/// adjacent 3-clues the shared edge is drawn. A solution without it is the
/// rectangle round the pair and nothing else (see [`lemma_across_lone_pair`]
/// and [`lemma_down_lone_pair`]).
pub open spec fn follows_seed_patterns(p: PuzzleView, s: Grid) -> bool {
    &&& forall|x: usize, y: usize| #[trigger] threes_across(p, x, y) ==> s.state(EdgeId::V((x + 1) as usize, y)) == EdgeState::Loop
    &&& forall|x: usize, y: usize| #[trigger] threes_down(p, x, y) ==> s.state(EdgeId::H(x, (y + 1) as usize)) == EdgeState::Loop
}

/// Every solution of `p` that follows the seed patterns and agrees with `g0`
/// also agrees with `g1`.
pub open spec fn keeps_patterned(p: PuzzleView, g0: Grid, g1: Grid) -> bool {
    forall|s: Grid| #[trigger] is_solution(p, s) && follows_seed_patterns(p, s) && agrees(g0, s) ==> agrees(g1, s)
}

/// Every solution of `p` draws `e` exactly when `st` is `Loop`.
pub open spec fn solutions_force(p: PuzzleView, e: EdgeId, st: EdgeState) -> bool {
    forall|s: Grid| #[trigger] is_solution(p, s) && fits(p, s) ==> (s.state(e) == EdgeState::Loop <==> st == EdgeState::Loop)
}

/// Every solution of `p` that follows the seed patterns draws `e` exactly when
/// `st` is `Loop`.
pub open spec fn patterns_force(p: PuzzleView, e: EdgeId, st: EdgeState) -> bool {
    forall|s: Grid| #[trigger] is_solution(p, s) && fits(p, s) && follows_seed_patterns(p, s) ==> (s.state(e)
        == EdgeState::Loop <==> st == EdgeState::Loop)
}

/// `g2` is `g` with `e` set to `st` if it was undecided.
pub open spec fn set_if_unset(g2: Grid, g: Grid, e: EdgeId, st: EdgeState) -> bool {
    ||| g.state(e) == EdgeState::Unset && g2 == g.with(e, st)
    ||| g.state(e) != EdgeState::Unset && g2 == g
}

// ---------------------------------------------------------------------------
// Composing steps
// ---------------------------------------------------------------------------

/// Keeping every solution keeps the patterned ones.
pub proof fn lemma_keeps_patterned(p: PuzzleView, g0: Grid, g1: Grid)
    requires
        keeps_solutions(p, g0, g1),
    ensures
        keeps_patterned(p, g0, g1),
{
    assert forall|s: Grid| #[trigger] is_solution(p, s) && follows_seed_patterns(p, s) && agrees(g0, s) implies agrees(g1, s) by {
        assert(is_solution(p, s) && agrees(g0, s));
    }
}

/// Keeping the patterned solutions composes.
pub proof fn lemma_patterned_trans(p: PuzzleView, g0: Grid, g1: Grid, g2: Grid)
    requires
        keeps_patterned(p, g0, g1),
        keeps_patterned(p, g1, g2),
    ensures
        keeps_patterned(p, g0, g2),
{
    assert forall|s: Grid| #[trigger] is_solution(p, s) && follows_seed_patterns(p, s) && agrees(g0, s) implies agrees(g2, s) by {
        assert(agrees(g1, s));
    }
}

/// Setting an edge that every solution forces, when it is undecided, keeps the
/// solutions.
pub proof fn lemma_solution_step(p: PuzzleView, g0: Grid, g: Grid, g2: Grid, e: EdgeId, st: EdgeState)
    requires
        keeps_solutions(p, g0, g),
        fits(p, g),
        g.has(e),
        st != EdgeState::Unset,
        set_if_unset(g2, g, e, st),
        solutions_force(p, e, st),
    ensures
        keeps_solutions(p, g0, g2),
{
    assert forall|s: Grid| #[trigger] is_solution(p, s) && agrees(g0, s) implies agrees(g2, s) by {
        assert(agrees(g, s));
        assert(is_solution(p, s) && fits(p, s));
        assert forall|f: EdgeId| #[trigger] g2.has(f) implies (g2.state(f) == EdgeState::Loop ==> s.state(f)
            == EdgeState::Loop) && (g2.state(f) == EdgeState::Excluded ==> s.state(f) != EdgeState::Loop) by {
            assert(g.has(f));
        }
    }
}

/// Setting an edge that every solution, or every patterned solution, forces,
/// when it is undecided, keeps the patterned solutions.
pub proof fn lemma_pattern_step(p: PuzzleView, g0: Grid, g: Grid, g2: Grid, e: EdgeId, st: EdgeState)
    requires
        keeps_patterned(p, g0, g),
        fits(p, g),
        g.has(e),
        st != EdgeState::Unset,
        set_if_unset(g2, g, e, st),
        solutions_force(p, e, st) || patterns_force(p, e, st),
    ensures
        keeps_patterned(p, g0, g2),
{
    assert forall|s: Grid| #[trigger] is_solution(p, s) && follows_seed_patterns(p, s) && agrees(g0, s) implies agrees(g2, s) by {
        assert(agrees(g, s));
        assert(is_solution(p, s) && fits(p, s) && follows_seed_patterns(p, s));
        assert forall|f: EdgeId| #[trigger] g2.has(f) implies (g2.state(f) == EdgeState::Loop ==> s.state(f)
            == EdgeState::Loop) && (g2.state(f) == EdgeState::Excluded ==> s.state(f) != EdgeState::Loop) by {
            assert(g.has(f));
        }
    }
}

// ---------------------------------------------------------------------------
// Counting around a vertex
// ---------------------------------------------------------------------------

/// One listed edge counts when it is in state `st`.
proof fn lemma_count_one(g: Grid, e: EdgeId, st: EdgeState)
    ensures
        count_state(g, seq![e], st) == if g.state(e) == st { 1nat } else { 0nat },
{
    reveal_with_fuel(count_state, 2);
    assert(seq![e].drop_last() =~= Seq::<EdgeId>::empty());
}

/// The edges at a vertex in state `st`, one term per direction.
pub proof fn lemma_vertex_count(g: Grid, x: usize, y: usize, st: EdgeState)
    ensures
        count_state(g, vertex_edge_list(x, y, g.width, g.height), st) == (if x > 0 && g.state(
            EdgeId::H((x - 1) as usize, y),
        ) == st { 1nat } else { 0nat }) + (if x < g.width && g.state(EdgeId::H(x, y)) == st { 1nat } else { 0nat })
            + (if y > 0 && g.state(EdgeId::V(x, (y - 1) as usize)) == st { 1nat } else { 0nat }) + (if y < g.height
            && g.state(EdgeId::V(x, y)) == st { 1nat } else { 0nat }),
{
    let a = if x > 0 { seq![EdgeId::H((x - 1) as usize, y)] } else { Seq::<EdgeId>::empty() };
    let b = if x < g.width { seq![EdgeId::H(x, y)] } else { Seq::<EdgeId>::empty() };
    let c = if y > 0 { seq![EdgeId::V(x, (y - 1) as usize)] } else { Seq::<EdgeId>::empty() };
    let d = if y < g.height { seq![EdgeId::V(x, y)] } else { Seq::<EdgeId>::empty() };
    assert(vertex_edge_list(x, y, g.width, g.height) == a + b + c + d);
    lemma_count_append(g, a + b + c, d, st);
    lemma_count_append(g, a + b, c, st);
    lemma_count_append(g, a, b, st);
    lemma_count_one(g, EdgeId::H((x - 1) as usize, y), st);
    lemma_count_one(g, EdgeId::H(x, y), st);
    lemma_count_one(g, EdgeId::V(x, (y - 1) as usize), st);
    lemma_count_one(g, EdgeId::V(x, y), st);
}

/// A vertex of a solution has zero or two loop edges.
proof fn lemma_degree(p: PuzzleView, s: Grid, x: usize, y: usize)
    requires
        is_solution(p, s),
        x <= s.width,
        y <= s.height,
    ensures
        ({
            let d = count_state(s, vertex_edge_list(x, y, s.width, s.height), EdgeState::Loop);
            d == 0 || d == 2
        }),
{
}

/// The clue of a cell of a solution counts its loop edges.
proof fn lemma_clue_count(p: PuzzleView, s: Grid, x: usize, y: usize, n: u8)
    requires
        is_solution(p, s),
        x < p.width,
        y < p.height,
        p.is_clue(x as int, y as int, n),
    ensures
        count_state(s, cell_edge_list(x, y), EdgeState::Loop) == n,
{
    assert(match p.cell(x as int, y as int) {
        Cell::Clue(m) => count_state(s, cell_edge_list(x, y), EdgeState::Loop) == m,
        Cell::Empty => true,
    });
}

// ---------------------------------------------------------------------------
// The patterns
// ---------------------------------------------------------------------------

/// A 0-clue has no loop edge in any solution.
pub proof fn lemma_zero_forces(p: PuzzleView, x: usize, y: usize, i: int)
    requires
        x < p.width,
        y < p.height,
        p.is_clue(x as int, y as int, 0),
        0 <= i < 4,
    ensures
        solutions_force(p, cell_edge_list(x, y)[i], EdgeState::Excluded),
{
    assert forall|s: Grid| #[trigger] is_solution(p, s) && fits(p, s) implies (s.state(cell_edge_list(x, y)[i])
        == EdgeState::Loop <==> EdgeState::Excluded == EdgeState::Loop) by {
        lemma_clue_count(p, s, x, y, 0);
        lemma_count4(s, cell_edge_list(x, y), EdgeState::Loop);
    }
}

/// The vertex at corner `k` of a `w` x `h` grid, in the order of [`corner`].
pub open spec fn corner_vertex(w: usize, h: usize, k: int) -> (usize, usize) {
    if k == 0 {
        (0, 0)
    } else if k == 1 {
        (w, 0)
    } else if k == 2 {
        (0, h)
    } else {
        (w, h)
    }
}

/// A 1-clue in a corner cell has neither corner edge in any solution, and a
/// 3-clue there has both: the corner vertex has only those two edges, so they
/// are drawn together or not at all.
pub proof fn lemma_corner_forces(p: PuzzleView, w: usize, h: usize, k: int)
    requires
        p.width == w,
        p.height == h,
        w > 0,
        h > 0,
        0 <= k < 4,
    ensures
        ({
            let (cx, cy, e1, e2) = corner(w, h, k);
            &&& p.is_clue(cx as int, cy as int, 1) ==> solutions_force(p, e1, EdgeState::Excluded) && solutions_force(
                p,
                e2,
                EdgeState::Excluded,
            )
            &&& p.is_clue(cx as int, cy as int, 3) ==> solutions_force(p, e1, EdgeState::Loop) && solutions_force(
                p,
                e2,
                EdgeState::Loop,
            )
        }),
{
    let (cx, cy, e1, e2) = corner(w, h, k);
    let (vx, vy) = corner_vertex(w, h, k);
    assert forall|s: Grid| #[trigger] is_solution(p, s) && fits(p, s) implies {
        &&& p.is_clue(cx as int, cy as int, 1) ==> !(s.state(e1) == EdgeState::Loop) && !(s.state(e2) == EdgeState::Loop)
        &&& p.is_clue(cx as int, cy as int, 3) ==> s.state(e1) == EdgeState::Loop && s.state(e2) == EdgeState::Loop
    } by {
        lemma_count4(s, cell_edge_list(cx, cy), EdgeState::Loop);
        lemma_vertex_count(s, vx, vy, EdgeState::Loop);
        lemma_degree(p, s, vx, vy);
        if p.is_clue(cx as int, cy as int, 1) {
            lemma_clue_count(p, s, cx, cy, 1);
        }
        if p.is_clue(cx as int, cy as int, 3) {
            lemma_clue_count(p, s, cx, cy, 3);
        }
    }
}

/// The two edges at the far corner of the cell (x, y) from its diagonal
/// neighbour (x + dx, y + dy).
pub open spec fn far_corner(x: usize, y: usize, dx: int, dy: int) -> (EdgeId, EdgeId) {
    (
        if dy == 1 { EdgeId::H(x, y) } else { EdgeId::H(x, (y + 1) as usize) },
        if dx == 1 { EdgeId::V(x, y) } else { EdgeId::V((x + 1) as usize, y) },
    )
}

/// Two diagonally adjacent 3-clues draw both far-corner edges of each in every
/// solution: without one of them the first cell draws both edges at the shared
/// vertex, which leaves the second cell two edges at most.
pub proof fn lemma_diagonal_forces(p: PuzzleView, x: usize, y: usize, dx: int, dy: int)
    requires
        threes_diagonal(p, x, y, dx, dy),
        p.width <= usize::MAX,
        p.height <= usize::MAX,
        dx == 1 || dx == -1,
        dy == 1 || dy == -1,
    ensures
        solutions_force(p, far_corner(x, y, dx, dy).0, EdgeState::Loop),
        solutions_force(p, far_corner(x, y, dx, dy).1, EdgeState::Loop),
{
    let (e1, e2) = far_corner(x, y, dx, dy);
    let bx = (x + dx) as usize;
    let by = (y + dy) as usize;
    let vx = if dx == 1 { (x + 1) as usize } else { x };
    let vy = if dy == 1 { (y + 1) as usize } else { y };
    assert forall|s: Grid| #[trigger] is_solution(p, s) && fits(p, s) implies s.state(e1) == EdgeState::Loop
        && s.state(e2) == EdgeState::Loop by {
        lemma_clue_count(p, s, x, y, 3);
        lemma_clue_count(p, s, bx, by, 3);
        lemma_count4(s, cell_edge_list(x, y), EdgeState::Loop);
        lemma_count4(s, cell_edge_list(bx, by), EdgeState::Loop);
        lemma_vertex_count(s, vx, vy, EdgeState::Loop);
        lemma_degree(p, s, vx, vy);
    }
}

/// Two 3-clues side by side, at (x, y) and (x + 1, y), draw both outer sides
/// and leave out the extensions of the shared side, in every solution; the
/// shared side itself is drawn in every solution that follows the seed
/// patterns.
pub proof fn lemma_across_forces(p: PuzzleView, x: usize, y: usize)
    requires
        threes_across(p, x, y),
        p.width <= usize::MAX,
        p.height <= usize::MAX,
    ensures
        solutions_force(p, EdgeId::V(x, y), EdgeState::Loop),
        solutions_force(p, EdgeId::V((x + 2) as usize, y), EdgeState::Loop),
        y > 0 ==> solutions_force(p, EdgeId::V((x + 1) as usize, (y - 1) as usize), EdgeState::Excluded),
        y + 1 < p.height ==> solutions_force(p, EdgeId::V((x + 1) as usize, (y + 1) as usize), EdgeState::Excluded),
        patterns_force(p, EdgeId::V((x + 1) as usize, y), EdgeState::Loop),
{
    let bx = (x + 1) as usize;
    assert forall|s: Grid| #[trigger] is_solution(p, s) && fits(p, s) implies {
        &&& s.state(EdgeId::V(x, y)) == EdgeState::Loop
        &&& s.state(EdgeId::V((x + 2) as usize, y)) == EdgeState::Loop
        &&& y > 0 ==> s.state(EdgeId::V(bx, (y - 1) as usize)) != EdgeState::Loop
        &&& y + 1 < p.height ==> s.state(EdgeId::V(bx, (y + 1) as usize)) != EdgeState::Loop
    } by {
        lemma_clue_count(p, s, x, y, 3);
        lemma_clue_count(p, s, bx, y, 3);
        lemma_count4(s, cell_edge_list(x, y), EdgeState::Loop);
        lemma_count4(s, cell_edge_list(bx, y), EdgeState::Loop);
        lemma_vertex_count(s, bx, y, EdgeState::Loop);
        lemma_degree(p, s, bx, y);
        lemma_vertex_count(s, bx, (y + 1) as usize, EdgeState::Loop);
        lemma_degree(p, s, bx, (y + 1) as usize);
    }
}

/// Two 3-clues one above the other, at (x, y) and (x, y + 1): as
/// [`lemma_across_forces`], turned a quarter.
pub proof fn lemma_down_forces(p: PuzzleView, x: usize, y: usize)
    requires
        threes_down(p, x, y),
        p.width <= usize::MAX,
        p.height <= usize::MAX,
    ensures
        solutions_force(p, EdgeId::H(x, y), EdgeState::Loop),
        solutions_force(p, EdgeId::H(x, (y + 2) as usize), EdgeState::Loop),
        x > 0 ==> solutions_force(p, EdgeId::H((x - 1) as usize, (y + 1) as usize), EdgeState::Excluded),
        x + 1 < p.width ==> solutions_force(p, EdgeId::H((x + 1) as usize, (y + 1) as usize), EdgeState::Excluded),
        patterns_force(p, EdgeId::H(x, (y + 1) as usize), EdgeState::Loop),
{
    let by = (y + 1) as usize;
    assert forall|s: Grid| #[trigger] is_solution(p, s) && fits(p, s) implies {
        &&& s.state(EdgeId::H(x, y)) == EdgeState::Loop
        &&& s.state(EdgeId::H(x, (y + 2) as usize)) == EdgeState::Loop
        &&& x > 0 ==> s.state(EdgeId::H((x - 1) as usize, by)) != EdgeState::Loop
        &&& x + 1 < p.width ==> s.state(EdgeId::H((x + 1) as usize, by)) != EdgeState::Loop
    } by {
        lemma_clue_count(p, s, x, y, 3);
        lemma_clue_count(p, s, x, by, 3);
        lemma_count4(s, cell_edge_list(x, y), EdgeState::Loop);
        lemma_count4(s, cell_edge_list(x, by), EdgeState::Loop);
        lemma_vertex_count(s, x, by, EdgeState::Loop);
        lemma_degree(p, s, x, by);
        lemma_vertex_count(s, (x + 1) as usize, by, EdgeState::Loop);
        lemma_degree(p, s, (x + 1) as usize, by);
    }
}

/// A solution that leaves out the shared side of two 3-clues side by side, at
/// (x, y) and (x + 1, y), draws the six outer sides of the pair.
pub proof fn lemma_across_without_shared(p: PuzzleView, s: Grid, x: usize, y: usize)
    requires
        threes_across(p, x, y),
        p.width <= usize::MAX,
        p.height <= usize::MAX,
        is_solution(p, s),
        s.state(EdgeId::V((x + 1) as usize, y)) != EdgeState::Loop,
    ensures
        s.state(EdgeId::H(x, y)) == EdgeState::Loop,
        s.state(EdgeId::H(x, (y + 1) as usize)) == EdgeState::Loop,
        s.state(EdgeId::H((x + 1) as usize, y)) == EdgeState::Loop,
        s.state(EdgeId::H((x + 1) as usize, (y + 1) as usize)) == EdgeState::Loop,
        s.state(EdgeId::V(x, y)) == EdgeState::Loop,
        s.state(EdgeId::V((x + 2) as usize, y)) == EdgeState::Loop,
{
    lemma_clue_count(p, s, x, y, 3);
    lemma_clue_count(p, s, (x + 1) as usize, y, 3);
    lemma_count4(s, cell_edge_list(x, y), EdgeState::Loop);
    lemma_count4(s, cell_edge_list((x + 1) as usize, y), EdgeState::Loop);
}

/// A solution that leaves out the shared side of two 3-clues one above the
/// other, at (x, y) and (x, y + 1), draws the six outer sides of the pair.
pub proof fn lemma_down_without_shared(p: PuzzleView, s: Grid, x: usize, y: usize)
    requires
        threes_down(p, x, y),
        p.width <= usize::MAX,
        p.height <= usize::MAX,
        is_solution(p, s),
        s.state(EdgeId::H(x, (y + 1) as usize)) != EdgeState::Loop,
    ensures
        s.state(EdgeId::V(x, y)) == EdgeState::Loop,
        s.state(EdgeId::V((x + 1) as usize, y)) == EdgeState::Loop,
        s.state(EdgeId::V(x, (y + 1) as usize)) == EdgeState::Loop,
        s.state(EdgeId::V((x + 1) as usize, (y + 1) as usize)) == EdgeState::Loop,
        s.state(EdgeId::H(x, y)) == EdgeState::Loop,
        s.state(EdgeId::H(x, (y + 2) as usize)) == EdgeState::Loop,
{
    lemma_clue_count(p, s, x, y, 3);
    lemma_clue_count(p, s, x, (y + 1) as usize, 3);
    lemma_count4(s, cell_edge_list(x, y), EdgeState::Loop);
    lemma_count4(s, cell_edge_list(x, (y + 1) as usize), EdgeState::Loop);
}

/// The six outer sides of the cells (x, y) and (x + 1, y).
pub open spec fn across_rim(x: usize, y: usize, e: EdgeId) -> bool {
    ||| e == EdgeId::H(x, y)
    ||| e == EdgeId::H((x + 1) as usize, y)
    ||| e == EdgeId::H(x, (y + 1) as usize)
    ||| e == EdgeId::H((x + 1) as usize, (y + 1) as usize)
    ||| e == EdgeId::V(x, y)
    ||| e == EdgeId::V((x + 2) as usize, y)
}

/// The six outer sides of the cells (x, y) and (x, y + 1).
pub open spec fn down_rim(x: usize, y: usize, e: EdgeId) -> bool {
    ||| e == EdgeId::V(x, y)
    ||| e == EdgeId::V((x + 1) as usize, y)
    ||| e == EdgeId::V(x, (y + 1) as usize)
    ||| e == EdgeId::V((x + 1) as usize, (y + 1) as usize)
    ||| e == EdgeId::H(x, y)
    ||| e == EdgeId::H(x, (y + 2) as usize)
}

/// The `w` x `h` grid that draws exactly the edges `drawn` marks.
pub open spec fn drawing(w: nat, h: nat, drawn: spec_fn(EdgeId) -> bool) -> Grid {
    Grid {
        width: w,
        height: h,
        edges: Map::new(
            |e: EdgeId| edge_in_bounds(w, h, e),
            |e: EdgeId| if drawn(e) { EdgeState::Loop } else { EdgeState::Excluded },
        ),
    }
}

/// A solution that draws every edge of a nonempty drawing whose vertices all
/// have degree 0 or 2 draws nothing else.
proof fn lemma_only_drawing(p: PuzzleView, s: Grid, d: Grid, e0: EdgeId)
    requires
        is_solution(p, s),
        s.width == d.width,
        s.height == d.height,
        d.width <= usize::MAX,
        d.height <= usize::MAX,
        degrees_valid(d),
        d.is_loop(e0),
        forall|f: EdgeId| #[trigger] d.is_loop(f) ==> s.state(f) == EdgeState::Loop,
    ensures
        forall|f: EdgeId| #[trigger] s.is_loop(f) <==> d.is_loop(f),
{
    assert forall|f: EdgeId| #[trigger] d.is_loop(f) implies s.is_loop(f) by {}
    lemma_loops_inside(d, s);
}

/// A solution that leaves out the shared side of two 3-clues side by side, at
/// (x, y) and (x + 1, y), is the rectangle round that pair and nothing else.
pub proof fn lemma_across_lone_pair(p: PuzzleView, s: Grid, x: usize, y: usize)
    requires
        threes_across(p, x, y),
        p.width <= usize::MAX,
        p.height <= usize::MAX,
        is_solution(p, s),
        fits(p, s),
        s.state(EdgeId::V((x + 1) as usize, y)) != EdgeState::Loop,
    ensures
        forall|f: EdgeId| #[trigger] s.is_loop(f) <==> s.has(f) && across_rim(x, y, f),
{
    let d = drawing(p.width, p.height, |e: EdgeId| across_rim(x, y, e));
    lemma_across_without_shared(p, s, x, y);
    assert forall|vx: usize, vy: usize| vx <= d.width && vy <= d.height implies {
        let c = #[trigger] count_state(d, vertex_edge_list(vx, vy, d.width, d.height), EdgeState::Loop);
        c == 0 || c == 2
    } by {
        lemma_vertex_count(d, vx, vy, EdgeState::Loop);
    }
    assert(d.is_loop(EdgeId::V(x, y)));
    lemma_only_drawing(p, s, d, EdgeId::V(x, y));
}

/// A solution that leaves out the shared side of two 3-clues one above the
/// other, at (x, y) and (x, y + 1), is the rectangle round that pair and
/// nothing else.
pub proof fn lemma_down_lone_pair(p: PuzzleView, s: Grid, x: usize, y: usize)
    requires
        threes_down(p, x, y),
        p.width <= usize::MAX,
        p.height <= usize::MAX,
        is_solution(p, s),
        fits(p, s),
        s.state(EdgeId::H(x, (y + 1) as usize)) != EdgeState::Loop,
    ensures
        forall|f: EdgeId| #[trigger] s.is_loop(f) <==> s.has(f) && down_rim(x, y, f),
{
    let d = drawing(p.width, p.height, |e: EdgeId| down_rim(x, y, e));
    lemma_down_without_shared(p, s, x, y);
    assert forall|vx: usize, vy: usize| vx <= d.width && vy <= d.height implies {
        let c = #[trigger] count_state(d, vertex_edge_list(vx, vy, d.width, d.height), EdgeState::Loop);
        c == 0 || c == 2
    } by {
        lemma_vertex_count(d, vx, vy, EdgeState::Loop);
    }
    assert(d.is_loop(EdgeId::H(x, y)));
    lemma_only_drawing(p, s, d, EdgeId::H(x, y));
}

} // verus!
