//! Constraint propagation: local forcing rules, seed patterns, lookahead, and
//! the play-mode auto-exclude pass.
use vstd::prelude::*;

use crate::cell::Cell;
use crate::check::{cell_edge_list, count_state, is_solution, is_solved, lemma_count4, lemma_count_append, vertex_edge_list};
use crate::edge::{EdgeId, EdgeState};
use crate::lines::{edge_in_bounds, ends, Grid, Lines, PlayLines};
use crate::puzzle::{Puzzle, PuzzleView};
use crate::seeds::{
    follows_seed_patterns,
    keeps_patterned,
    lemma_across_forces,
    lemma_corner_forces,
    lemma_diagonal_forces,
    lemma_down_forces,
    lemma_keeps_patterned,
    lemma_pattern_step,
    lemma_patterned_trans,
    lemma_solution_step,
    lemma_vertex_count,
    lemma_zero_forces,
    solutions_force,
};
use crate::solver_lines::SolverLines;

verus! {

// ---------------------------------------------------------------------------
// Abstract statements of the rules
// ---------------------------------------------------------------------------

/// Every clue of the puzzle is at most 4.
pub open spec fn clues_at_most_four(p: PuzzleView) -> bool {
    forall|i: int| 0 <= i < p.cells.len() ==> (#[trigger] p.cells[i] matches Cell::Clue(n) ==> n <= 4)
}

/// `new` is `old` with every undecided edge among `es` set to `s`.
pub open spec fn forced_by(new: Grid, old: Grid, es: Seq<EdgeId>, s: EdgeState) -> bool {
    &&& new.width == old.width
    &&& new.height == old.height
    &&& forall|e: EdgeId|
        #[trigger] old.has(e) ==> new.state(e) == if es.contains(e) && old.state(e) == EdgeState::Unset {
            s
        } else {
            old.state(e)
        }
}

/// Some edge among `es` is undecided.
pub open spec fn any_unset(g: Grid, es: Seq<EdgeId>) -> bool {
    exists|i: int| 0 <= i < es.len() && g.state(#[trigger] es[i]) == EdgeState::Unset
}

/// All listed edges lie on the grid.
pub open spec fn all_in(g: Grid, es: Seq<EdgeId>) -> bool {
    forall|i: int| 0 <= i < es.len() ==> g.has(#[trigger] es[i])
}

pub open spec fn loops_at_cell(g: Grid, x: usize, y: usize) -> nat {
    count_state(g, cell_edge_list(x, y), EdgeState::Loop)
}

pub open spec fn excluded_at_cell(g: Grid, x: usize, y: usize) -> nat {
    count_state(g, cell_edge_list(x, y), EdgeState::Excluded)
}

pub open spec fn unset_at_cell(g: Grid, x: usize, y: usize) -> nat {
    count_state(g, cell_edge_list(x, y), EdgeState::Unset)
}

pub open spec fn loops_at_vertex(g: Grid, x: usize, y: usize) -> nat {
    count_state(g, vertex_edge_list(x, y, g.width, g.height), EdgeState::Loop)
}

pub open spec fn unset_at_vertex(g: Grid, x: usize, y: usize) -> nat {
    count_state(g, vertex_edge_list(x, y, g.width, g.height), EdgeState::Unset)
}

/// A clue cell whose loop count is already met, or whose remaining edges must all
/// be loop (unless `excludes_only`), still has undecided edges: the cell-clue rule
/// would fire there.
pub open spec fn cell_rule_fires(p: PuzzleView, g: Grid, x: usize, y: usize, excludes_only: bool) -> bool {
    match p.cell(x as int, y as int) {
        Cell::Clue(n) => unset_at_cell(g, x, y) > 0 && (loops_at_cell(g, x, y) == n || (!excludes_only
            && excluded_at_cell(g, x, y) + n == 4)),
        Cell::Empty => false,
    }
}

/// A vertex with undecided edges where the degree rule would fire: two loop edges
/// already, one loop edge and one way on (unless `excludes_only`), or no loop edge
/// and a single way on.
pub open spec fn vertex_rule_fires(g: Grid, x: usize, y: usize, excludes_only: bool) -> bool {
    let loops = loops_at_vertex(g, x, y);
    let unset = unset_at_vertex(g, x, y);
    unset > 0 && (loops >= 2 || (!excludes_only && loops == 1 && unset == 1) || (loops == 0 && unset
        == 1))
}

/// Every decided edge of `g` agrees with the full grid `s`: loop edges of `g`
/// are loop in `s`, excluded edges of `g` are not.
pub open spec fn agrees(g: Grid, s: Grid) -> bool {
    &&& g.width == s.width
    &&& g.height == s.height
    &&& forall|e: EdgeId|
        #[trigger] g.has(e) ==> (g.state(e) == EdgeState::Loop ==> s.state(e) == EdgeState::Loop) && (g.state(e)
            == EdgeState::Excluded ==> s.state(e) != EdgeState::Loop)
}

/// Every solution of `p` that agrees with `g0` also agrees with `g1`: going from
/// `g0` to `g1` rules out no solution.
pub open spec fn keeps_solutions(p: PuzzleView, g0: Grid, g1: Grid) -> bool {
    forall|s: Grid| #[trigger] is_solution(p, s) && agrees(g0, s) ==> agrees(g1, s)
}

/// No local rule fires anywhere on the grid.
pub open spec fn local_fixpoint(p: PuzzleView, g: Grid, excludes_only: bool) -> bool {
    &&& forall|x: usize, y: usize|
        x < g.width && y < g.height ==> !#[trigger] cell_rule_fires(p, g, x, y, excludes_only)
    &&& forall|x: usize, y: usize|
        x <= g.width && y <= g.height ==> !#[trigger] vertex_rule_fires(g, x, y, excludes_only)
}

/// Every undecided edge whose endpoints are already joined by loop edges would,
/// drawn as loop, complete a solution.
pub open spec fn no_premature_fixpoint(p: PuzzleView, g: Grid) -> bool {
    forall|e: EdgeId|
        #[trigger] g.has(e) && g.state(e) == EdgeState::Unset && g.loop_connected(
            ends(g.width, e).0,
            ends(g.width, e).1,
        ) ==> is_solution(p, g.with(e, EdgeState::Loop))
}

// ---------------------------------------------------------------------------
// Edge lists and counting
// ---------------------------------------------------------------------------

fn cell_edges(x: usize, y: usize) -> (r: Vec<EdgeId>)
    requires
        x < usize::MAX,
        y < usize::MAX,
    ensures
        r@ == cell_edge_list(x, y),
{
    let r = vec![EdgeId::H(x, y), EdgeId::H(x, y + 1), EdgeId::V(x, y), EdgeId::V(x + 1, y)];
    proof {
        assert(r@ =~= cell_edge_list(x, y));
    }
    r
}

fn vertex_edges(x: usize, y: usize, w: usize, h: usize) -> (r: Vec<EdgeId>)
    ensures
        r@ == vertex_edge_list(x, y, w as nat, h as nat),
{
    let mut r: Vec<EdgeId> = Vec::with_capacity(4);
    if x > 0 {
        r.push(EdgeId::H(x - 1, y));
    }
    if x < w {
        r.push(EdgeId::H(x, y));
    }
    if y > 0 {
        r.push(EdgeId::V(x, y - 1));
    }
    if y < h {
        r.push(EdgeId::V(x, y));
    }
    proof {
        assert(r@ =~= vertex_edge_list(x, y, w as nat, h as nat));
    }
    r
}

pub proof fn lemma_cell_edges_in(g: Grid, x: usize, y: usize)
    requires
        x < g.width,
        y < g.height,
    ensures
        all_in(g, cell_edge_list(x, y)),
{
}

pub proof fn lemma_vertex_edges_in(g: Grid, x: usize, y: usize)
    requires
        x <= g.width,
        y <= g.height,
    ensures
        all_in(g, vertex_edge_list(x, y, g.width, g.height)),
        vertex_edge_list(x, y, g.width, g.height).len() <= 4,
{
    let l = vertex_edge_list(x, y, g.width, g.height);
    assert forall|i: int| 0 <= i < l.len() implies g.has(#[trigger] l[i]) by {}
}

/// Counts of loop, excluded and unset edges among `es`; they add up to the length.
proof fn lemma_counts_total(g: Grid, es: Seq<EdgeId>)
    ensures
        count_state(g, es, EdgeState::Loop) + count_state(g, es, EdgeState::Excluded) + count_state(
            g,
            es,
            EdgeState::Unset,
        ) == es.len(),
        count_state(g, es, EdgeState::Unset) > 0 <==> any_unset(g, es),
    decreases es.len(),
{
    if es.len() > 0 {
        lemma_counts_total(g, es.drop_last());
        if any_unset(g, es) && g.state(es.last()) != EdgeState::Unset {
            let i = choose|i: int| 0 <= i < es.len() && g.state(#[trigger] es[i]) == EdgeState::Unset;
            assert(es.drop_last()[i] == es[i]);
        }
        if any_unset(g, es.drop_last()) {
            let i = choose|i: int| 0 <= i < es.drop_last().len() && g.state(#[trigger] es.drop_last()[i]) == EdgeState::Unset;
            assert(es[i] == es.drop_last()[i]);
        }
        if g.state(es.last()) == EdgeState::Unset {
            assert(es[es.len() - 1] == es.last());
        }
    }
}

fn count_states<L: Lines>(sol: &L, edges: &Vec<EdgeId>) -> (r: (u8, u8, u8))
    requires
        sol.inv(),
        all_in(sol.grid(), edges@),
        edges@.len() <= 4,
    ensures
        r.0 == count_state(sol.grid(), edges@, EdgeState::Loop),
        r.1 == count_state(sol.grid(), edges@, EdgeState::Excluded),
        r.2 == count_state(sol.grid(), edges@, EdgeState::Unset),
{
    let ghost g = sol.grid();
    let (mut loops, mut excluded, mut unset) = (0u8, 0u8, 0u8);
    let mut i: usize = 0;
    while i < edges.len()
        invariant
            sol.inv(),
            g == sol.grid(),
            all_in(g, edges@),
            edges@.len() <= 4,
            i <= edges@.len(),
            loops == count_state(g, edges@.take(i as int), EdgeState::Loop),
            excluded == count_state(g, edges@.take(i as int), EdgeState::Excluded),
            unset == count_state(g, edges@.take(i as int), EdgeState::Unset),
        decreases edges@.len() - i,
    {
        proof {
            assert(edges@.take(i + 1).drop_last() =~= edges@.take(i as int));
            lemma_counts_total(g, edges@.take(i as int));
        }
        match sol.edge(edges[i]) {
            EdgeState::Loop => loops += 1,
            EdgeState::Excluded => excluded += 1,
            EdgeState::Unset => unset += 1,
        }
        i = i + 1;
    }
    proof {
        assert(edges@.take(i as int) =~= edges@);
    }
    (loops, excluded, unset)
}

// ---------------------------------------------------------------------------
// Setting edges
// ---------------------------------------------------------------------------

/// The listed edges that forcing them would change, in list order: those
/// undecided in `g` and not listed earlier.
pub open spec fn newly_set(g: Grid, es: Seq<EdgeId>) -> Seq<EdgeId>
    decreases es.len(),
{
    if es.len() == 0 {
        Seq::empty()
    } else {
        newly_set(g, es.drop_last()) + if g.state(es.last()) == EdgeState::Unset && !es.drop_last().contains(es.last()) {
            seq![es.last()]
        } else {
            Seq::empty()
        }
    }
}

/// What a grid that keeps a log adds to it when `es` are changed.
pub open spec fn logged<L: Lines>(l: L, es: Seq<EdgeId>) -> Seq<EdgeId> {
    if l.records() {
        es
    } else {
        Seq::empty()
    }
}

/// A grid and its log after setting `e` to `s` if it is undecided.
pub open spec fn try_step(st: (Grid, Seq<EdgeId>), e: EdgeId, s: EdgeState) -> (Grid, Seq<EdgeId>) {
    if st.0.state(e) == EdgeState::Unset {
        (st.0.with(e, s), st.1.push(e))
    } else {
        st
    }
}

/// A grid and its log after setting `e1` and then `e2` to `s` where undecided.
pub open spec fn try_pair(st: (Grid, Seq<EdgeId>), e1: EdgeId, e2: EdgeId, s: EdgeState) -> (Grid, Seq<EdgeId>) {
    try_step(try_step(st, e1, s), e2, s)
}

/// Sets `e` to `state` if it is still undecided; reports whether it did.
fn try_set<L: Lines>(sol: &mut L, e: EdgeId, state: EdgeState) -> (r: bool)
    requires
        old(sol).inv(),
        old(sol).grid().has(e),
        state != EdgeState::Unset,
    ensures
        r == (old(sol).grid().state(e) == EdgeState::Unset),
        r ==> final(sol).inv() && final(sol).grid() == old(sol).grid().with(e, state)
            && final(sol).monotone_only() == old(sol).monotone_only() && final(sol).unset_count() + 1
            == old(sol).unset_count(),
        r ==> final(sol).records() == old(sol).records() && final(sol).log() == old(sol).log() + logged(*old(sol), seq![e]),
        old(sol).records() ==> (final(sol).grid(), final(sol).log()) == try_step((old(sol).grid(), old(sol).log()), e, state),
        !r ==> *final(sol) == *old(sol),
{
    if sol.edge(e) != EdgeState::Unset {
        return false;
    }
    sol.set_edge(e, state);
    proof {
        assert(old(sol).log() + seq![e] =~= old(sol).log().push(e));
        assert(old(sol).log() + logged(*old(sol), seq![e]) =~= if old(sol).records() {
            old(sol).log().push(e)
        } else {
            old(sol).log()
        });
    }
    true
}

/// Sets every undecided edge among `edges` to `state`; reports whether any was.
fn force_unset<L: Lines>(sol: &mut L, edges: &Vec<EdgeId>, state: EdgeState) -> (changed: bool)
    requires
        old(sol).inv(),
        all_in(old(sol).grid(), edges@),
        state != EdgeState::Unset,
    ensures
        final(sol).inv(),
        final(sol).monotone_only() == old(sol).monotone_only(),
        forced_by(final(sol).grid(), old(sol).grid(), edges@, state),
        final(sol).records() == old(sol).records(),
        final(sol).log() == old(sol).log() + logged(*old(sol), newly_set(old(sol).grid(), edges@)),
        changed == any_unset(old(sol).grid(), edges@),
        changed ==> final(sol).unset_count() < old(sol).unset_count(),
        !changed ==> *final(sol) == *old(sol),
{
    let ghost g0 = sol.grid();
    let ghost u0 = sol.unset_count();
    let mut changed = false;
    let mut i: usize = 0;
    while i < edges.len()
        invariant
            sol.inv(),
            sol.monotone_only() == old(sol).monotone_only(),
            g0 == old(sol).grid(),
            u0 == old(sol).unset_count(),
            all_in(g0, edges@),
            state != EdgeState::Unset,
            i <= edges@.len(),
            forced_by(sol.grid(), g0, edges@.take(i as int), state),
            sol.records() == old(sol).records(),
            sol.log() == old(sol).log() + logged(*old(sol), newly_set(g0, edges@.take(i as int))),
            changed == any_unset(g0, edges@.take(i as int)),
            changed ==> sol.unset_count() < u0,
            !changed ==> *sol == *old(sol),
        decreases edges@.len() - i,
    {
        let e = edges[i];
        let ghost before = sol.grid();
        proof {
            assert(g0.has(edges@[i as int]));
            // an edge earlier in the list keeps its forced state
            if edges@.take(i as int).contains(e) {
                let j = choose|j: int| 0 <= j < i && edges@.take(i as int)[j] == e;
            }
        }
        let ghost lb = sol.log();
        if try_set(sol, e, state) {
            changed = true;
        }
        proof {
            let t1 = edges@.take(i + 1);
            assert(t1 =~= edges@.take(i as int).push(e));
            assert(t1.drop_last() =~= edges@.take(i as int));
            assert(t1.last() == e);
            if edges@.take(i as int).contains(e) && g0.state(e) == EdgeState::Unset {
                assert(before.state(e) == state);
            }
            assert((old(sol).log() + logged(*old(sol), newly_set(g0, edges@.take(i as int)))) + logged(*old(sol), seq![e])
                =~= old(sol).log() + logged(*old(sol), newly_set(g0, edges@.take(i as int)) + seq![e]));
            assert(old(sol).log() + logged(*old(sol), newly_set(g0, edges@.take(i as int)) + Seq::<EdgeId>::empty())
                =~= old(sol).log() + logged(*old(sol), newly_set(g0, edges@.take(i as int))));
            assert forall|f: EdgeId| #[trigger] g0.has(f) implies sol.grid().state(f) == if t1.contains(f)
                && g0.state(f) == EdgeState::Unset {
                state
            } else {
                g0.state(f)
            } by {
                if f == e {
                    assert(t1[i as int] == e);
                } else if t1.contains(f) {
                    let j = choose|j: int| 0 <= j < t1.len() && t1[j] == f;
                    assert(edges@.take(i as int)[j] == f);
                } else {
                    assert forall|j: int| 0 <= j < i implies edges@.take(i as int)[j] != f by {
                        assert(t1[j] == edges@.take(i as int)[j]);
                    }
                }
            }
            if any_unset(g0, t1) && !any_unset(g0, edges@.take(i as int)) {
                let j = choose|j: int| 0 <= j < t1.len() && g0.state(#[trigger] t1[j]) == EdgeState::Unset;
                if j < i {
                    assert(edges@.take(i as int)[j] == t1[j]);
                }
                assert(g0.state(e) == EdgeState::Unset);
            }
            if any_unset(g0, edges@.take(i as int)) {
                let j = choose|j: int| 0 <= j < i && g0.state(#[trigger] edges@.take(i as int)[j]) == EdgeState::Unset;
                assert(t1[j] == edges@.take(i as int)[j]);
            }
            if g0.state(e) == EdgeState::Unset {
                assert(t1[i as int] == e);
            }
        }
        i = i + 1;
    }
    proof {
        assert(edges@.take(i as int) =~= edges@);
        assert(old(sol).log() + logged(*old(sol), Seq::<EdgeId>::empty()) =~= old(sol).log());
    }
    changed
}


// ---------------------------------------------------------------------------
// Local rules
// ---------------------------------------------------------------------------

/// The state the cell-clue rule gives to the undecided edges of a firing cell.
pub open spec fn cell_rule_state(p: PuzzleView, g: Grid, x: usize, y: usize) -> EdgeState {
    match p.cell(x as int, y as int) {
        Cell::Clue(n) => if loops_at_cell(g, x, y) == n {
            EdgeState::Excluded
        } else {
            EdgeState::Loop
        },
        Cell::Empty => EdgeState::Excluded,
    }
}

/// The state the degree rule gives to the undecided edges of a firing vertex.
pub open spec fn vertex_rule_state(g: Grid, x: usize, y: usize) -> EdgeState {
    if loops_at_vertex(g, x, y) == 1 && unset_at_vertex(g, x, y) == 1 {
        EdgeState::Loop
    } else {
        EdgeState::Excluded
    }
}

/// The cell (x, y) lies on the puzzle, and its clue, if any, is at most 4
/// when every clue is.
proof fn lemma_cell_index(p: PuzzleView, x: usize, y: usize)
    requires
        p.cells.len() == p.width * p.height,
        x < p.width,
        y < p.height,
    ensures
        0 <= y * p.width + x < p.cells.len(),
        p.cells[y * p.width + x] == p.cell(x as int, y as int),
        clues_at_most_four(p) ==> (p.cell(x as int, y as int) matches Cell::Clue(n) ==> n <= 4),
{
    crate::lines::lemma_row_major(p.width as int, p.height as int, x as int, y as int);
    assert(p.cells[y * p.width + x] == p.cell(x as int, y as int));
}

/// Applies the cell-clue rule at (x, y): a clue whose loop count is met excludes
/// its remaining edges; a clue that needs every remaining edge draws them (unless
/// `excludes_only`). Reports whether an edge was set.
fn apply_cell_clue<L: Lines>(puzzle: &Puzzle, sol: &mut L, x: usize, y: usize, excludes_only: bool) -> (r: bool)
    requires
        puzzle.wf(),
        !excludes_only ==> clues_at_most_four(puzzle@),
        old(sol).inv(),
        puzzle@.width == old(sol).grid().width,
        puzzle@.height == old(sol).grid().height,
        x < puzzle@.width,
        y < puzzle@.height,
    ensures
        final(sol).inv(),
        final(sol).monotone_only() == old(sol).monotone_only(),
        r == cell_rule_fires(puzzle@, old(sol).grid(), x, y, excludes_only),
        r ==> forced_by(
            final(sol).grid(),
            old(sol).grid(),
            cell_edge_list(x, y),
            cell_rule_state(puzzle@, old(sol).grid(), x, y),
        ),
        r ==> final(sol).records() == old(sol).records() && final(sol).log() == old(sol).log() + logged(
            *old(sol),
            newly_set(old(sol).grid(), cell_edge_list(x, y)),
        ),
        r ==> final(sol).unset_count() < old(sol).unset_count(),
        !r ==> *final(sol) == *old(sol),
{
    let ghost g = sol.grid();
    proof {
        sol.lemma_inv();
        puzzle.lemma_wf();
        lemma_cell_index(puzzle@, x, y);
        lemma_cell_edges_in(g, x, y);
    }
    let n = match puzzle.cell(x, y) {
        Cell::Clue(n) => n,
        Cell::Empty => return false,
    };
    let edges = cell_edges(x, y);
    let (loops, excluded, unset) = count_states(sol, &edges);
    proof {
        lemma_counts_total(g, edges@);
    }
    if unset == 0 {
        return false;
    }
    if loops == n {
        return force_unset(sol, &edges, EdgeState::Excluded);
    }
    if !excludes_only && excluded == 4 - n {
        return force_unset(sol, &edges, EdgeState::Loop);
    }
    false
}

/// Applies the vertex-degree rule at (x, y): a vertex with two loop edges
/// excludes the rest; one loop edge and one way on draws it (unless
/// `excludes_only`); no loop edge and one way on excludes it. Reports whether an
/// edge was set.
fn apply_vertex_degree<L: Lines>(sol: &mut L, x: usize, y: usize, w: usize, h: usize, excludes_only: bool) -> (r: bool)
    requires
        old(sol).inv(),
        w == old(sol).grid().width,
        h == old(sol).grid().height,
        x <= w,
        y <= h,
    ensures
        final(sol).inv(),
        final(sol).monotone_only() == old(sol).monotone_only(),
        r == vertex_rule_fires(old(sol).grid(), x, y, excludes_only),
        r ==> forced_by(
            final(sol).grid(),
            old(sol).grid(),
            vertex_edge_list(x, y, w as nat, h as nat),
            vertex_rule_state(old(sol).grid(), x, y),
        ),
        r ==> final(sol).records() == old(sol).records() && final(sol).log() == old(sol).log() + logged(
            *old(sol),
            newly_set(old(sol).grid(), vertex_edge_list(x, y, w as nat, h as nat)),
        ),
        r ==> final(sol).unset_count() < old(sol).unset_count(),
        !r ==> *final(sol) == *old(sol),
{
    let ghost g = sol.grid();
    proof {
        lemma_vertex_edges_in(g, x, y);
    }
    let edges = vertex_edges(x, y, w, h);
    let (loops, _excluded, unset) = count_states(sol, &edges);
    proof {
        lemma_counts_total(g, edges@);
    }
    if unset == 0 {
        return false;
    }
    if loops >= 2 {
        return force_unset(sol, &edges, EdgeState::Excluded);
    }
    if !excludes_only && loops == 1 && unset == 1 {
        return force_unset(sol, &edges, EdgeState::Loop);
    }
    if loops == 0 && unset == 1 {
        return force_unset(sol, &edges, EdgeState::Excluded);
    }
    false
}


// ---------------------------------------------------------------------------
// Problem detection
// ---------------------------------------------------------------------------

/// Cells and vertices whose local constraints can no longer be met.
#[derive(Debug, Clone, PartialEq, Eq, Default)]
pub struct Problems {
    pub bad_cells: Vec<(usize, usize)>,
    pub bad_vertices: Vec<(usize, usize)>,
}

/// A clue cell with more loop edges than its clue, or too few edges left to reach it.
pub open spec fn cell_is_bad(p: PuzzleView, g: Grid, x: usize, y: usize) -> bool {
    match p.cell(x as int, y as int) {
        Cell::Clue(n) => loops_at_cell(g, x, y) > n || 4 - excluded_at_cell(g, x, y) < n,
        Cell::Empty => false,
    }
}

/// A vertex with three or more loop edges, or a dead end: one loop edge and no
/// undecided edge.
pub open spec fn vertex_is_bad(g: Grid, x: usize, y: usize) -> bool {
    loops_at_vertex(g, x, y) >= 3 || (loops_at_vertex(g, x, y) == 1 && unset_at_vertex(g, x, y) == 0)
}

/// `a` comes before `b` when scanning rows top to bottom, each left to right.
pub open spec fn row_major_before(a: (usize, usize), b: (usize, usize)) -> bool {
    a.1 < b.1 || (a.1 == b.1 && a.0 < b.0)
}

/// `s` lists, in row-major order and once each, exactly the positions in the
/// `cols` x `rows` box that satisfy `pred`.
pub open spec fn lists_exactly(s: Seq<(usize, usize)>, pred: spec_fn(usize, usize) -> bool, cols: nat, rows: nat) -> bool {
    &&& forall|i: int| 0 <= i < s.len() ==> (#[trigger] s[i]).0 < cols && s[i].1 < rows && pred(s[i].0, s[i].1)
    &&& forall|i: int, j: int| 0 <= i < j < s.len() ==> row_major_before(#[trigger] s[i], #[trigger] s[j])
    &&& forall|x: usize, y: usize| x < cols && y < rows && #[trigger] pred(x, y) ==> s.contains((x, y))
}

/// Inspects a (possibly partial) solution and reports cells / vertices whose
/// local constraints can no longer be satisfied.
///
/// A cell with clue N is bad if loop edges > N (too many), or 4 - excluded < N
/// (not enough remaining edges to reach N).
///
/// A vertex is bad if it has >= 3 loop edges (impossible degree), or exactly
/// one loop edge with no remaining unset edges (dead end).
pub fn find_problems<L: Lines>(puzzle: &Puzzle, sol: &L) -> (out: Problems)
    requires
        puzzle.wf(),
        sol.inv(),
        puzzle@.width == sol.grid().width,
        puzzle@.height == sol.grid().height,
    ensures
        lists_exactly(out.bad_cells@, |x: usize, y: usize| cell_is_bad(puzzle@, sol.grid(), x, y), puzzle@.width, puzzle@.height),
        lists_exactly(out.bad_vertices@, |x: usize, y: usize| vertex_is_bad(sol.grid(), x, y), puzzle@.width + 1, puzzle@.height + 1),
{
    let ghost p = puzzle@;
    let ghost g = sol.grid();
    let ghost cpred = |x: usize, y: usize| cell_is_bad(p, g, x, y);
    let ghost vpred = |x: usize, y: usize| vertex_is_bad(g, x, y);
    proof {
        sol.lemma_inv();
    }
    let w = puzzle.width();
    let h = puzzle.height();
    let mut bad_cells: Vec<(usize, usize)> = Vec::new();
    let mut bad_vertices: Vec<(usize, usize)> = Vec::new();

    let mut y: usize = 0;
    while y < h
        invariant
            puzzle.wf(),
            sol.inv(),
            p == puzzle@,
            g == sol.grid(),
            cpred == (|x: usize, y: usize| cell_is_bad(p, g, x, y)),
            w == p.width,
            h == p.height,
            w == g.width,
            h == g.height,
            w + 1 <= usize::MAX,
            h + 1 <= usize::MAX,
            y <= h,
            forall|i: int| 0 <= i < bad_cells@.len() ==> (#[trigger] bad_cells@[i]).0 < w && bad_cells@[i].1 < y && cpred(bad_cells@[i].0, bad_cells@[i].1),
            forall|i: int, j: int| 0 <= i < j < bad_cells@.len() ==> row_major_before(#[trigger] bad_cells@[i], #[trigger] bad_cells@[j]),
            forall|cx: usize, cy: usize| cx < w && cy < y && #[trigger] cpred(cx, cy) ==> bad_cells@.contains((cx, cy)),
        decreases h - y,
    {
        let mut x: usize = 0;
        while x < w
            invariant
                puzzle.wf(),
                sol.inv(),
                p == puzzle@,
                g == sol.grid(),
                cpred == (|x: usize, y: usize| cell_is_bad(p, g, x, y)),
                w == p.width,
                h == p.height,
                w == g.width,
                h == g.height,
                w + 1 <= usize::MAX,
                h + 1 <= usize::MAX,
                y < h,
                x <= w,
                forall|i: int| 0 <= i < bad_cells@.len() ==> (#[trigger] bad_cells@[i]).0 < w && row_major_before(bad_cells@[i], (x, y)) && cpred(bad_cells@[i].0, bad_cells@[i].1),
                forall|i: int, j: int| 0 <= i < j < bad_cells@.len() ==> row_major_before(#[trigger] bad_cells@[i], #[trigger] bad_cells@[j]),
                forall|cx: usize, cy: usize| cx < w && row_major_before((cx, cy), (x, y)) && #[trigger] cpred(cx, cy) ==> bad_cells@.contains((cx, cy)),
            decreases w - x,
        {
            let ghost before = bad_cells@;
            let bad = match puzzle.cell(x, y) {
                Cell::Clue(n) => {
                    proof {
                        lemma_cell_edges_in(g, x, y);
                    }
                    let edges = cell_edges(x, y);
                    let (loops, excluded, _unset) = count_states(sol, &edges);
                    proof {
                        lemma_counts_total(g, edges@);
                    }
                    loops > n || 4 - excluded < n
                },
                Cell::Empty => false,
            };
            proof {
                assert(bad == cpred(x, y));
            }
            if bad {
                bad_cells.push((x, y));
            }
            proof {
                assert forall|cx: usize, cy: usize| cx < w && row_major_before((cx, cy), ((x + 1) as usize, y)) && #[trigger] cpred(cx, cy) implies bad_cells@.contains((cx, cy)) by {
                    if cx == x && cy == y {
                        assert(bad_cells@[bad_cells@.len() - 1] == (x, y));
                    } else {
                        assert(before.contains((cx, cy)));
                        let k = choose|k: int| 0 <= k < before.len() && before[k] == (cx, cy);
                        assert(bad_cells@[k] == (cx, cy));
                    }
                }
            }
            x = x + 1;
        }
        y = y + 1;
    }

    let mut y: usize = 0;
    while y <= h
        invariant
            sol.inv(),
            g == sol.grid(),
            vpred == (|x: usize, y: usize| vertex_is_bad(g, x, y)),
            w == g.width,
            h == g.height,
            w + 1 <= usize::MAX,
            h + 1 <= usize::MAX,
            y <= h + 1,
            forall|i: int| 0 <= i < bad_vertices@.len() ==> (#[trigger] bad_vertices@[i]).0 <= w && bad_vertices@[i].1 < y && vpred(bad_vertices@[i].0, bad_vertices@[i].1),
            forall|i: int, j: int| 0 <= i < j < bad_vertices@.len() ==> row_major_before(#[trigger] bad_vertices@[i], #[trigger] bad_vertices@[j]),
            forall|cx: usize, cy: usize| cx <= w && cy < y && #[trigger] vpred(cx, cy) ==> bad_vertices@.contains((cx, cy)),
        decreases h + 1 - y,
    {
        let mut x: usize = 0;
        while x <= w
            invariant
                sol.inv(),
                g == sol.grid(),
                vpred == (|x: usize, y: usize| vertex_is_bad(g, x, y)),
                w == g.width,
                h == g.height,
                w + 1 <= usize::MAX,
                h + 1 <= usize::MAX,
                y <= h,
                x <= w + 1,
                forall|i: int| 0 <= i < bad_vertices@.len() ==> (#[trigger] bad_vertices@[i]).0 <= w && row_major_before(bad_vertices@[i], (x, y)) && vpred(bad_vertices@[i].0, bad_vertices@[i].1),
                forall|i: int, j: int| 0 <= i < j < bad_vertices@.len() ==> row_major_before(#[trigger] bad_vertices@[i], #[trigger] bad_vertices@[j]),
                forall|cx: usize, cy: usize| cx <= w && row_major_before((cx, cy), (x, y)) && #[trigger] vpred(cx, cy) ==> bad_vertices@.contains((cx, cy)),
            decreases w + 1 - x,
        {
            let ghost before = bad_vertices@;
            proof {
                lemma_vertex_edges_in(g, x, y);
            }
            let edges = vertex_edges(x, y, w, h);
            let (loops, _excluded, unset) = count_states(sol, &edges);
            let bad = loops >= 3 || (loops == 1 && unset == 0);
            proof {
                assert(bad == vpred(x, y));
            }
            if bad {
                bad_vertices.push((x, y));
            }
            proof {
                assert forall|cx: usize, cy: usize| cx <= w && row_major_before((cx, cy), ((x + 1) as usize, y)) && #[trigger] vpred(cx, cy) implies bad_vertices@.contains((cx, cy)) by {
                    if cx == x && cy == y {
                        assert(bad_vertices@[bad_vertices@.len() - 1] == (x, y));
                    } else {
                        assert(before.contains((cx, cy)));
                        let k = choose|k: int| 0 <= k < before.len() && before[k] == (cx, cy);
                        assert(bad_vertices@[k] == (cx, cy));
                    }
                }
            }
            x = x + 1;
        }
        y = y + 1;
    }
    Problems { bad_cells, bad_vertices }
}

// ---------------------------------------------------------------------------
// Play-mode auto-exclude
// ---------------------------------------------------------------------------

/// The grid after the cell-clue rule at every cell before (x, y), in row-major
/// order.
pub open spec fn sweep_cells(p: PuzzleView, g: Grid, excludes_only: bool, y: nat, x: nat) -> Grid
    decreases y, x,
{
    if x > 0 {
        after_cell_rule(p, sweep_cells(p, g, excludes_only, y, (x - 1) as nat), (x - 1) as usize, y as usize, excludes_only)
    } else if y > 0 {
        sweep_cells(p, g, excludes_only, (y - 1) as nat, g.width)
    } else {
        g
    }
}

/// The grid after every cell's rule and then the vertex-degree rule at every
/// vertex before (x, y), in row-major order.
pub open spec fn sweep_vertices(p: PuzzleView, g: Grid, excludes_only: bool, y: nat, x: nat) -> Grid
    decreases y, x,
{
    if x > 0 {
        after_vertex_rule(sweep_vertices(p, g, excludes_only, y, (x - 1) as nat), (x - 1) as usize, y as usize, excludes_only)
    } else if y > 0 {
        sweep_vertices(p, g, excludes_only, (y - 1) as nat, g.width + 1)
    } else {
        sweep_cells(p, g, excludes_only, g.height, 0)
    }
}

/// The grid after one full sweep: every cell's rule, then every vertex's rule.
pub open spec fn sweep_grid(p: PuzzleView, g: Grid, excludes_only: bool) -> Grid {
    sweep_vertices(p, g, excludes_only, g.height + 1, 0)
}

/// One full sweep of the cell-clue rule over every cell and the vertex-degree rule
/// over every vertex. Reports whether any edge was set; when none was, no rule
/// fires anywhere.
fn sweep_local_rules<L: Lines>(puzzle: &Puzzle, sol: &mut L, excludes_only: bool) -> (changed: bool)
    requires
        puzzle.wf(),
        !excludes_only ==> clues_at_most_four(puzzle@),
        old(sol).inv(),
        fits(puzzle@, old(sol).grid()),
    ensures
        decides_more(*final(sol), *old(sol)),
        excludes_only ==> final(sol).grid().only_excludes_from(old(sol).grid()),
        changed ==> final(sol).unset_count() < old(sol).unset_count(),
        !changed ==> *final(sol) == *old(sol) && local_fixpoint(puzzle@, old(sol).grid(), excludes_only),
        keeps_solutions(puzzle@, old(sol).grid(), final(sol).grid()),
        final(sol).grid() == sweep_grid(puzzle@, old(sol).grid(), excludes_only),
{
    let ghost p = puzzle@;
    let ghost g0 = sol.grid();
    proof {
        sol.lemma_inv();
    }
    let w = puzzle.width();
    let h = puzzle.height();
    let mut changed = false;
    let mut y: usize = 0;
    while y < h
        invariant
            puzzle.wf(),
            !excludes_only ==> clues_at_most_four(p),
            p == puzzle@,
            g0 == old(sol).grid(),
            sol.inv(),
            w == p.width,
            h == p.height,
            fits(p, sol.grid()),
            w + 1 <= usize::MAX,
            h + 1 <= usize::MAX,
            y <= h,
            decides_more(*sol, *old(sol)),
            excludes_only ==> sol.grid().only_excludes_from(g0),
            keeps_solutions(p, g0, sol.grid()),
            sol.grid() == sweep_cells(p, g0, excludes_only, y as nat, 0),
            changed ==> sol.unset_count() < old(sol).unset_count(),
            !changed ==> *sol == *old(sol),
            !changed ==> forall|cx: usize, cy: usize| cx < w && cy < y ==> !#[trigger] cell_rule_fires(p, g0, cx, cy, excludes_only),
        decreases h - y,
    {
        let mut x: usize = 0;
        while x < w
            invariant
                puzzle.wf(),
                !excludes_only ==> clues_at_most_four(p),
                p == puzzle@,
                g0 == old(sol).grid(),
                sol.inv(),
                w == p.width,
                h == p.height,
                fits(p, sol.grid()),
                w + 1 <= usize::MAX,
                h + 1 <= usize::MAX,
                y < h,
                x <= w,
                decides_more(*sol, *old(sol)),
                excludes_only ==> sol.grid().only_excludes_from(g0),
                keeps_solutions(p, g0, sol.grid()),
                sol.grid() == sweep_cells(p, g0, excludes_only, y as nat, x as nat),
                changed ==> sol.unset_count() < old(sol).unset_count(),
                !changed ==> *sol == *old(sol),
                !changed ==> forall|cx: usize, cy: usize| (cx < w && cy < y) || (cx < x && cy == y) ==> !#[trigger] cell_rule_fires(p, g0, cx, cy, excludes_only),
            decreases w - x,
        {
            let ghost gb = sol.grid();
            proof {
                sol.lemma_inv();
            }
            if apply_cell_clue(puzzle, sol, x, y, excludes_only) {
                changed = true;
                proof {
                    sol.lemma_inv();
                    lemma_forced_is(sol.grid(), gb, cell_edge_list(x, y), cell_rule_state(p, gb, x, y));
                    lemma_cell_rule_sound(p, gb, sol.grid(), x, y, excludes_only);
                    lemma_keeps_trans(p, g0, gb, sol.grid());
                    lemma_forced_extends(g0, gb, sol.grid(), cell_edge_list(x, y), cell_rule_state(p, gb, x, y));
                    if excludes_only {
                        lemma_excludes_step(g0, gb, sol.grid(), cell_edge_list(x, y));
                    }
                }
            }
            x = x + 1;
        }
        y = y + 1;
    }
    let mut y: usize = 0;
    while y <= h
        invariant
            g0 == old(sol).grid(),
            sol.inv(),
            w == sol.grid().width,
            h == sol.grid().height,
            w == p.width,
            h == p.height,
            w + 1 <= usize::MAX,
            h + 1 <= usize::MAX,
            y <= h + 1,
            decides_more(*sol, *old(sol)),
            excludes_only ==> sol.grid().only_excludes_from(g0),
            keeps_solutions(p, g0, sol.grid()),
            sol.grid() == sweep_vertices(p, g0, excludes_only, y as nat, 0),
            changed ==> sol.unset_count() < old(sol).unset_count(),
            !changed ==> *sol == *old(sol),
            !changed ==> forall|cx: usize, cy: usize| cx < w && cy < h ==> !#[trigger] cell_rule_fires(p, g0, cx, cy, excludes_only),
            !changed ==> forall|cx: usize, cy: usize| cx <= w && cy < y ==> !#[trigger] vertex_rule_fires(g0, cx, cy, excludes_only),
        decreases h + 1 - y,
    {
        let mut x: usize = 0;
        while x <= w
            invariant
                g0 == old(sol).grid(),
                sol.inv(),
                w == sol.grid().width,
                h == sol.grid().height,
                w == p.width,
                h == p.height,
                w + 1 <= usize::MAX,
                h + 1 <= usize::MAX,
                y <= h,
                x <= w + 1,
                decides_more(*sol, *old(sol)),
                excludes_only ==> sol.grid().only_excludes_from(g0),
                keeps_solutions(p, g0, sol.grid()),
                sol.grid() == sweep_vertices(p, g0, excludes_only, y as nat, x as nat),
                changed ==> sol.unset_count() < old(sol).unset_count(),
                !changed ==> *sol == *old(sol),
                !changed ==> forall|cx: usize, cy: usize| cx < w && cy < h ==> !#[trigger] cell_rule_fires(p, g0, cx, cy, excludes_only),
                !changed ==> forall|cx: usize, cy: usize| (cx <= w && cy < y) || (cx < x && cy == y) ==> !#[trigger] vertex_rule_fires(g0, cx, cy, excludes_only),
            decreases w + 1 - x,
        {
            let ghost gb = sol.grid();
            proof {
                sol.lemma_inv();
            }
            if apply_vertex_degree(sol, x, y, w, h, excludes_only) {
                changed = true;
                proof {
                    sol.lemma_inv();
                    lemma_forced_is(sol.grid(), gb, vertex_edge_list(x, y, w as nat, h as nat), vertex_rule_state(gb, x, y));
                    lemma_vertex_rule_sound(p, gb, sol.grid(), x, y, excludes_only);
                    lemma_keeps_trans(p, g0, gb, sol.grid());
                    lemma_forced_extends(g0, gb, sol.grid(), vertex_edge_list(x, y, w as nat, h as nat), vertex_rule_state(gb, x, y));
                    if excludes_only {
                        lemma_excludes_step(g0, gb, sol.grid(), vertex_edge_list(x, y, w as nat, h as nat));
                    }
                }
            }
            x = x + 1;
        }
        y = y + 1;
    }
    changed
}

/// The grid after `n` excluding sweeps from `g`.
pub open spec fn exclude_iter(p: PuzzleView, g: Grid, n: nat) -> Grid
    decreases n,
{
    if n == 0 {
        g
    } else {
        sweep_grid(p, exclude_iter(p, g, (n - 1) as nat), true)
    }
}

/// The grid that auto-exclude stops at from `g`: the first excluding sweep
/// that changes nothing.
pub open spec fn exclude_result(p: PuzzleView, g: Grid) -> Grid {
    exclude_iter(p, g, choose|n: nat| sweep_grid(p, #[trigger] exclude_iter(p, g, n), true) == exclude_iter(p, g, n))
}

/// A sweep that changes nothing is where auto-exclude stops.
proof fn lemma_exclude_result(p: PuzzleView, g: Grid, n: nat)
    requires
        sweep_grid(p, exclude_iter(p, g, n), true) == exclude_iter(p, g, n),
    ensures
        exclude_result(p, g) == exclude_iter(p, g, n),
{
    let k = choose|k: nat| sweep_grid(p, #[trigger] exclude_iter(p, g, k), true) == exclude_iter(p, g, k);
    if k <= n {
        lemma_exclude_stays(p, g, k, n);
    } else {
        lemma_exclude_stays(p, g, n, k);
    }
}

/// After a sweep that changes nothing, nothing changes.
proof fn lemma_exclude_stays(p: PuzzleView, g: Grid, n: nat, m: nat)
    requires
        sweep_grid(p, exclude_iter(p, g, n), true) == exclude_iter(p, g, n),
        n <= m,
    ensures
        exclude_iter(p, g, m) == exclude_iter(p, g, n),
    decreases m,
{
    if m > n {
        lemma_exclude_stays(p, g, n, (m - 1) as nat);
    }
}

/// Local auto-exclude pass intended for active play: only sets edges to
/// `Excluded`, never to `Loop`, so the player still draws every line themselves.
///
/// Excludes around clue cells whose loop count is already satisfied, and around
/// vertices that are either capped at degree 2 or stuck at degree 0 with one
/// remaining unset edge. Runs until none of these rules fires anywhere; the
/// grid it ends at is exactly [`exclude_result`].
pub fn auto_exclude(puzzle: &Puzzle, sol: &mut PlayLines)
    requires
        puzzle.wf(),
        old(sol).inv(),
        fits(puzzle@, old(sol).grid()),
    ensures
        final(sol).inv(),
        final(sol).grid().only_excludes_from(old(sol).grid()),
        local_fixpoint(puzzle@, final(sol).grid(), true),
        keeps_solutions(puzzle@, old(sol).grid(), final(sol).grid()),
        final(sol).grid() == exclude_result(puzzle@, old(sol).grid()),
{
    let ghost g0 = sol.grid();
    let ghost mut n: nat = 0;
    loop
        invariant
            puzzle.wf(),
            sol.inv(),
            fits(puzzle@, sol.grid()),
            sol.grid() == exclude_iter(puzzle@, g0, n),
            g0 == old(sol).grid(),
            sol.grid().only_excludes_from(g0),
            keeps_solutions(puzzle@, g0, sol.grid()),
        decreases sol.unset_count(),
    {
        let ghost gb = sol.grid();
        let changed = sweep_local_rules(puzzle, sol, true);
        proof {
            lemma_only_excludes_trans(g0, gb, sol.grid());
            lemma_keeps_trans(puzzle@, g0, gb, sol.grid());
            assert(exclude_iter(puzzle@, g0, n + 1) == sweep_grid(puzzle@, exclude_iter(puzzle@, g0, n), true));
        }
        if !changed {
            proof {
                lemma_exclude_result(puzzle@, g0, n);
            }
            return;
        }
        proof {
            n = n + 1;
        }
    }
}

/// The easy solver: the cell-clue rule, the vertex-degree rule (continuation and
/// soft exclusion) and the no-premature-loop rule, swept over the whole grid until
/// none fires, with no seed patterns and no lookahead.
pub fn propagate_easy(puzzle: &Puzzle) -> (sol: SolverLines)
    requires
        puzzle.wf(),
        clues_at_most_four(puzzle@),
        (puzzle@.width + 1) * (puzzle@.height + 1) <= u32::MAX,
        2 * ((puzzle@.width + 1) * (puzzle@.height + 1)) <= usize::MAX,
    ensures
        sol.inv(),
        fits(puzzle@, sol.grid()),
        local_fixpoint(puzzle@, sol.grid(), false),
        no_premature_fixpoint(puzzle@, sol.grid()),
        forall|s: Grid| #[trigger] is_solution(puzzle@, s) && fits(puzzle@, s) ==> agrees(sol.grid(), s),
        sol.grid() == easy_result(puzzle@),
{
    let mut sol = SolverLines::empty(puzzle.width(), puzzle.height());
    let ghost g0 = sol.grid();
    let ghost mut n: nat = 0;
    proof {
        assert forall|s: Grid| #[trigger] is_solution(puzzle@, s) && fits(puzzle@, s) implies agrees(g0, s) by {}
        sol.lemma_inv();
        lemma_blank(g0);
    }
    loop
        invariant
            puzzle.wf(),
            clues_at_most_four(puzzle@),
            sol.inv(),
            fits(puzzle@, sol.grid()),
            forall|s: Grid| #[trigger] is_solution(puzzle@, s) && fits(puzzle@, s) ==> agrees(g0, s),
            keeps_solutions(puzzle@, g0, sol.grid()),
            g0 == blank_grid(puzzle@.width, puzzle@.height),
            sol.grid() == easy_iter(puzzle@, g0, n),
        decreases sol.unset_count(),
    {
        let ghost ga = sol.grid();
        let swept = sweep_local_rules(puzzle, &mut sol, false);
        let ghost gb = sol.grid();
        let closed = apply_no_premature_loop(puzzle, &mut sol);
        proof {
            lemma_keeps_trans(puzzle@, g0, ga, gb);
            lemma_keeps_trans(puzzle@, g0, gb, sol.grid());
            assert(easy_iter(puzzle@, g0, n + 1) == easy_round(puzzle@, easy_iter(puzzle@, g0, n)));
        }
        if !swept && !closed {
            proof {
                assert(easy_round(puzzle@, ga) == ga);
                lemma_easy_result(puzzle@, n);
            }
            return sol;
        }
        proof {
            n = n + 1;
        }
    }
}

/// The grid of a `w` x `h` puzzle with every edge undecided.
pub open spec fn blank_grid(w: nat, h: nat) -> Grid {
    Grid { width: w, height: h, edges: Map::new(|e: EdgeId| edge_in_bounds(w, h, e), |e: EdgeId| EdgeState::Unset) }
}

/// A well-formed grid with every edge undecided is the blank grid.
proof fn lemma_blank(g: Grid)
    requires
        g.well_formed(),
        forall|e: EdgeId| #[trigger] g.has(e) ==> g.state(e) == EdgeState::Unset,
    ensures
        g == blank_grid(g.width, g.height),
{
    let b = blank_grid(g.width, g.height);
    assert forall|e: EdgeId| #[trigger] g.edges.dom().contains(e) <==> b.edges.dom().contains(e) by {}
    assert forall|e: EdgeId| #[trigger] g.edges.dom().contains(e) implies g.edges[e] == b.edges[e] by {
        assert(g.has(e));
    }
    assert(g.edges =~= b.edges);
}

/// One round of the easy solver: a full sweep of the local rules, then the
/// no-premature-loop rule.
pub open spec fn easy_round(p: PuzzleView, g: Grid) -> Grid {
    closed_off(p, sweep_grid(p, g, false))
}

/// The grid after `n` rounds of the easy solver.
pub open spec fn easy_iter(p: PuzzleView, g: Grid, n: nat) -> Grid
    decreases n,
{
    if n == 0 {
        g
    } else {
        easy_round(p, easy_iter(p, g, (n - 1) as nat))
    }
}

/// The grid the easy solver stops at: the first round that changes nothing,
/// from the blank grid.
pub open spec fn easy_result(p: PuzzleView) -> Grid {
    let g0 = blank_grid(p.width, p.height);
    easy_iter(p, g0, choose|n: nat| easy_round(p, #[trigger] easy_iter(p, g0, n)) == easy_iter(p, g0, n))
}

/// A round that changes nothing is where the easy solver stops.
proof fn lemma_easy_result(p: PuzzleView, n: nat)
    requires
        easy_round(p, easy_iter(p, blank_grid(p.width, p.height), n)) == easy_iter(p, blank_grid(p.width, p.height), n),
    ensures
        easy_result(p) == easy_iter(p, blank_grid(p.width, p.height), n),
{
    let g0 = blank_grid(p.width, p.height);
    let k = choose|k: nat| easy_round(p, #[trigger] easy_iter(p, g0, k)) == easy_iter(p, g0, k);
    if k <= n {
        lemma_easy_stays(p, g0, k, n);
    } else {
        lemma_easy_stays(p, g0, n, k);
    }
}

/// After a round that changes nothing, nothing changes.
proof fn lemma_easy_stays(p: PuzzleView, g0: Grid, n: nat, m: nat)
    requires
        easy_round(p, easy_iter(p, g0, n)) == easy_iter(p, g0, n),
        n <= m,
    ensures
        easy_iter(p, g0, m) == easy_iter(p, g0, n),
    decreases m,
{
    if m > n {
        lemma_easy_stays(p, g0, n, (m - 1) as nat);
    }
}

/// Every grid extends itself.
pub proof fn lemma_extends_refl(g: Grid)
    ensures
        g.extends(g),
{
}

pub proof fn lemma_extends_trans(g0: Grid, g1: Grid, g2: Grid)
    requires
        g1.extends(g0),
        g2.extends(g1),
    ensures
        g2.extends(g0),
{
    assert forall|e: EdgeId| #[trigger] g0.has(e) && g0.state(e) != EdgeState::Unset implies g2.state(e) == g0.state(e) by {
        assert(g1.has(e));
    }
}

/// A decided edge keeps its state in an extension.
pub proof fn lemma_decided_stays(g1: Grid, g2: Grid, e: EdgeId)
    requires
        g2.extends(g1),
        g1.has(e),
        g1.state(e) != EdgeState::Unset,
    ensures
        g2.state(e) == g1.state(e),
{
}

/// Setting one edge if undecided forces that single edge.
proof fn lemma_set_one_forced(g1: Grid, g2: Grid, e: EdgeId, s: EdgeState)
    requires
        g1.has(e),
        (g1.state(e) == EdgeState::Unset && g2 == g1.with(e, s)) || (g1.state(e) != EdgeState::Unset && g2 == g1),
    ensures
        forced_by(g2, g1, seq![e], s),
{
    assert(seq![e][0] == e);
    assert(seq![e].contains(e));
    assert forall|f: EdgeId| #[trigger] g1.has(f) implies g2.state(f) == if seq![e].contains(f) && g1.state(f) == EdgeState::Unset {
        s
    } else {
        g1.state(f)
    } by {
        if seq![e].contains(f) {
            let k = choose|k: int| 0 <= k < 1 && seq![e][k] == f;
            assert(f == e);
        }
    }
}

/// Forcing undecided edges keeps a grid an extension of where it started.
proof fn lemma_forced_extends(g0: Grid, g1: Grid, g2: Grid, es: Seq<EdgeId>, s: EdgeState)
    requires
        g1.extends(g0),
        forced_by(g2, g1, es, s),
    ensures
        g2.extends(g0),
{
    assert forall|e: EdgeId| #[trigger] g0.has(e) && g0.state(e) != EdgeState::Unset implies g2.state(e) == g0.state(e) by {
        assert(g1.has(e));
    }
}

/// Exclusion-only extensions compose.
proof fn lemma_only_excludes_trans(g0: Grid, g1: Grid, g2: Grid)
    requires
        g1.only_excludes_from(g0),
        g2.only_excludes_from(g1),
    ensures
        g2.only_excludes_from(g0),
{
    assert forall|e: EdgeId| #[trigger] g0.has(e) implies (g2.state(e) == g0.state(e) || (g0.state(e)
        == EdgeState::Unset && g2.state(e) == EdgeState::Excluded)) by {
        assert(g1.has(e));
    }
}

/// Forcing undecided edges to `Excluded` keeps a grid an exclusion-only
/// extension of where it started.
proof fn lemma_excludes_step(g0: Grid, g1: Grid, g2: Grid, es: Seq<EdgeId>)
    requires
        g1.only_excludes_from(g0),
        forced_by(g2, g1, es, EdgeState::Excluded),
    ensures
        g2.only_excludes_from(g0),
{
    assert forall|e: EdgeId| #[trigger] g0.has(e) implies (g2.state(e) == g0.state(e) || (g0.state(e)
        == EdgeState::Unset && g2.state(e) == EdgeState::Excluded)) by {
        assert(g1.has(e));
    }
}


// ---------------------------------------------------------------------------
// Seed patterns
// ---------------------------------------------------------------------------

fn is_clue(puzzle: &Puzzle, x: usize, y: usize, value: u8) -> (r: bool)
    requires
        puzzle.wf(),
        x < puzzle@.width,
        y < puzzle@.height,
    ensures
        r == puzzle@.is_clue(x as int, y as int, value),
{
    match puzzle.cell(x, y) {
        Cell::Clue(n) => n == value,
        Cell::Empty => false,
    }
}

/// `new` decides every edge that `old` decided the same way, and `unset` shrinks.
pub open spec fn decides_more<L: Lines>(new: L, old: L) -> bool {
    &&& new.inv()
    &&& new.monotone_only() == old.monotone_only()
    &&& new.grid().extends(old.grid())
    &&& new.unset_count() <= old.unset_count()
}

/// The state `e` ends in when a rule proposes `s` for it: `s` if it was undecided,
/// otherwise what it already was.
pub open spec fn settled(new: Grid, old: Grid, e: EdgeId, s: EdgeState) -> bool {
    new.state(e) == if old.state(e) == EdgeState::Unset { s } else { old.state(e) }
}

/// The grid and log after the zero pattern at cell (x, y).
pub open spec fn zero_at(p: PuzzleView, st: (Grid, Seq<EdgeId>), x: usize, y: usize) -> (Grid, Seq<EdgeId>) {
    if p.is_clue(x as int, y as int, 0) {
        (
            forced_grid(st.0, cell_edge_list(x, y), EdgeState::Excluded),
            st.1 + newly_set(st.0, cell_edge_list(x, y)),
        )
    } else {
        st
    }
}

/// The grid and log after the zero pattern at every cell before (x, y), in
/// row-major order.
pub open spec fn zero_scan(p: PuzzleView, st: (Grid, Seq<EdgeId>), y: nat, x: nat) -> (Grid, Seq<EdgeId>)
    decreases y, x,
{
    if x > 0 {
        zero_at(p, zero_scan(p, st, y, (x - 1) as nat), (x - 1) as usize, y as usize)
    } else if y > 0 {
        zero_scan(p, st, (y - 1) as nat, p.width)
    } else {
        st
    }
}

/// The grid and log after the zero pattern.
pub open spec fn zeros_state(p: PuzzleView, st: (Grid, Seq<EdgeId>)) -> (Grid, Seq<EdgeId>) {
    zero_scan(p, st, p.height, 0)
}

/// A 0-clue forces all four of its edges Excluded. Runs once as a seed pattern:
/// it is the only deduction that fires with no edges set.
fn apply_pattern_zeros<L: Lines>(puzzle: &Puzzle, sol: &mut L)
    requires
        puzzle.wf(),
        old(sol).inv(),
        puzzle@.width == old(sol).grid().width,
        puzzle@.height == old(sol).grid().height,
    ensures
        decides_more(*final(sol), *old(sol)),
        forall|x: usize, y: usize, i: int|
            x < puzzle@.width && y < puzzle@.height && puzzle@.is_clue(x as int, y as int, 0) && 0 <= i < 4
                ==> settled(final(sol).grid(), old(sol).grid(), #[trigger] cell_edge_list(x, y)[i], EdgeState::Excluded),
        keeps_solutions(puzzle@, old(sol).grid(), final(sol).grid()),
        old(sol).records() ==> (final(sol).grid(), final(sol).log()) == zeros_state(puzzle@, (old(sol).grid(), old(sol).log())),
{
    let ghost st0 = (sol.grid(), sol.log());
    let ghost p = puzzle@;
    let ghost g0 = sol.grid();
    proof {
        sol.lemma_inv();
        lemma_keeps_refl(p, g0);
    }
    let w = puzzle.width();
    let h = puzzle.height();
    let mut y: usize = 0;
    while y < h
        invariant
            puzzle.wf(),
            p == puzzle@,
            g0 == old(sol).grid(),
            decides_more(*sol, *old(sol)),
            sol.grid().only_excludes_from(g0),
            keeps_solutions(p, g0, sol.grid()),
            sol.records() == old(sol).records(),
            st0 == (old(sol).grid(), old(sol).log()),
            old(sol).records() ==> (sol.grid(), sol.log()) == zero_scan(p, st0, y as nat, 0),
            w == p.width,
            h == p.height,
            w == sol.grid().width,
            h == sol.grid().height,
            w + 1 <= usize::MAX,
            h + 1 <= usize::MAX,
            y <= h,
            forall|cx: usize, cy: usize, i: int|
                cx < w && cy < y && p.is_clue(cx as int, cy as int, 0) && 0 <= i < 4
                    ==> settled(sol.grid(), g0, #[trigger] cell_edge_list(cx, cy)[i], EdgeState::Excluded),
        decreases h - y,
    {
        let mut x: usize = 0;
        while x < w
            invariant
                puzzle.wf(),
                p == puzzle@,
                g0 == old(sol).grid(),
                decides_more(*sol, *old(sol)),
                sol.grid().only_excludes_from(g0),
                keeps_solutions(p, g0, sol.grid()),
                sol.records() == old(sol).records(),
                st0 == (old(sol).grid(), old(sol).log()),
                old(sol).records() ==> (sol.grid(), sol.log()) == zero_scan(p, st0, y as nat, x as nat),
                w == p.width,
                h == p.height,
                w == sol.grid().width,
                h == sol.grid().height,
                w + 1 <= usize::MAX,
                h + 1 <= usize::MAX,
                y < h,
                x <= w,
                forall|cx: usize, cy: usize, i: int|
                    ((cx < w && cy < y) || (cx < x && cy == y)) && p.is_clue(cx as int, cy as int, 0) && 0 <= i < 4
                        ==> settled(sol.grid(), g0, #[trigger] cell_edge_list(cx, cy)[i], EdgeState::Excluded),
            decreases w - x,
        {
            if is_clue(puzzle, x, y, 0) {
                let ghost gb = sol.grid();
                proof {
                    lemma_cell_edges_in(gb, x, y);
                }
                let edges = cell_edges(x, y);
                let ghost lb = sol.log();
                proof {
                    sol.lemma_inv();
                }
                force_unset(sol, &edges, EdgeState::Excluded);
                proof {
                    let g2 = sol.grid();
                    sol.lemma_inv();
                    lemma_forced_is(g2, gb, edges@, EdgeState::Excluded);
                    assert forall|s: Grid| #[trigger] is_solution(p, s) && agrees(gb, s) implies forall|i: int|
                        0 <= i < edges@.len() && gb.state(#[trigger] edges@[i]) == EdgeState::Unset ==> (s.state(edges@[i])
                            == EdgeState::Loop <==> EdgeState::Excluded == EdgeState::Loop) by {
                        assert forall|i: int| 0 <= i < edges@.len() && gb.state(#[trigger] edges@[i]) == EdgeState::Unset
                            implies (s.state(edges@[i]) == EdgeState::Loop <==> EdgeState::Excluded == EdgeState::Loop) by {
                            lemma_zero_forces(p, x, y, i);
                            assert(is_solution(p, s) && fits(p, s));
                        }
                    }
                    lemma_forced_keeps(p, gb, g2, edges@, EdgeState::Excluded);
                    lemma_keeps_trans(p, g0, gb, g2);
                    lemma_excludes_step(g0, gb, g2, edges@);
                    lemma_forced_extends(g0, gb, g2, edges@, EdgeState::Excluded);
                    assert forall|cx: usize, cy: usize, i: int|
                        ((cx < w && cy < y) || (cx < x + 1 && cy == y)) && p.is_clue(cx as int, cy as int, 0) && 0 <= i < 4
                            implies settled(g2, g0, #[trigger] cell_edge_list(cx, cy)[i], EdgeState::Excluded) by {
                        let e = cell_edge_list(cx, cy)[i];
                        lemma_cell_edges_in(g0, cx, cy);
                        assert(g0.has(e));
                        assert(gb.has(e));
                        assert(gb.state(e) == g0.state(e) || (g0.state(e) == EdgeState::Unset && gb.state(e) == EdgeState::Excluded));
                        if cx == x && cy == y {
                            assert(edges@[i] == e);
                            assert(edges@.contains(e));
                        } else {
                            assert(settled(gb, g0, e, EdgeState::Excluded));
                        }
                    }
                }
            }
            x = x + 1;
        }
        y = y + 1;
    }
}

/// The two edges of corner `k` (top-left, top-right, bottom-left, bottom-right)
/// and its cell.
pub open spec fn corner(w: usize, h: usize, k: int) -> (usize, usize, EdgeId, EdgeId) {
    if k == 0 {
        (0, 0, EdgeId::H(0, 0), EdgeId::V(0, 0))
    } else if k == 1 {
        ((w - 1) as usize, 0, EdgeId::H((w - 1) as usize, 0), EdgeId::V(w, 0))
    } else if k == 2 {
        (0, (h - 1) as usize, EdgeId::H(0, h), EdgeId::V(0, (h - 1) as usize))
    } else {
        ((w - 1) as usize, (h - 1) as usize, EdgeId::H((w - 1) as usize, h), EdgeId::V(w, (h - 1) as usize))
    }
}

/// The grid and log after the corner pattern at corners 0 to `k - 1`.
pub open spec fn corners_upto(p: PuzzleView, st: (Grid, Seq<EdgeId>), k: nat) -> (Grid, Seq<EdgeId>)
    decreases k,
{
    if k == 0 {
        st
    } else {
        let prev = corners_upto(p, st, (k - 1) as nat);
        let (cx, cy, e1, e2) = corner(p.width as usize, p.height as usize, k - 1);
        if p.is_clue(cx as int, cy as int, 1) {
            try_pair(prev, e1, e2, EdgeState::Excluded)
        } else if p.is_clue(cx as int, cy as int, 3) {
            try_pair(prev, e1, e2, EdgeState::Loop)
        } else {
            prev
        }
    }
}

/// The grid and log after the corner pattern.
pub open spec fn corners_state(p: PuzzleView, st: (Grid, Seq<EdgeId>)) -> (Grid, Seq<EdgeId>) {
    if p.width == 0 || p.height == 0 {
        st
    } else {
        corners_upto(p, st, 4)
    }
}

/// 1-in-corner forces the corner pair Excluded; 3-in-corner forces them Loop.
fn apply_pattern_corners<L: Lines>(puzzle: &Puzzle, sol: &mut L)
    requires
        puzzle.wf(),
        old(sol).inv(),
        puzzle@.width == old(sol).grid().width,
        puzzle@.height == old(sol).grid().height,
        old(sol).monotone_only(),
    ensures
        decides_more(*final(sol), *old(sol)),
        puzzle@.width > 0 && puzzle@.height > 0 ==> forall|k: int| 0 <= k < 4 ==> {
            let (cx, cy, e1, e2) = #[trigger] corner(puzzle@.width as usize, puzzle@.height as usize, k);
            (puzzle@.is_clue(cx as int, cy as int, 1) || puzzle@.is_clue(cx as int, cy as int, 3)) ==>
                final(sol).grid().state(e1) != EdgeState::Unset && final(sol).grid().state(e2) != EdgeState::Unset
        },
        keeps_solutions(puzzle@, old(sol).grid(), final(sol).grid()),
        old(sol).records() ==> (final(sol).grid(), final(sol).log()) == corners_state(puzzle@, (old(sol).grid(), old(sol).log())),
{
    let ghost p = puzzle@;
    let ghost g0 = sol.grid();
    proof {
        lemma_keeps_refl(p, g0);
    }
    let w = puzzle.width();
    let h = puzzle.height();
    if w == 0 || h == 0 {
        return;
    }
    proof {
        sol.lemma_inv();
    }
    let corners = [
        (0, 0, EdgeId::H(0, 0), EdgeId::V(0, 0)),
        (w - 1, 0, EdgeId::H(w - 1, 0), EdgeId::V(w, 0)),
        (0, h - 1, EdgeId::H(0, h), EdgeId::V(0, h - 1)),
        (w - 1, h - 1, EdgeId::H(w - 1, h), EdgeId::V(w, h - 1)),
    ];
    let mut k: usize = 0;
    while k < 4
        invariant
            puzzle.wf(),
            p == puzzle@,
            decides_more(*sol, *old(sol)),
            w == p.width,
            h == p.height,
            w == sol.grid().width,
            h == sol.grid().height,
            w > 0,
            h > 0,
            k <= 4,
            forall|j: int| 0 <= j < 4 ==> corners@[j] == corner(w, h, j),
            g0 == old(sol).grid(),
            keeps_solutions(p, g0, sol.grid()),
            sol.records() == old(sol).records(),
            old(sol).records() ==> (sol.grid(), sol.log()) == corners_upto(p, (g0, old(sol).log()), k as nat),
            forall|j: int| 0 <= j < k ==> {
                let (cx, cy, e1, e2) = #[trigger] corner(w, h, j);
                (p.is_clue(cx as int, cy as int, 1) || p.is_clue(cx as int, cy as int, 3)) ==>
                    sol.grid().state(e1) != EdgeState::Unset && sol.grid().state(e2) != EdgeState::Unset
            },
        decreases 4 - k,
    {
        let (cx, cy, e1, e2) = corners[k];
        proof {
            assert(corners@[k as int] == corner(w, h, k as int));
        }
        let ghost sb = (sol.grid(), sol.log());
        proof {
            lemma_corner_forces(p, w, h, k as int);
        }
        if is_clue(puzzle, cx, cy, 1) {
            let ghost g1 = sol.grid();
            try_set(sol, e1, EdgeState::Excluded);
            proof {
                lemma_solution_step(p, g0, g1, sol.grid(), e1, EdgeState::Excluded);
            }
            let ghost g2 = sol.grid();
            try_set(sol, e2, EdgeState::Excluded);
            proof {
                lemma_solution_step(p, g0, g2, sol.grid(), e2, EdgeState::Excluded);
            }
        } else if is_clue(puzzle, cx, cy, 3) {
            let ghost g1 = sol.grid();
            try_set(sol, e1, EdgeState::Loop);
            proof {
                lemma_solution_step(p, g0, g1, sol.grid(), e1, EdgeState::Loop);
            }
            let ghost g2 = sol.grid();
            try_set(sol, e2, EdgeState::Loop);
            proof {
                lemma_solution_step(p, g0, g2, sol.grid(), e2, EdgeState::Loop);
            }
        }
        k = k + 1;
    }
}


pub open spec fn decided(g: Grid, e: EdgeId) -> bool {
    g.state(e) != EdgeState::Unset
}

/// Horizontally adjacent 3-clues at (x, y) and (x+1, y).
pub open spec fn threes_across(p: PuzzleView, x: usize, y: usize) -> bool {
    x + 1 < p.width && y < p.height && p.is_clue(x as int, y as int, 3) && p.is_clue(x + 1, y as int, 3)
}

/// Vertically adjacent 3-clues at (x, y) and (x, y+1).
pub open spec fn threes_down(p: PuzzleView, x: usize, y: usize) -> bool {
    x < p.width && y + 1 < p.height && p.is_clue(x as int, y as int, 3) && p.is_clue(x as int, y + 1, 3)
}

/// The grid and log after the adjacent-threes pattern for the pair of cells
/// (x, y) and (x + 1, y).
pub open spec fn across_at(p: PuzzleView, st: (Grid, Seq<EdgeId>), x: usize, y: usize) -> (Grid, Seq<EdgeId>) {
    if threes_across(p, x, y) {
        let s1 = try_step(st, EdgeId::V(x, y), EdgeState::Loop);
        let s2 = try_step(s1, EdgeId::V((x + 1) as usize, y), EdgeState::Loop);
        let s3 = try_step(s2, EdgeId::V((x + 2) as usize, y), EdgeState::Loop);
        let s4 = if y > 0 { try_step(s3, EdgeId::V((x + 1) as usize, (y - 1) as usize), EdgeState::Excluded) } else { s3 };
        if y + 1 < p.height {
            try_step(s4, EdgeId::V((x + 1) as usize, (y + 1) as usize), EdgeState::Excluded)
        } else {
            s4
        }
    } else {
        st
    }
}

/// The grid and log after the adjacent-threes pattern for the pair of cells
/// (x, y) and (x, y + 1).
pub open spec fn down_at(p: PuzzleView, st: (Grid, Seq<EdgeId>), x: usize, y: usize) -> (Grid, Seq<EdgeId>) {
    if threes_down(p, x, y) {
        let s1 = try_step(st, EdgeId::H(x, y), EdgeState::Loop);
        let s2 = try_step(s1, EdgeId::H(x, (y + 1) as usize), EdgeState::Loop);
        let s3 = try_step(s2, EdgeId::H(x, (y + 2) as usize), EdgeState::Loop);
        let s4 = if x > 0 { try_step(s3, EdgeId::H((x - 1) as usize, (y + 1) as usize), EdgeState::Excluded) } else { s3 };
        if x + 1 < p.width {
            try_step(s4, EdgeId::H((x + 1) as usize, (y + 1) as usize), EdgeState::Excluded)
        } else {
            s4
        }
    } else {
        st
    }
}

/// How many left cells of side-by-side pairs a row has.
pub open spec fn pair_row(n: nat) -> nat {
    if n > 0 { (n - 1) as nat } else { 0 }
}

/// The side-by-side pairs tried before the pair whose left cell is (x, y), in
/// row-major order.
pub open spec fn across_scan(p: PuzzleView, st: (Grid, Seq<EdgeId>), y: nat, x: nat) -> (Grid, Seq<EdgeId>)
    decreases y, x,
{
    if x > 0 {
        across_at(p, across_scan(p, st, y, (x - 1) as nat), (x - 1) as usize, y as usize)
    } else if y > 0 {
        across_scan(p, st, (y - 1) as nat, pair_row(p.width))
    } else {
        st
    }
}

/// Every side-by-side pair, then the stacked pairs tried before the pair whose
/// top cell is (x, y), in row-major order.
pub open spec fn down_scan(p: PuzzleView, st: (Grid, Seq<EdgeId>), y: nat, x: nat) -> (Grid, Seq<EdgeId>)
    decreases y, x,
{
    if x > 0 {
        down_at(p, down_scan(p, st, y, (x - 1) as nat), (x - 1) as usize, y as usize)
    } else if y > 0 {
        down_scan(p, st, (y - 1) as nat, p.width)
    } else {
        across_scan(p, st, p.height, 0)
    }
}

/// The grid and log after the adjacent-threes pattern.
pub open spec fn adjacent_state(p: PuzzleView, st: (Grid, Seq<EdgeId>)) -> (Grid, Seq<EdgeId>) {
    down_scan(p, st, pair_row(p.height), 0)
}

/// Two adjacent 3-clues (horizontally or vertically) force 3 edges Loop (the outer
/// edge of each cell plus the shared edge between them) and 2 edges Excluded (the
/// perpendicular extensions of the shared edge on either side, when they exist).
///
/// The shared-edge-is-Loop deduction technically allows a degenerate case where the
/// 2-cell loop *is* the entire puzzle solution, but that never arises in real puzzles.
fn apply_pattern_adjacent_threes<L: Lines>(puzzle: &Puzzle, sol: &mut L)
    requires
        puzzle.wf(),
        old(sol).inv(),
        puzzle@.width == old(sol).grid().width,
        puzzle@.height == old(sol).grid().height,
        old(sol).monotone_only(),
    ensures
        decides_more(*final(sol), *old(sol)),
        forall|x: usize, y: usize| #[trigger] threes_across(puzzle@, x, y) ==> {
            &&& decided(final(sol).grid(), EdgeId::V(x, y))
            &&& decided(final(sol).grid(), EdgeId::V((x + 1) as usize, y))
            &&& decided(final(sol).grid(), EdgeId::V((x + 2) as usize, y))
        },
        forall|x: usize, y: usize| #[trigger] threes_down(puzzle@, x, y) ==> {
            &&& decided(final(sol).grid(), EdgeId::H(x, y))
            &&& decided(final(sol).grid(), EdgeId::H(x, (y + 1) as usize))
            &&& decided(final(sol).grid(), EdgeId::H(x, (y + 2) as usize))
        },
        keeps_patterned(puzzle@, old(sol).grid(), final(sol).grid()),
        old(sol).records() ==> (final(sol).grid(), final(sol).log()) == adjacent_state(puzzle@, (old(sol).grid(), old(sol).log())),
{
    let ghost st0 = (sol.grid(), sol.log());
    let ghost p = puzzle@;
    let ghost g0 = sol.grid();
    proof {
        sol.lemma_inv();
        lemma_keeps_refl(p, g0);
        lemma_keeps_patterned(p, g0, g0);
    }
    let w = puzzle.width();
    let h = puzzle.height();
    let mut y: usize = 0;
    while y < h
        invariant
            puzzle.wf(),
            p == puzzle@,
            decides_more(*sol, *old(sol)),
            g0 == old(sol).grid(),
            keeps_patterned(p, g0, sol.grid()),
            sol.records() == old(sol).records(),
            old(sol).records() ==> (sol.grid(), sol.log()) == across_scan(p, st0, y as nat, 0),
            w == p.width,
            h == p.height,
            w == sol.grid().width,
            h == sol.grid().height,
            w + 1 <= usize::MAX,
            h + 1 <= usize::MAX,
            y <= h,
            forall|cx: usize, cy: usize| cy < y && #[trigger] threes_across(p, cx, cy) ==> {
                &&& decided(sol.grid(), EdgeId::V(cx, cy))
                &&& decided(sol.grid(), EdgeId::V((cx + 1) as usize, cy))
                &&& decided(sol.grid(), EdgeId::V((cx + 2) as usize, cy))
            },
        decreases h - y,
    {
        let mut x: usize = 0;
        while x + 1 < w
            invariant
                puzzle.wf(),
                p == puzzle@,
                decides_more(*sol, *old(sol)),
                g0 == old(sol).grid(),
                keeps_patterned(p, g0, sol.grid()),
                sol.records() == old(sol).records(),
                old(sol).records() ==> (sol.grid(), sol.log()) == across_scan(p, st0, y as nat, x as nat),
                w == p.width,
                h == p.height,
                w == sol.grid().width,
                h == sol.grid().height,
                w + 1 <= usize::MAX,
                h + 1 <= usize::MAX,
                y < h,
                x <= w,
                forall|cx: usize, cy: usize| (cy < y || (cy == y && cx < x)) && #[trigger] threes_across(p, cx, cy) ==> {
                    &&& decided(sol.grid(), EdgeId::V(cx, cy))
                    &&& decided(sol.grid(), EdgeId::V((cx + 1) as usize, cy))
                    &&& decided(sol.grid(), EdgeId::V((cx + 2) as usize, cy))
                },
            decreases w - x,
        {
            if is_clue(puzzle, x, y, 3) && is_clue(puzzle, x + 1, y, 3) {
                proof {
                    lemma_across_forces(p, x, y);
                }
                let ghost gs = sol.grid();
                try_set(sol, EdgeId::V(x, y), EdgeState::Loop);
                proof {
                    lemma_pattern_step(p, g0, gs, sol.grid(), EdgeId::V(x, y), EdgeState::Loop);
                }
                let ghost gs = sol.grid();
                try_set(sol, EdgeId::V(x + 1, y), EdgeState::Loop);
                proof {
                    lemma_pattern_step(p, g0, gs, sol.grid(), EdgeId::V((x + 1) as usize, y), EdgeState::Loop);
                }
                let ghost gs = sol.grid();
                try_set(sol, EdgeId::V(x + 2, y), EdgeState::Loop);
                proof {
                    lemma_pattern_step(p, g0, gs, sol.grid(), EdgeId::V((x + 2) as usize, y), EdgeState::Loop);
                }
                if y > 0 {
                    let ghost gs = sol.grid();
                    try_set(sol, EdgeId::V(x + 1, y - 1), EdgeState::Excluded);
                    proof {
                        lemma_pattern_step(p, g0, gs, sol.grid(), EdgeId::V((x + 1) as usize, (y - 1) as usize), EdgeState::Excluded);
                    }
                }
                if y + 1 < h {
                    let ghost gs = sol.grid();
                    try_set(sol, EdgeId::V(x + 1, y + 1), EdgeState::Excluded);
                    proof {
                        lemma_pattern_step(p, g0, gs, sol.grid(), EdgeId::V((x + 1) as usize, (y + 1) as usize), EdgeState::Excluded);
                    }
                }
            }
            x = x + 1;
        }
        y = y + 1;
    }
    let mut y: usize = 0;
    while y + 1 < h
        invariant
            puzzle.wf(),
            p == puzzle@,
            decides_more(*sol, *old(sol)),
            g0 == old(sol).grid(),
            keeps_patterned(p, g0, sol.grid()),
            sol.records() == old(sol).records(),
            old(sol).records() ==> (sol.grid(), sol.log()) == down_scan(p, st0, y as nat, 0),
            y <= pair_row(h as nat),
            w == p.width,
            h == p.height,
            w == sol.grid().width,
            h == sol.grid().height,
            w + 1 <= usize::MAX,
            h + 1 <= usize::MAX,
            y <= h,
            forall|cx: usize, cy: usize| #[trigger] threes_across(p, cx, cy) ==> {
                &&& decided(sol.grid(), EdgeId::V(cx, cy))
                &&& decided(sol.grid(), EdgeId::V((cx + 1) as usize, cy))
                &&& decided(sol.grid(), EdgeId::V((cx + 2) as usize, cy))
            },
            forall|cx: usize, cy: usize| cy < y && #[trigger] threes_down(p, cx, cy) ==> {
                &&& decided(sol.grid(), EdgeId::H(cx, cy))
                &&& decided(sol.grid(), EdgeId::H(cx, (cy + 1) as usize))
                &&& decided(sol.grid(), EdgeId::H(cx, (cy + 2) as usize))
            },
        decreases h - y,
    {
        let mut x: usize = 0;
        while x < w
            invariant
                puzzle.wf(),
                p == puzzle@,
                decides_more(*sol, *old(sol)),
                g0 == old(sol).grid(),
                keeps_patterned(p, g0, sol.grid()),
                sol.records() == old(sol).records(),
                old(sol).records() ==> (sol.grid(), sol.log()) == down_scan(p, st0, y as nat, x as nat),
                w == p.width,
                h == p.height,
                w == sol.grid().width,
                h == sol.grid().height,
                w + 1 <= usize::MAX,
                h + 1 <= usize::MAX,
                y + 1 < h,
                x <= w,
                forall|cx: usize, cy: usize| #[trigger] threes_across(p, cx, cy) ==> {
                    &&& decided(sol.grid(), EdgeId::V(cx, cy))
                    &&& decided(sol.grid(), EdgeId::V((cx + 1) as usize, cy))
                    &&& decided(sol.grid(), EdgeId::V((cx + 2) as usize, cy))
                },
                forall|cx: usize, cy: usize| (cy < y || (cy == y && cx < x)) && #[trigger] threes_down(p, cx, cy) ==> {
                    &&& decided(sol.grid(), EdgeId::H(cx, cy))
                    &&& decided(sol.grid(), EdgeId::H(cx, (cy + 1) as usize))
                    &&& decided(sol.grid(), EdgeId::H(cx, (cy + 2) as usize))
                },
            decreases w - x,
        {
            if is_clue(puzzle, x, y, 3) && is_clue(puzzle, x, y + 1, 3) {
                proof {
                    lemma_down_forces(p, x, y);
                }
                let ghost gs = sol.grid();
                try_set(sol, EdgeId::H(x, y), EdgeState::Loop);
                proof {
                    lemma_pattern_step(p, g0, gs, sol.grid(), EdgeId::H(x, y), EdgeState::Loop);
                }
                let ghost gs = sol.grid();
                try_set(sol, EdgeId::H(x, y + 1), EdgeState::Loop);
                proof {
                    lemma_pattern_step(p, g0, gs, sol.grid(), EdgeId::H(x, (y + 1) as usize), EdgeState::Loop);
                }
                let ghost gs = sol.grid();
                try_set(sol, EdgeId::H(x, y + 2), EdgeState::Loop);
                proof {
                    lemma_pattern_step(p, g0, gs, sol.grid(), EdgeId::H(x, (y + 2) as usize), EdgeState::Loop);
                }
                if x > 0 {
                    let ghost gs = sol.grid();
                    try_set(sol, EdgeId::H(x - 1, y + 1), EdgeState::Excluded);
                    proof {
                        lemma_pattern_step(p, g0, gs, sol.grid(), EdgeId::H((x - 1) as usize, (y + 1) as usize), EdgeState::Excluded);
                    }
                }
                if x + 1 < w {
                    let ghost gs = sol.grid();
                    try_set(sol, EdgeId::H(x + 1, y + 1), EdgeState::Excluded);
                    proof {
                        lemma_pattern_step(p, g0, gs, sol.grid(), EdgeId::H((x + 1) as usize, (y + 1) as usize), EdgeState::Excluded);
                    }
                }
            }
            x = x + 1;
        }
        y = y + 1;
    }
}

/// Diagonally adjacent 3-clues at (x, y) and (x + dx, y + dy).
pub open spec fn threes_diagonal(p: PuzzleView, x: usize, y: usize, dx: int, dy: int) -> bool {
    &&& x < p.width
    &&& y < p.height
    &&& 0 <= x + dx < p.width
    &&& 0 <= y + dy < p.height
    &&& p.is_clue(x as int, y as int, 3)
    &&& p.is_clue(x + dx, y + dy, 3)
}

/// Two diagonally adjacent 3-clues force both "outer" edges of each cell
/// (the two edges on the opposite corner from the diagonal) to Loop.
fn apply_pattern_diagonal_threes<L: Lines>(puzzle: &Puzzle, sol: &mut L)
    requires
        puzzle.wf(),
        old(sol).inv(),
        puzzle@.width == old(sol).grid().width,
        puzzle@.height == old(sol).grid().height,
        old(sol).monotone_only(),
    ensures
        decides_more(*final(sol), *old(sol)),
        forall|x: usize, y: usize| #[trigger] threes_diagonal(puzzle@, x, y, 1, 1) ==>
            decided(final(sol).grid(), EdgeId::H(x, y)) && decided(final(sol).grid(), EdgeId::V(x, y)),
        forall|x: usize, y: usize| #[trigger] threes_diagonal(puzzle@, x, y, -1, 1) ==>
            decided(final(sol).grid(), EdgeId::H(x, y)) && decided(final(sol).grid(), EdgeId::V((x + 1) as usize, y)),
        forall|x: usize, y: usize| #[trigger] threes_diagonal(puzzle@, x, y, 1, -1) ==>
            decided(final(sol).grid(), EdgeId::H(x, (y + 1) as usize)) && decided(final(sol).grid(), EdgeId::V(x, y)),
        forall|x: usize, y: usize| #[trigger] threes_diagonal(puzzle@, x, y, -1, -1) ==>
            decided(final(sol).grid(), EdgeId::H(x, (y + 1) as usize)) && decided(final(sol).grid(), EdgeId::V((x + 1) as usize, y)),
        keeps_solutions(puzzle@, old(sol).grid(), final(sol).grid()),
        old(sol).records() ==> (final(sol).grid(), final(sol).log()) == diagonal_state(puzzle@, (old(sol).grid(), old(sol).log())),
{
    let ghost st0 = (sol.grid(), sol.log());
    let ghost p = puzzle@;
    proof {
        sol.lemma_inv();
        lemma_keeps_refl(p, sol.grid());
    }
    let w = puzzle.width();
    let h = puzzle.height();
    let mut y: usize = 0;
    while y < h
        invariant
            puzzle.wf(),
            p == puzzle@,
            decides_more(*sol, *old(sol)),
            keeps_solutions(p, old(sol).grid(), sol.grid()),
            sol.records() == old(sol).records(),
            st0 == (old(sol).grid(), old(sol).log()),
            old(sol).records() ==> (sol.grid(), sol.log()) == diag_scan(p, st0, y as nat, 0),
                sol.monotone_only(),
            w == p.width,
            h == p.height,
            w == sol.grid().width,
            h == sol.grid().height,
            w + 1 <= usize::MAX,
            h + 1 <= usize::MAX,
            y <= h,
            forall|cx: usize, cy: usize| cy < y && #[trigger] threes_diagonal(p, cx, cy, 1, 1) ==>
                decided(sol.grid(), EdgeId::H(cx, cy)) && decided(sol.grid(), EdgeId::V(cx, cy)),
            forall|cx: usize, cy: usize| cy < y && #[trigger] threes_diagonal(p, cx, cy, -1, 1) ==>
                decided(sol.grid(), EdgeId::H(cx, cy)) && decided(sol.grid(), EdgeId::V((cx + 1) as usize, cy)),
            forall|cx: usize, cy: usize| cy < y && #[trigger] threes_diagonal(p, cx, cy, 1, -1) ==>
                decided(sol.grid(), EdgeId::H(cx, (cy + 1) as usize)) && decided(sol.grid(), EdgeId::V(cx, cy)),
            forall|cx: usize, cy: usize| cy < y && #[trigger] threes_diagonal(p, cx, cy, -1, -1) ==>
                decided(sol.grid(), EdgeId::H(cx, (cy + 1) as usize)) && decided(sol.grid(), EdgeId::V((cx + 1) as usize, cy)),
        decreases h - y,
    {
        let mut x: usize = 0;
        while x < w
            invariant
                puzzle.wf(),
                p == puzzle@,
                decides_more(*sol, *old(sol)),
                keeps_solutions(p, old(sol).grid(), sol.grid()),
                sol.records() == old(sol).records(),
                st0 == (old(sol).grid(), old(sol).log()),
                old(sol).records() ==> (sol.grid(), sol.log()) == diag_scan(p, st0, y as nat, x as nat),
                sol.monotone_only(),
                w == p.width,
                h == p.height,
                w == sol.grid().width,
                h == sol.grid().height,
                w + 1 <= usize::MAX,
                h + 1 <= usize::MAX,
                y < h,
                x <= w,
                forall|cx: usize, cy: usize| (cy < y || (cy == y && cx < x)) && #[trigger] threes_diagonal(p, cx, cy, 1, 1) ==>
                    decided(sol.grid(), EdgeId::H(cx, cy)) && decided(sol.grid(), EdgeId::V(cx, cy)),
                forall|cx: usize, cy: usize| (cy < y || (cy == y && cx < x)) && #[trigger] threes_diagonal(p, cx, cy, -1, 1) ==>
                    decided(sol.grid(), EdgeId::H(cx, cy)) && decided(sol.grid(), EdgeId::V((cx + 1) as usize, cy)),
                forall|cx: usize, cy: usize| (cy < y || (cy == y && cx < x)) && #[trigger] threes_diagonal(p, cx, cy, 1, -1) ==>
                    decided(sol.grid(), EdgeId::H(cx, (cy + 1) as usize)) && decided(sol.grid(), EdgeId::V(cx, cy)),
                forall|cx: usize, cy: usize| (cy < y || (cy == y && cx < x)) && #[trigger] threes_diagonal(p, cx, cy, -1, -1) ==>
                    decided(sol.grid(), EdgeId::H(cx, (cy + 1) as usize)) && decided(sol.grid(), EdgeId::V((cx + 1) as usize, cy)),
            decreases w - x,
        {
            let ghost gb = sol.grid();
            let ghost sb = *sol;
            apply_diagonal_at(puzzle, sol, x, y);
            proof {
                let g2 = sol.grid();
                lemma_extends_trans(old(sol).grid(), gb, g2);
                lemma_keeps_trans(p, old(sol).grid(), gb, g2);
                assert forall|cx: usize, cy: usize| (cy < y || (cy == y && cx < x + 1)) && #[trigger] threes_diagonal(p, cx, cy, 1, 1)
                    implies decided(g2, EdgeId::H(cx, cy)) && decided(g2, EdgeId::V(cx, cy)) by {
                    if !(cx == x && cy == y) {
                        lemma_decided_stays(gb, g2, EdgeId::H(cx, cy));
                        lemma_decided_stays(gb, g2, EdgeId::V(cx, cy));
                    }
                }
                assert forall|cx: usize, cy: usize| (cy < y || (cy == y && cx < x + 1)) && #[trigger] threes_diagonal(p, cx, cy, -1, 1)
                    implies decided(g2, EdgeId::H(cx, cy)) && decided(g2, EdgeId::V((cx + 1) as usize, cy)) by {
                    if !(cx == x && cy == y) {
                        lemma_decided_stays(gb, g2, EdgeId::H(cx, cy));
                        lemma_decided_stays(gb, g2, EdgeId::V((cx + 1) as usize, cy));
                    }
                }
                assert forall|cx: usize, cy: usize| (cy < y || (cy == y && cx < x + 1)) && #[trigger] threes_diagonal(p, cx, cy, 1, -1)
                    implies decided(g2, EdgeId::H(cx, (cy + 1) as usize)) && decided(g2, EdgeId::V(cx, cy)) by {
                    if !(cx == x && cy == y) {
                        lemma_decided_stays(gb, g2, EdgeId::H(cx, (cy + 1) as usize));
                        lemma_decided_stays(gb, g2, EdgeId::V(cx, cy));
                    }
                }
                assert forall|cx: usize, cy: usize| (cy < y || (cy == y && cx < x + 1)) && #[trigger] threes_diagonal(p, cx, cy, -1, -1)
                    implies decided(g2, EdgeId::H(cx, (cy + 1) as usize)) && decided(g2, EdgeId::V((cx + 1) as usize, cy)) by {
                    if !(cx == x && cy == y) {
                        lemma_decided_stays(gb, g2, EdgeId::H(cx, (cy + 1) as usize));
                        lemma_decided_stays(gb, g2, EdgeId::V((cx + 1) as usize, cy));
                    }
                }
            }
            x = x + 1;
        }
        y = y + 1;
    }
}


/// The grid and log after the diagonal-threes pattern at cell (x, y).
pub open spec fn diag_at(p: PuzzleView, st: (Grid, Seq<EdgeId>), x: usize, y: usize) -> (Grid, Seq<EdgeId>) {
    if p.is_clue(x as int, y as int, 3) {
        let s1 = if threes_diagonal(p, x, y, 1, 1) {
            try_pair(st, EdgeId::H(x, y), EdgeId::V(x, y), EdgeState::Loop)
        } else {
            st
        };
        let s2 = if threes_diagonal(p, x, y, -1, 1) {
            try_pair(s1, EdgeId::H(x, y), EdgeId::V((x + 1) as usize, y), EdgeState::Loop)
        } else {
            s1
        };
        let s3 = if threes_diagonal(p, x, y, 1, -1) {
            try_pair(s2, EdgeId::H(x, (y + 1) as usize), EdgeId::V(x, y), EdgeState::Loop)
        } else {
            s2
        };
        if threes_diagonal(p, x, y, -1, -1) {
            try_pair(s3, EdgeId::H(x, (y + 1) as usize), EdgeId::V((x + 1) as usize, y), EdgeState::Loop)
        } else {
            s3
        }
    } else {
        st
    }
}

/// The grid and log after the diagonal-threes pattern at every cell before
/// (x, y), in row-major order.
pub open spec fn diag_scan(p: PuzzleView, st: (Grid, Seq<EdgeId>), y: nat, x: nat) -> (Grid, Seq<EdgeId>)
    decreases y, x,
{
    if x > 0 {
        diag_at(p, diag_scan(p, st, y, (x - 1) as nat), (x - 1) as usize, y as usize)
    } else if y > 0 {
        diag_scan(p, st, (y - 1) as nat, p.width)
    } else {
        st
    }
}

/// The grid and log after the diagonal-threes pattern.
pub open spec fn diagonal_state(p: PuzzleView, st: (Grid, Seq<EdgeId>)) -> (Grid, Seq<EdgeId>) {
    diag_scan(p, st, p.height, 0)
}

/// The diagonal-threes pattern at cell (x, y).
fn apply_diagonal_at<L: Lines>(puzzle: &Puzzle, sol: &mut L, x: usize, y: usize)
    requires
        puzzle.wf(),
        old(sol).inv(),
        puzzle@.width == old(sol).grid().width,
        puzzle@.height == old(sol).grid().height,
        old(sol).monotone_only(),
        x < puzzle@.width,
        y < puzzle@.height,
    ensures
        decides_more(*final(sol), *old(sol)),
        threes_diagonal(puzzle@, x, y, 1, 1) ==>
            decided(final(sol).grid(), EdgeId::H(x, y)) && decided(final(sol).grid(), EdgeId::V(x, y)),
        threes_diagonal(puzzle@, x, y, -1, 1) ==>
            decided(final(sol).grid(), EdgeId::H(x, y)) && decided(final(sol).grid(), EdgeId::V((x + 1) as usize, y)),
        threes_diagonal(puzzle@, x, y, 1, -1) ==>
            decided(final(sol).grid(), EdgeId::H(x, (y + 1) as usize)) && decided(final(sol).grid(), EdgeId::V(x, y)),
        threes_diagonal(puzzle@, x, y, -1, -1) ==>
            decided(final(sol).grid(), EdgeId::H(x, (y + 1) as usize)) && decided(final(sol).grid(), EdgeId::V((x + 1) as usize, y)),
        keeps_solutions(puzzle@, old(sol).grid(), final(sol).grid()),
        final(sol).records() == old(sol).records(),
        old(sol).records() ==> (final(sol).grid(), final(sol).log()) == diag_at(puzzle@, (old(sol).grid(), old(sol).log()), x, y),
{
    let ghost p = puzzle@;
    let ghost g0 = sol.grid();
    let w = puzzle.width();
    let h = puzzle.height();
    proof {
        sol.lemma_inv();
        lemma_keeps_refl(p, g0);
    }
    if is_clue(puzzle, x, y, 3) {
        // Down-right neighbour (x+1, y+1)
        if x + 1 < w && y + 1 < h && is_clue(puzzle, x + 1, y + 1, 3) {
            let ghost gs = sol.grid();
            proof {
                lemma_diagonal_forces(p, x, y, 1, 1);
            }
            draw_pair(sol, EdgeId::H(x, y), EdgeId::V(x, y), Ghost(p));
            proof {
                lemma_keeps_trans(p, g0, gs, sol.grid());
                lemma_extends_trans(g0, gs, sol.grid());
                lemma_cell_edges_stay(gs, sol.grid(), x, y);
            }
        }
        // Down-left neighbour (x-1, y+1)
        if x > 0 && y + 1 < h && is_clue(puzzle, x - 1, y + 1, 3) {
            let ghost gs = sol.grid();
            proof {
                lemma_diagonal_forces(p, x, y, -1, 1);
            }
            draw_pair(sol, EdgeId::H(x, y), EdgeId::V(x + 1, y), Ghost(p));
            proof {
                lemma_keeps_trans(p, g0, gs, sol.grid());
                lemma_extends_trans(g0, gs, sol.grid());
                lemma_cell_edges_stay(gs, sol.grid(), x, y);
            }
        }
        // Up-right neighbour (x+1, y-1)
        if x + 1 < w && y > 0 && is_clue(puzzle, x + 1, y - 1, 3) {
            let ghost gs = sol.grid();
            proof {
                lemma_diagonal_forces(p, x, y, 1, -1);
            }
            draw_pair(sol, EdgeId::H(x, y + 1), EdgeId::V(x, y), Ghost(p));
            proof {
                lemma_keeps_trans(p, g0, gs, sol.grid());
                lemma_extends_trans(g0, gs, sol.grid());
                lemma_cell_edges_stay(gs, sol.grid(), x, y);
            }
        }
        // Up-left neighbour (x-1, y-1)
        if x > 0 && y > 0 && is_clue(puzzle, x - 1, y - 1, 3) {
            let ghost gs = sol.grid();
            proof {
                lemma_diagonal_forces(p, x, y, -1, -1);
            }
            draw_pair(sol, EdgeId::H(x, y + 1), EdgeId::V(x + 1, y), Ghost(p));
            proof {
                lemma_keeps_trans(p, g0, gs, sol.grid());
                lemma_extends_trans(g0, gs, sol.grid());
                lemma_cell_edges_stay(gs, sol.grid(), x, y);
            }
        }
    }
}

/// The decided edges of cell (x, y) stay decided in an extension.
proof fn lemma_cell_edges_stay(g1: Grid, g2: Grid, x: usize, y: usize)
    requires
        g2.extends(g1),
        x < g1.width,
        y < g1.height,
    ensures
        decided(g1, EdgeId::H(x, y)) ==> decided(g2, EdgeId::H(x, y)),
        decided(g1, EdgeId::H(x, (y + 1) as usize)) ==> decided(g2, EdgeId::H(x, (y + 1) as usize)),
        decided(g1, EdgeId::V(x, y)) ==> decided(g2, EdgeId::V(x, y)),
        decided(g1, EdgeId::V((x + 1) as usize, y)) ==> decided(g2, EdgeId::V((x + 1) as usize, y)),
{
    lemma_cell_edges_in(g1, x, y);
    let es = cell_edge_list(x, y);
    assert(g1.has(es[0]) && g1.has(es[1]) && g1.has(es[2]) && g1.has(es[3]));
}

/// Draws `e1` and `e2` where they are undecided, when every solution draws both.
fn draw_pair<L: Lines>(sol: &mut L, e1: EdgeId, e2: EdgeId, Ghost(p): Ghost<PuzzleView>)
    requires
        old(sol).inv(),
        fits(p, old(sol).grid()),
        old(sol).grid().has(e1),
        old(sol).grid().has(e2),
        solutions_force(p, e1, EdgeState::Loop),
        solutions_force(p, e2, EdgeState::Loop),
    ensures
        decides_more(*final(sol), *old(sol)),
        decided(final(sol).grid(), e1),
        decided(final(sol).grid(), e2),
        keeps_solutions(p, old(sol).grid(), final(sol).grid()),
        final(sol).records() == old(sol).records(),
        old(sol).records() ==> (final(sol).grid(), final(sol).log()) == try_pair((old(sol).grid(), old(sol).log()), e1, e2, EdgeState::Loop),
{
    let ghost g0 = sol.grid();
    proof {
        lemma_keeps_refl(p, g0);
    }
    try_set(sol, e1, EdgeState::Loop);
    let ghost g1 = sol.grid();
    proof {
        lemma_solution_step(p, g0, g0, g1, e1, EdgeState::Loop);
    }
    try_set(sol, e2, EdgeState::Loop);
    proof {
        lemma_solution_step(p, g0, g1, sol.grid(), e2, EdgeState::Loop);
    }
}


// ---------------------------------------------------------------------------
// Loop-closing rule, worklist propagation and lookahead
// ---------------------------------------------------------------------------

/// The puzzle and the solver grid have the same size, and the grid's vertices
/// can be numbered.
pub open spec fn fits(p: PuzzleView, g: Grid) -> bool {
    &&& p.width == g.width
    &&& p.height == g.height
}

/// Excludes any unset edge whose two endpoints are already connected via Loop edges,
/// unless setting the edge to Loop would complete the puzzle (`is_solved` returns true).
/// Reports whether any edge was excluded; when none was, every such edge would
/// complete the puzzle.
#[verifier::rlimit(50)]
#[verifier::spinoff_prover]
fn apply_no_premature_loop(puzzle: &Puzzle, sol: &mut SolverLines) -> (changed: bool)
    requires
        puzzle.wf(),
        old(sol).inv(),
        fits(puzzle@, old(sol).grid()),
    ensures
        decides_more(*final(sol), *old(sol)),
        final(sol).grid().only_excludes_from(old(sol).grid()),
        changed ==> final(sol).unset_count() < old(sol).unset_count(),
        !changed ==> *final(sol) == *old(sol) && no_premature_fixpoint(puzzle@, old(sol).grid()),
        keeps_solutions(puzzle@, old(sol).grid(), final(sol).grid()),
        final(sol).grid() == closed_off(puzzle@, old(sol).grid()),
        final(sol).pending() == old(sol).pending() + newly_set(old(sol).grid(), closing_list(puzzle@, old(sol).grid())),
        changed == (closed_off(puzzle@, old(sol).grid()) != old(sol).grid()),
{
    let ghost p = puzzle@;
    let ghost g = sol.grid();
    proof {
        sol.lemma_inv();
        sol.lemma_vertices_fit();
    }
    let w = puzzle.width();
    let h = puzzle.height();
    let ghost pend = |e: EdgeId| g.has(e) && g.state(e) == EdgeState::Unset && g.loop_connected(ends(g.width, e).0, ends(g.width, e).1);
    let mut to_exclude: Vec<EdgeId> = Vec::new();
    let mut y: usize = 0;
    while y <= h
        invariant
            puzzle.wf(),
            sol.inv(),
            p == puzzle@,
            g == sol.grid(),
            *sol == *old(sol),
            fits(p, g),
            w == g.width,
            h == g.height,
            w + 1 <= usize::MAX,
            h + 1 <= usize::MAX,
            (w + 1) * (h + 1) <= u32::MAX,
            y <= h + 1,
            to_exclude@ == closing_h(p, g, y as nat, 0),
            pend == (|e: EdgeId| g.has(e) && g.state(e) == EdgeState::Unset && g.loop_connected(ends(g.width, e).0, ends(g.width, e).1)),
            forall|i: int| 0 <= i < to_exclude@.len() ==> pend(#[trigger] to_exclude@[i]) && !is_solution(p, g.with(to_exclude@[i], EdgeState::Loop)),
            forall|e: EdgeId| #[trigger] pend(e) && crate::solver_lines::scanned(e, false, y as int, 0) ==> is_solution(p, g.with(e, EdgeState::Loop)) || to_exclude@.contains(e),
        decreases h + 1 - y,
    {
        let mut x: usize = 0;
        while x < w
            invariant
                puzzle.wf(),
                sol.inv(),
                p == puzzle@,
                g == sol.grid(),
                *sol == *old(sol),
                fits(p, g),
                w == g.width,
                h == g.height,
                w + 1 <= usize::MAX,
                h + 1 <= usize::MAX,
                (w + 1) * (h + 1) <= u32::MAX,
                y <= h,
                x <= w,
                to_exclude@ == closing_h(p, g, y as nat, x as nat),
                pend == (|e: EdgeId| g.has(e) && g.state(e) == EdgeState::Unset && g.loop_connected(ends(g.width, e).0, ends(g.width, e).1)),
                forall|i: int| 0 <= i < to_exclude@.len() ==> pend(#[trigger] to_exclude@[i]) && !is_solution(p, g.with(to_exclude@[i], EdgeState::Loop)),
                forall|e: EdgeId| #[trigger] pend(e) && crate::solver_lines::scanned(e, false, y as int, x as int) ==> is_solution(p, g.with(e, EdgeState::Loop)) || to_exclude@.contains(e),
            decreases w - x,
        {
            let e = EdgeId::H(x, y);
            let ghost before = to_exclude@;
            if sol.h_edge(x, y) == EdgeState::Unset && sol.loop_connected((x, y), (x + 1, y)) {
                let mut tentative = sol.clone();
                tentative.set_edge(e, EdgeState::Loop);
                if !is_solved(puzzle, &tentative) {
                    to_exclude.push(e);
                }
            }
            proof {
                assert forall|f: EdgeId| #[trigger] pend(f) && crate::solver_lines::scanned(f, false, y as int, (x + 1) as int)
                    implies is_solution(p, g.with(f, EdgeState::Loop)) || to_exclude@.contains(f) by {
                    if f == e {
                        if !is_solution(p, g.with(f, EdgeState::Loop)) {
                            assert(to_exclude@[to_exclude@.len() - 1] == e);
                        }
                    } else if !is_solution(p, g.with(f, EdgeState::Loop)) {
                        assert(before.contains(f));
                        let k = choose|k: int| 0 <= k < before.len() && before[k] == f;
                        assert(to_exclude@[k] == f);
                    }
                }
            }
            x = x + 1;
        }
        y = y + 1;
    }
    let mut y: usize = 0;
    while y < h
        invariant
            puzzle.wf(),
            sol.inv(),
            p == puzzle@,
            g == sol.grid(),
            *sol == *old(sol),
            fits(p, g),
            w == g.width,
            h == g.height,
            w + 1 <= usize::MAX,
            h + 1 <= usize::MAX,
            (w + 1) * (h + 1) <= u32::MAX,
            y <= h,
            to_exclude@ == closing_v(p, g, y as nat, 0),
            pend == (|e: EdgeId| g.has(e) && g.state(e) == EdgeState::Unset && g.loop_connected(ends(g.width, e).0, ends(g.width, e).1)),
            forall|i: int| 0 <= i < to_exclude@.len() ==> pend(#[trigger] to_exclude@[i]) && !is_solution(p, g.with(to_exclude@[i], EdgeState::Loop)),
            forall|e: EdgeId| #[trigger] pend(e) && crate::solver_lines::scanned(e, true, y as int, 0) ==> is_solution(p, g.with(e, EdgeState::Loop)) || to_exclude@.contains(e),
        decreases h - y,
    {
        let mut x: usize = 0;
        while x <= w
            invariant
                puzzle.wf(),
                sol.inv(),
                p == puzzle@,
                g == sol.grid(),
                *sol == *old(sol),
                fits(p, g),
                w == g.width,
                h == g.height,
                w + 1 <= usize::MAX,
                h + 1 <= usize::MAX,
                (w + 1) * (h + 1) <= u32::MAX,
                y < h,
                x <= w + 1,
                to_exclude@ == closing_v(p, g, y as nat, x as nat),
                pend == (|e: EdgeId| g.has(e) && g.state(e) == EdgeState::Unset && g.loop_connected(ends(g.width, e).0, ends(g.width, e).1)),
                forall|i: int| 0 <= i < to_exclude@.len() ==> pend(#[trigger] to_exclude@[i]) && !is_solution(p, g.with(to_exclude@[i], EdgeState::Loop)),
                forall|e: EdgeId| #[trigger] pend(e) && crate::solver_lines::scanned(e, true, y as int, x as int) ==> is_solution(p, g.with(e, EdgeState::Loop)) || to_exclude@.contains(e),
            decreases w + 1 - x,
        {
            let e = EdgeId::V(x, y);
            let ghost before = to_exclude@;
            if sol.v_edge(x, y) == EdgeState::Unset && sol.loop_connected((x, y), (x, y + 1)) {
                let mut tentative = sol.clone();
                tentative.set_edge(e, EdgeState::Loop);
                if !is_solved(puzzle, &tentative) {
                    to_exclude.push(e);
                }
            }
            proof {
                assert forall|f: EdgeId| #[trigger] pend(f) && crate::solver_lines::scanned(f, true, y as int, (x + 1) as int)
                    implies is_solution(p, g.with(f, EdgeState::Loop)) || to_exclude@.contains(f) by {
                    if f == e {
                        if !is_solution(p, g.with(f, EdgeState::Loop)) {
                            assert(to_exclude@[to_exclude@.len() - 1] == e);
                        }
                    } else if !is_solution(p, g.with(f, EdgeState::Loop)) {
                        assert(before.contains(f));
                        let k = choose|k: int| 0 <= k < before.len() && before[k] == f;
                        assert(to_exclude@[k] == f);
                    }
                }
            }
            x = x + 1;
        }
        y = y + 1;
    }
    proof {
        assert forall|e: EdgeId| #[trigger] pend(e) implies crate::solver_lines::scanned(e, true, h as int, 0) by {}
        if to_exclude@.len() == 0 {
            assert forall|e: EdgeId| #[trigger] g.has(e) && g.state(e) == EdgeState::Unset && g.loop_connected(
                ends(g.width, e).0,
                ends(g.width, e).1,
            ) implies is_solution(p, g.with(e, EdgeState::Loop)) by {
                assert(pend(e));
            }
        }
    }
    let mut changed = false;
    let mut i: usize = 0;
    while i < to_exclude.len()
        invariant
            sol.inv(),
            g == old(sol).grid(),
            decides_more(*sol, *old(sol)),
            sol.grid().only_excludes_from(g),
            i <= to_exclude@.len(),
            forall|k: int| 0 <= k < to_exclude@.len() ==> g.has(#[trigger] to_exclude@[k]) && g.state(to_exclude@[k]) == EdgeState::Unset,
            forall|k: int| 0 <= k < to_exclude@.len() ==> g.loop_connected(ends(g.width, #[trigger] to_exclude@[k]).0, ends(g.width, to_exclude@[k]).1) && !is_solution(p, g.with(to_exclude@[k], EdgeState::Loop)),
            p == puzzle@,
            fits(p, g),
            g.width + 1 <= usize::MAX,
            g.height + 1 <= usize::MAX,
            keeps_solutions(p, g, sol.grid()),
            changed == (i > 0),
            to_exclude@.len() == 0 ==> no_premature_fixpoint(p, g),
            changed ==> sol.unset_count() < old(sol).unset_count(),
            !changed ==> *sol == *old(sol),
            forced_by(sol.grid(), g, to_exclude@.take(i as int), EdgeState::Excluded),
            sol.pending() == old(sol).pending() + newly_set(g, to_exclude@.take(i as int)),
        decreases to_exclude@.len() - i,
    {
        let ghost gb = sol.grid();
        let e = to_exclude[i];
        proof {
            assert(g.has(to_exclude@[i as int]));
            sol.lemma_log_is_pending();
        }
        let ghost sb = *sol;
        if try_set(sol, e, EdgeState::Excluded) {
            changed = true;
        }
        proof {
            sol.lemma_log_is_pending();
            let t1 = to_exclude@.take(i + 1);
            assert(t1.drop_last() =~= to_exclude@.take(i as int));
            assert(t1.last() == e);
            if to_exclude@.take(i as int).contains(e) {
                assert(gb.state(e) == EdgeState::Excluded);
            }
            assert(old(sol).pending() + newly_set(g, to_exclude@.take(i as int)) + seq![e] =~= old(sol).pending()
                + (newly_set(g, to_exclude@.take(i as int)) + seq![e]));
            assert(newly_set(g, to_exclude@.take(i as int)) + Seq::<EdgeId>::empty() =~= newly_set(g, to_exclude@.take(i as int)));
            lemma_set_one_forced(gb, sol.grid(), e, EdgeState::Excluded);
            lemma_forced_push(g, gb, sol.grid(), to_exclude@.take(i as int), e, EdgeState::Excluded);
            assert(to_exclude@.take(i as int).push(e) =~= to_exclude@.take(i + 1));
            lemma_excludes_step(g, gb, sol.grid(), seq![e]);
            lemma_forced_extends(g, gb, sol.grid(), seq![e], EdgeState::Excluded);
            assert(g.loop_connected(ends(g.width, to_exclude@[i as int]).0, ends(g.width, to_exclude@[i as int]).1));
            lemma_closing_excluded(p, g, gb, e);
            lemma_forced_keeps(p, gb, sol.grid(), seq![e], EdgeState::Excluded);
            lemma_keeps_trans(p, g, gb, sol.grid());
        }
        if i == 0 {
            assert(changed);
        }
        i = i + 1;
    }
    proof {
        if !changed {
            assert(to_exclude@.len() == 0);
        }
        assert(to_exclude@.take(i as int) =~= to_exclude@);
        assert(to_exclude@ == closing_list(p, g));
        sol.lemma_inv();
        lemma_forced_is(sol.grid(), g, to_exclude@, EdgeState::Excluded);
        let c = closed_off(p, g);
        let f = forced_grid(g, to_exclude@, EdgeState::Excluded);
        assert forall|e: EdgeId| #[trigger] c.edges.dom().contains(e) implies c.edges[e] == f.edges[e] by {
            assert(g.has(e));
            if to_exclude@.contains(e) {
                let k = choose|k: int| 0 <= k < to_exclude@.len() && to_exclude@[k] == e;
                assert(g.loop_connected(ends(g.width, to_exclude@[k]).0, ends(g.width, to_exclude@[k]).1));
            }
            if closes_early(p, g, e) {
                assert(pend(e));
                assert(crate::solver_lines::scanned(e, true, h as int, 0));
            }
        }
        assert(c.edges =~= f.edges);
        if changed {
            let e0 = to_exclude@[0];
            assert(closes_early(p, g, e0)) by {
                assert(g.loop_connected(ends(g.width, to_exclude@[0]).0, ends(g.width, to_exclude@[0]).1));
            }
            assert(c.edges[e0] != g.edges[e0]);
        }
    }
    changed
}

/// `e` is undecided, its ends are already joined by loop edges, and drawing it
/// would not solve the puzzle: the no-premature-loop rule excludes it.
pub open spec fn closes_early(p: PuzzleView, g: Grid, e: EdgeId) -> bool {
    &&& g.has(e)
    &&& g.state(e) == EdgeState::Unset
    &&& g.loop_connected(ends(g.width, e).0, ends(g.width, e).1)
    &&& !is_solution(p, g.with(e, EdgeState::Loop))
}

/// The horizontal edges that close early, in row-major order, up to but not
/// including H(x, y).
pub open spec fn closing_h(p: PuzzleView, g: Grid, y: nat, x: nat) -> Seq<EdgeId>
    decreases y, x,
{
    if x > 0 {
        let e = EdgeId::H((x - 1) as usize, y as usize);
        closing_h(p, g, y, (x - 1) as nat) + if closes_early(p, g, e) { seq![e] } else { Seq::empty() }
    } else if y > 0 {
        closing_h(p, g, (y - 1) as nat, g.width)
    } else {
        Seq::empty()
    }
}

/// The edges that close early in the order the rule scans them, up to but not
/// including V(x, y): every horizontal edge first, then the vertical ones in
/// row-major order.
pub open spec fn closing_v(p: PuzzleView, g: Grid, y: nat, x: nat) -> Seq<EdgeId>
    decreases y, x,
{
    if x > 0 {
        let e = EdgeId::V((x - 1) as usize, y as usize);
        closing_v(p, g, y, (x - 1) as nat) + if closes_early(p, g, e) { seq![e] } else { Seq::empty() }
    } else if y > 0 {
        closing_v(p, g, (y - 1) as nat, g.width + 1)
    } else {
        closing_h(p, g, g.height + 1, 0)
    }
}

/// Every edge that closes early, in the order the rule scans them.
pub open spec fn closing_list(p: PuzzleView, g: Grid) -> Seq<EdgeId> {
    closing_v(p, g, g.height, 0)
}

/// `g` with every edge that closes early excluded.
pub open spec fn closed_off(p: PuzzleView, g: Grid) -> Grid {
    Grid {
        width: g.width,
        height: g.height,
        edges: Map::new(
            |e: EdgeId| g.edges.dom().contains(e),
            |e: EdgeId| if closes_early(p, g, e) { EdgeState::Excluded } else { g.edges[e] },
        ),
    }
}

/// Forcing a list and then one more edge forces the longer list.
proof fn lemma_forced_push(g: Grid, gb: Grid, g2: Grid, t: Seq<EdgeId>, e: EdgeId, s: EdgeState)
    requires
        forced_by(gb, g, t, s),
        forced_by(g2, gb, seq![e], s),
    ensures
        forced_by(g2, g, t.push(e), s),
{
    assert(seq![e][0] == e);
    assert forall|f: EdgeId| #[trigger] g.has(f) implies g2.state(f) == if t.push(e).contains(f) && g.state(f)
        == EdgeState::Unset {
        s
    } else {
        g.state(f)
    } by {
        assert(gb.has(f));
        if t.push(e).contains(f) && f != e {
            let k = choose|k: int| 0 <= k < t.push(e).len() && t.push(e)[k] == f;
            assert(t[k] == f);
        }
        if t.contains(f) {
            let k = choose|k: int| 0 <= k < t.len() && t[k] == f;
            assert(t.push(e)[k] == f);
        }
        if seq![e].contains(f) {
            let k = choose|k: int| 0 <= k < 1 && seq![e][k] == f;
        }
        if f == e {
            assert(t.push(e)[t.len() as int] == e);
            assert(seq![e].contains(e));
        }
    }
}


/// `g` with every undecided edge among `es` set to `s`.
pub open spec fn forced_grid(g: Grid, es: Seq<EdgeId>, s: EdgeState) -> Grid {
    Grid {
        width: g.width,
        height: g.height,
        edges: Map::new(
            |e: EdgeId| g.edges.dom().contains(e),
            |e: EdgeId| if es.contains(e) && g.edges[e] == EdgeState::Unset { s } else { g.edges[e] },
        ),
    }
}

/// The grid after the cell-clue rule at (x, y) (drawing edges unless
/// `excludes_only`): forced where it fires, else as it was.
pub open spec fn after_cell_rule(p: PuzzleView, g: Grid, x: usize, y: usize, excludes_only: bool) -> Grid {
    if cell_rule_fires(p, g, x, y, excludes_only) {
        forced_grid(g, cell_edge_list(x, y), cell_rule_state(p, g, x, y))
    } else {
        g
    }
}

/// The grid after the vertex-degree rule at (x, y) (drawing edges unless
/// `excludes_only`): forced where it fires, else as it was.
pub open spec fn after_vertex_rule(g: Grid, x: usize, y: usize, excludes_only: bool) -> Grid {
    if vertex_rule_fires(g, x, y, excludes_only) {
        forced_grid(g, vertex_edge_list(x, y, g.width, g.height), vertex_rule_state(g, x, y))
    } else {
        g
    }
}

/// What the cell-clue rule at (x, y) adds to the worklist: the edges it decides.
pub open spec fn cell_rule_log(p: PuzzleView, g: Grid, x: usize, y: usize) -> Seq<EdgeId> {
    if cell_rule_fires(p, g, x, y, false) {
        newly_set(g, cell_edge_list(x, y))
    } else {
        Seq::empty()
    }
}

/// What the vertex-degree rule at (x, y) adds to the worklist: the edges it decides.
pub open spec fn vertex_rule_log(g: Grid, x: usize, y: usize) -> Seq<EdgeId> {
    if vertex_rule_fires(g, x, y, false) {
        newly_set(g, vertex_edge_list(x, y, g.width, g.height))
    } else {
        Seq::empty()
    }
}

/// The solver's grid and worklist after the cell-clue rule at (x, y).
pub open spec fn cell_rule_step(p: PuzzleView, st: (Grid, Seq<EdgeId>), x: usize, y: usize) -> (Grid, Seq<EdgeId>) {
    (after_cell_rule(p, st.0, x, y, false), st.1 + cell_rule_log(p, st.0, x, y))
}

/// The solver's grid and worklist after the vertex-degree rule at (x, y).
pub open spec fn vertex_rule_step(st: (Grid, Seq<EdgeId>), x: usize, y: usize) -> (Grid, Seq<EdgeId>) {
    (after_vertex_rule(st.0, x, y, false), st.1 + vertex_rule_log(st.0, x, y))
}

/// The solver's grid and worklist after the cell-clue rule at the (at most two)
/// cells beside `e`, in the order left/above then right/below, and then the
/// vertex-degree rule at its two ends.
pub open spec fn edge_rules(p: PuzzleView, st: (Grid, Seq<EdgeId>), e: EdgeId) -> (Grid, Seq<EdgeId>) {
    match e {
        EdgeId::H(x, y) => {
            let s1 = if y > 0 { cell_rule_step(p, st, x, (y - 1) as usize) } else { st };
            let s2 = if y < st.0.height { cell_rule_step(p, s1, x, y) } else { s1 };
            vertex_rule_step(vertex_rule_step(s2, x, y), (x + 1) as usize, y)
        },
        EdgeId::V(x, y) => {
            let s1 = if x > 0 { cell_rule_step(p, st, (x - 1) as usize, y) } else { st };
            let s2 = if x < st.0.width { cell_rule_step(p, s1, x, y) } else { s1 };
            vertex_rule_step(vertex_rule_step(s2, x, y), x, (y + 1) as usize)
        },
    }
}

/// On well-formed grids, forcing has one outcome.
proof fn lemma_forced_is(new: Grid, old: Grid, es: Seq<EdgeId>, s: EdgeState)
    requires
        forced_by(new, old, es, s),
        new.well_formed(),
        old.well_formed(),
    ensures
        new == forced_grid(old, es, s),
{
    let f = forced_grid(old, es, s);
    assert forall|e: EdgeId| #[trigger] new.edges.dom().contains(e) <==> f.edges.dom().contains(e) by {}
    assert forall|e: EdgeId| #[trigger] new.edges.dom().contains(e) implies new.edges[e] == f.edges[e] by {
        assert(old.has(e));
    }
    assert(new.edges =~= f.edges);
}

/// A rule step either decided some undecided edge or left everything as it was.
pub open spec fn progressed_or_same(new: SolverLines, old: SolverLines) -> bool {
    new.unset_count() < old.unset_count() || new == old
}

/// Re-applies the cell-clue rule to the (at most two) cells and the vertex-degree
/// rule to the two vertices touching `e`. Edges these rules set are pushed back onto
/// the worklist by `set_edge`.
fn apply_edge_constraints(puzzle: &Puzzle, sol: &mut SolverLines, e: EdgeId, w: usize, h: usize)
    requires
        puzzle.wf(),
        clues_at_most_four(puzzle@),
        old(sol).inv(),
        fits(puzzle@, old(sol).grid()),
        old(sol).grid().has(e),
        w == puzzle@.width,
        h == puzzle@.height,
    ensures
        decides_more(*final(sol), *old(sol)),
        progressed_or_same(*final(sol), *old(sol)),
        keeps_solutions(puzzle@, old(sol).grid(), final(sol).grid()),
        (final(sol).grid(), final(sol).pending()) == edge_rules(puzzle@, (old(sol).grid(), old(sol).pending()), e),
{
    proof {
        sol.lemma_inv();
        lemma_keeps_refl(puzzle@, sol.grid());
    }
    let ghost s0 = *sol;
    match e {
        EdgeId::H(x, y) => {
            if y > 0 {
                rule_at_cell(puzzle, sol, x, y - 1);
            }
            let ghost s1 = *sol;
            if y < h {
                rule_at_cell(puzzle, sol, x, y);
            }
            let ghost s2 = *sol;
            rule_at_vertex(sol, x, y, w, h);
            let ghost s3 = *sol;
            rule_at_vertex(sol, x + 1, y, w, h);
            proof {
                lemma_more_trans(s0, s1, s2);
                lemma_more_trans(s0, s2, s3);
                lemma_more_trans(s0, s3, *sol);
                lemma_keeps_trans(puzzle@, s0.grid(), s1.grid(), s2.grid());
                lemma_keeps_trans(puzzle@, s0.grid(), s2.grid(), s3.grid());
                lemma_keeps_trans(puzzle@, s0.grid(), s3.grid(), sol.grid());
            }
        },
        EdgeId::V(x, y) => {
            if x > 0 {
                rule_at_cell(puzzle, sol, x - 1, y);
            }
            let ghost s1 = *sol;
            if x < w {
                rule_at_cell(puzzle, sol, x, y);
            }
            let ghost s2 = *sol;
            rule_at_vertex(sol, x, y, w, h);
            let ghost s3 = *sol;
            rule_at_vertex(sol, x, y + 1, w, h);
            proof {
                lemma_more_trans(s0, s1, s2);
                lemma_more_trans(s0, s2, s3);
                lemma_more_trans(s0, s3, *sol);
                lemma_keeps_trans(puzzle@, s0.grid(), s1.grid(), s2.grid());
                lemma_keeps_trans(puzzle@, s0.grid(), s2.grid(), s3.grid());
                lemma_keeps_trans(puzzle@, s0.grid(), s3.grid(), sol.grid());
            }
        },
    }
}

/// Deciding more, and progressing, compose.
proof fn lemma_more_trans(a: SolverLines, b: SolverLines, c: SolverLines)
    requires
        decides_more(b, a),
        decides_more(c, b),
        progressed_or_same(b, a),
        progressed_or_same(c, b),
    ensures
        decides_more(c, a),
        progressed_or_same(c, a),
{
    lemma_extends_trans(a.grid(), b.grid(), c.grid());
}

/// The cell-clue rule at (x, y) on the solver grid, as a step that decides more.
fn rule_at_cell(puzzle: &Puzzle, sol: &mut SolverLines, x: usize, y: usize) -> (r: bool)
    requires
        puzzle.wf(),
        clues_at_most_four(puzzle@),
        old(sol).inv(),
        fits(puzzle@, old(sol).grid()),
        x < puzzle@.width,
        y < puzzle@.height,
    ensures
        decides_more(*final(sol), *old(sol)),
        r ==> final(sol).unset_count() < old(sol).unset_count(),
        !r ==> *final(sol) == *old(sol),
        r == cell_rule_fires(puzzle@, old(sol).grid(), x, y, false),
        keeps_solutions(puzzle@, old(sol).grid(), final(sol).grid()),
        final(sol).grid() == after_cell_rule(puzzle@, old(sol).grid(), x, y, false),
        final(sol).pending() == old(sol).pending() + cell_rule_log(puzzle@, old(sol).grid(), x, y),
{
    let ghost g0 = sol.grid();
    proof {
        sol.lemma_inv();
        sol.lemma_log_is_pending();
    }
    let r = apply_cell_clue(puzzle, sol, x, y, false);
    proof {
        if r {
            sol.lemma_inv();
            lemma_forced_is(sol.grid(), g0, cell_edge_list(x, y), cell_rule_state(puzzle@, g0, x, y));
            sol.lemma_log_is_pending();
            lemma_forced_extends(g0, g0, sol.grid(), cell_edge_list(x, y), cell_rule_state(puzzle@, g0, x, y));
            lemma_cell_rule_sound(puzzle@, g0, sol.grid(), x, y, false);
        } else {
            lemma_keeps_refl(puzzle@, g0);
        }
    }
    r
}

/// The vertex-degree rule at (x, y) on the solver grid, as a step that decides more.
fn rule_at_vertex(sol: &mut SolverLines, x: usize, y: usize, w: usize, h: usize) -> (r: bool)
    requires
        old(sol).inv(),
        w == old(sol).grid().width,
        h == old(sol).grid().height,
        x <= w,
        y <= h,
    ensures
        decides_more(*final(sol), *old(sol)),
        r ==> final(sol).unset_count() < old(sol).unset_count(),
        !r ==> *final(sol) == *old(sol),
        r == vertex_rule_fires(old(sol).grid(), x, y, false),
        forall|p: PuzzleView| fits(p, old(sol).grid()) ==> #[trigger] keeps_solutions(p, old(sol).grid(), final(sol).grid()),
        final(sol).grid() == after_vertex_rule(old(sol).grid(), x, y, false),
        final(sol).pending() == old(sol).pending() + vertex_rule_log(old(sol).grid(), x, y),
{
    let ghost g0 = sol.grid();
    proof {
        sol.lemma_inv();
        sol.lemma_log_is_pending();
    }
    let r = apply_vertex_degree(sol, x, y, w, h, false);
    proof {
        if r {
            sol.lemma_inv();
            lemma_forced_is(sol.grid(), g0, vertex_edge_list(x, y, w as nat, h as nat), vertex_rule_state(g0, x, y));
            sol.lemma_log_is_pending();
            lemma_forced_extends(g0, g0, sol.grid(), vertex_edge_list(x, y, w as nat, h as nat), vertex_rule_state(g0, x, y));
        }
        assert forall|p: PuzzleView| fits(p, g0) implies #[trigger] keeps_solutions(p, g0, sol.grid()) by {
            if r {
                lemma_vertex_rule_sound(p, g0, sol.grid(), x, y, false);
            } else {
                lemma_keeps_refl(p, g0);
            }
        }
    }
    r
}

/// One step of the worklist loop on the solver's grid and worklist: the newest
/// pending edge is taken off and the rules round it applied; with nothing
/// pending, the no-premature-loop rule is applied; with nothing pending and no
/// edge that closes early, the state stays as it is.
pub open spec fn lp_step(p: PuzzleView, st: (Grid, Seq<EdgeId>)) -> (Grid, Seq<EdgeId>) {
    if st.1.len() > 0 {
        edge_rules(p, (st.0, st.1.drop_last()), st.1.last())
    } else if closed_off(p, st.0) == st.0 {
        st
    } else {
        (closed_off(p, st.0), newly_set(st.0, closing_list(p, st.0)))
    }
}

/// Nothing is pending and no edge closes early: the worklist loop stops here.
pub open spec fn lp_settled(p: PuzzleView, st: (Grid, Seq<EdgeId>)) -> bool {
    st.1.len() == 0 && closed_off(p, st.0) == st.0
}

/// The state after `n` steps of the worklist loop.
pub open spec fn lp_iter(p: PuzzleView, st: (Grid, Seq<EdgeId>), n: nat) -> (Grid, Seq<EdgeId>)
    decreases n,
{
    if n == 0 {
        st
    } else {
        lp_step(p, lp_iter(p, st, (n - 1) as nat))
    }
}

/// Where the worklist loop from `st` stops.
pub open spec fn lp_result(p: PuzzleView, st: (Grid, Seq<EdgeId>)) -> (Grid, Seq<EdgeId>) {
    lp_iter(p, st, choose|n: nat| lp_settled(p, #[trigger] lp_iter(p, st, n)))
}

/// A settled state stays as it is.
proof fn lemma_settled_stays(p: PuzzleView, st: (Grid, Seq<EdgeId>), n: nat, m: nat)
    requires
        lp_settled(p, lp_iter(p, st, n)),
        n <= m,
    ensures
        lp_iter(p, st, m) == lp_iter(p, st, n),
    decreases m,
{
    if m > n {
        lemma_settled_stays(p, st, n, (m - 1) as nat);
    }
}

/// The loop stops at the first settled state, whichever step count reaches it.
proof fn lemma_lp_result(p: PuzzleView, st: (Grid, Seq<EdgeId>), n: nat)
    requires
        lp_settled(p, lp_iter(p, st, n)),
    ensures
        lp_result(p, st) == lp_iter(p, st, n),
{
    let k = choose|k: nat| lp_settled(p, #[trigger] lp_iter(p, st, k));
    if k <= n {
        lemma_settled_stays(p, st, k, n);
    } else {
        lemma_settled_stays(p, st, n, k);
    }
}

/// Drives the cell-clue and vertex-degree rules to fixpoint off the worklist:
/// each freshly-set edge is the only thing that can unlock a new local deduction,
/// so we re-check just the sites incident to it rather than rescanning the whole
/// grid. `apply_no_premature_loop` is still a full sweep; any edge it excludes
/// feeds back into the worklist for another round.
#[verifier::rlimit(50)]
#[verifier::spinoff_prover]
fn local_propagate(puzzle: &Puzzle, sol: &mut SolverLines)
    requires
        puzzle.wf(),
        clues_at_most_four(puzzle@),
        old(sol).inv(),
        fits(puzzle@, old(sol).grid()),
    ensures
        decides_more(*final(sol), *old(sol)),
        no_premature_fixpoint(puzzle@, final(sol).grid()),
        keeps_solutions(puzzle@, old(sol).grid(), final(sol).grid()),
        (final(sol).grid(), final(sol).pending()) == lp_result(puzzle@, (old(sol).grid(), old(sol).pending())),
        lp_settled(puzzle@, (final(sol).grid(), final(sol).pending())),
        final(sol).grid().extends(lp_step(puzzle@, (old(sol).grid(), old(sol).pending())).0),
{
    let w = puzzle.width();
    let h = puzzle.height();
    let ghost start = (sol.grid(), sol.pending());
    let ghost first = lp_step(puzzle@, start);
    let ghost mut n: nat = 0;
    proof {
        lemma_keeps_refl(puzzle@, sol.grid());
    }
    loop
        invariant
            puzzle.wf(),
            clues_at_most_four(puzzle@),
            sol.inv(),
            fits(puzzle@, sol.grid()),
            w == puzzle@.width,
            h == puzzle@.height,
            decides_more(*sol, *old(sol)),
            keeps_solutions(puzzle@, old(sol).grid(), sol.grid()),
            start == (old(sol).grid(), old(sol).pending()),
            (sol.grid(), sol.pending()) == lp_iter(puzzle@, start, n),
            first == lp_step(puzzle@, start),
            n >= 1 ==> sol.grid().extends(first.0),
        decreases sol.unset_count(),
    {
        let ghost round_start = sol.unset_count();
        loop
            invariant
                puzzle.wf(),
                clues_at_most_four(puzzle@),
                sol.inv(),
                fits(puzzle@, sol.grid()),
                w == puzzle@.width,
                h == puzzle@.height,
                decides_more(*sol, *old(sol)),
                sol.unset_count() <= round_start,
                keeps_solutions(puzzle@, old(sol).grid(), sol.grid()),
                start == (old(sol).grid(), old(sol).pending()),
                (sol.grid(), sol.pending()) == lp_iter(puzzle@, start, n),
                first == lp_step(puzzle@, start),
                n >= 1 ==> sol.grid().extends(first.0),
            ensures
                sol.pending().len() == 0,
            decreases sol.unset_count(), sol.pending().len(),
        {
            let ghost before = *sol;
            match sol.pop_dirty() {
                Some(e) => {
                    let ghost popped = *sol;
                    apply_edge_constraints(puzzle, sol, e, w, h);
                    proof {
                        lemma_extends_trans(old(sol).grid(), popped.grid(), sol.grid());
                        lemma_keeps_trans(puzzle@, old(sol).grid(), popped.grid(), sol.grid());
                        assert(lp_iter(puzzle@, start, n + 1) == lp_step(puzzle@, lp_iter(puzzle@, start, n)));
                        if n >= 1 {
                            lemma_extends_trans(first.0, popped.grid(), sol.grid());
                        } else {
                            assert(lp_iter(puzzle@, start, 0) == start);
                            lemma_extends_refl(sol.grid());
                        }
                        n = n + 1;
                    }
                },
                None => {
                    proof {
                        assert(sol.pending() =~= before.pending());
                    }
                    break;
                },
            }
        }
        let ghost drained = *sol;
        if !apply_no_premature_loop(puzzle, sol) {
            proof {
                lemma_lp_result(puzzle@, start, n);
                if n == 0 {
                    assert(lp_iter(puzzle@, start, 0) == start);
                    assert(lp_settled(puzzle@, start));
                    assert(first == start);
                    lemma_extends_refl(sol.grid());
                }
            }
            return;
        }
        proof {
            assert(newly_set(drained.grid(), closing_list(puzzle@, drained.grid())) =~= drained.pending() + newly_set(
                drained.grid(),
                closing_list(puzzle@, drained.grid()),
            ));
            assert(lp_iter(puzzle@, start, n + 1) == lp_step(puzzle@, lp_iter(puzzle@, start, n)));
            if n >= 1 {
                lemma_extends_trans(first.0, drained.grid(), sol.grid());
            } else {
                assert(lp_iter(puzzle@, start, 0) == start);
                lemma_extends_refl(sol.grid());
            }
            n = n + 1;
            lemma_extends_trans(old(sol).grid(), drained.grid(), sol.grid());
            lemma_keeps_trans(puzzle@, old(sol).grid(), drained.grid(), sol.grid());
        }
    }
}

/// One round of the local rules around `e`: the cell-clue rule at the cells
/// beside `e` (left or above first), then the vertex-degree rule at its two
/// ends, each applied to the grid the one before left.
pub open spec fn rules_around(p: PuzzleView, g: Grid, e: EdgeId) -> Grid {
    match e {
        EdgeId::H(x, y) => {
            let g1 = if y > 0 { after_cell_rule(p, g, x, (y - 1) as usize, false) } else { g };
            let g2 = if y < g.height { after_cell_rule(p, g1, x, y, false) } else { g1 };
            after_vertex_rule(after_vertex_rule(g2, x, y, false), (x + 1) as usize, y, false)
        },
        EdgeId::V(x, y) => {
            let g1 = if x > 0 { after_cell_rule(p, g, (x - 1) as usize, y, false) } else { g };
            let g2 = if x < g.width { after_cell_rule(p, g1, x, y, false) } else { g1 };
            after_vertex_rule(after_vertex_rule(g2, x, y, false), x, (y + 1) as usize, false)
        },
    }
}

/// The worklist's step on an edge applies the rules round it.
proof fn lemma_edge_rules_around(p: PuzzleView, g: Grid, pend: Seq<EdgeId>, e: EdgeId)
    ensures
        edge_rules(p, (g, pend), e).0 == rules_around(p, g, e),
{
}

/// Forcing never changes the size of a grid.
proof fn lemma_after_rules_size(p: PuzzleView, g: Grid, e: EdgeId)
    ensures
        rules_around(p, g, e).width == g.width,
        rules_around(p, g, e).height == g.height,
{
}

/// Neither setting of any undecided edge shows a problem after one round of
/// the local rules around it.
pub open spec fn around_settled(p: PuzzleView, g: Grid) -> bool {
    forall|e: EdgeId|
        #[trigger] g.has(e) && g.state(e) == EdgeState::Unset ==> !has_problem(
            p,
            rules_around(p, g.with(e, EdgeState::Loop), e),
        ) && !has_problem(p, rules_around(p, g.with(e, EdgeState::Excluded), e))
}

/// Setting the undecided edge `e` to `st` and running the worklist loop from
/// there (with `e` added to the pending edges `pend`) ends in a problem.
#[verifier::opaque]
pub open spec fn trial_fails(p: PuzzleView, g: Grid, pend: Seq<EdgeId>, e: EdgeId, st: EdgeState) -> bool {
    has_problem(p, lp_result(p, (g.with(e, st), pend.push(e))).0)
}

/// The undecided horizontal edges, in row-major order, up to but not
/// including H(x, y).
pub open spec fn unset_h(g: Grid, y: nat, x: nat) -> Seq<EdgeId>
    decreases y, x,
{
    if x > 0 {
        let e = EdgeId::H((x - 1) as usize, y as usize);
        unset_h(g, y, (x - 1) as nat) + if g.state(e) == EdgeState::Unset { seq![e] } else { Seq::empty() }
    } else if y > 0 {
        unset_h(g, (y - 1) as nat, g.width)
    } else {
        Seq::empty()
    }
}

/// The undecided edges up to but not including V(x, y): every horizontal edge
/// first, then the vertical ones in row-major order.
pub open spec fn unset_v(g: Grid, y: nat, x: nat) -> Seq<EdgeId>
    decreases y, x,
{
    if x > 0 {
        let e = EdgeId::V((x - 1) as usize, y as usize);
        unset_v(g, y, (x - 1) as nat) + if g.state(e) == EdgeState::Unset { seq![e] } else { Seq::empty() }
    } else if y > 0 {
        unset_v(g, (y - 1) as nat, g.width + 1)
    } else {
        unset_h(g, g.height + 1, 0)
    }
}

/// Every undecided edge, horizontal ones first, each kind in row-major order.
pub open spec fn unset_list(g: Grid) -> Seq<EdgeId> {
    unset_v(g, g.height, 0)
}

/// The lookahead pass over the edges `es` from the `i`-th on, starting from the
/// solver state `st` with `changed` telling whether it decided an edge yet:
/// an edge decided by now is skipped; otherwise both trials run, and where
/// exactly one fails the other setting is made; where both fail the pass
/// stops. Gives the final state and whether an edge was decided.
pub open spec fn look_from(
    p: PuzzleView,
    st: (Grid, Seq<EdgeId>),
    es: Seq<EdgeId>,
    i: nat,
    changed: bool,
) -> ((Grid, Seq<EdgeId>), bool)
    decreases es.len() - i,
{
    if i >= es.len() {
        (st, changed)
    } else {
        let e = es[i as int];
        if st.0.state(e) != EdgeState::Unset {
            look_from(p, st, es, i + 1, changed)
        } else {
            let lf = trial_fails(p, st.0, st.1, e, EdgeState::Loop);
            let ef = trial_fails(p, st.0, st.1, e, EdgeState::Excluded);
            if lf && ef {
                (st, changed)
            } else if ef {
                look_from(p, (st.0.with(e, EdgeState::Loop), st.1.push(e)), es, i + 1, true)
            } else if lf {
                look_from(p, (st.0.with(e, EdgeState::Excluded), st.1.push(e)), es, i + 1, true)
            } else {
                look_from(p, st, es, i + 1, changed)
            }
        }
    }
}

/// What a lookahead pass that decides nothing leaves: every undecided edge has
/// its two trial settings both fail or both hold, or some undecided edge has
/// both fail.
pub open spec fn lookahead_idle(p: PuzzleView, g: Grid, pend: Seq<EdgeId>) -> bool {
    ||| forall|e: EdgeId| #[trigger] g.has(e) && g.state(e) == EdgeState::Unset ==> trial_fails(p, g, pend, e, EdgeState::Loop)
        == trial_fails(p, g, pend, e, EdgeState::Excluded)
    ||| exists|e: EdgeId| #[trigger] g.has(e) && g.state(e) == EdgeState::Unset && trial_fails(p, g, pend, e, EdgeState::Loop)
        && trial_fails(p, g, pend, e, EdgeState::Excluded)
}

/// Tentatively sets `e` to `state` on a copy, propagates locally, and reports
/// whether the copy then shows a problem. When it does, no solution that agrees
/// with the grid gives `e` that state.
fn trial_contradicts(puzzle: &Puzzle, sol: &SolverLines, e: EdgeId, state: EdgeState) -> (r: bool)
    requires
        puzzle.wf(),
        clues_at_most_four(puzzle@),
        sol.inv(),
        fits(puzzle@, sol.grid()),
        sol.grid().has(e),
        sol.grid().state(e) == EdgeState::Unset,
        state != EdgeState::Unset,
    ensures
        r ==> forall|s: Grid| #[trigger] is_solution(puzzle@, s) && agrees(sol.grid(), s) ==> (s.state(e)
            == EdgeState::Loop <==> state == EdgeState::Excluded),
        has_problem(puzzle@, sol.grid().with(e, state)) ==> r,
        has_problem(puzzle@, rules_around(puzzle@, sol.grid().with(e, state), e)) ==> r,
        r == trial_fails(puzzle@, sol.grid(), sol.pending(), e, state),
{
    let ghost g = sol.grid();
    let mut trial = sol.clone();
    proof {
        trial.lemma_log_is_pending();
    }
    try_set(&mut trial, e, state);
    proof {
        trial.lemma_log_is_pending();
        assert(sol.pending() + seq![e] =~= sol.pending().push(e));
        assert(trial.pending() == sol.pending().push(e));
    }
    let ghost ts = (trial.grid(), trial.pending());
    let ghost gt = trial.grid();
    local_propagate(puzzle, &mut trial);
    let p = find_problems(puzzle, &trial);
    let r = !p.bad_cells.is_empty() || !p.bad_vertices.is_empty();
    proof {
        reveal(trial_fails);
        let gf = trial.grid();
        assert(ts == (g.with(e, state), sol.pending().push(e)));
        assert(gf == lp_result(puzzle@, ts).0);
        if p.bad_cells@.len() > 0 {
            let (x, y) = p.bad_cells@[0];
            assert(cell_is_bad(puzzle@, gf, x, y));
            assert(x < gf.width && y < gf.height);
            assert(has_problem(puzzle@, gf));
        }
        if p.bad_vertices@.len() > 0 {
            let (x, y) = p.bad_vertices@[0];
            assert(vertex_is_bad(gf, x, y));
            assert(x <= gf.width && y <= gf.height);
            assert(has_problem(puzzle@, gf));
        }
        if has_problem(puzzle@, gf) {
            if exists|x: usize, y: usize| x < gf.width && y < gf.height && #[trigger] cell_is_bad(puzzle@, gf, x, y) {
                let (x, y) = choose|x: usize, y: usize| x < gf.width && y < gf.height && #[trigger] cell_is_bad(puzzle@, gf, x, y);
                let pred = |cx: usize, cy: usize| cell_is_bad(puzzle@, gf, cx, cy);
                assert(pred(x, y));
                assert(p.bad_cells@.contains((x, y)));
            } else {
                let (x, y) = choose|x: usize, y: usize| x <= gf.width && y <= gf.height && #[trigger] vertex_is_bad(gf, x, y);
                let pred = |cx: usize, cy: usize| vertex_is_bad(gf, cx, cy);
                assert(pred(x, y));
                assert(p.bad_vertices@.contains((x, y)));
            }
        }
        assert(r == has_problem(puzzle@, gf));
        if has_problem(puzzle@, rules_around(puzzle@, gt, e)) {
            lemma_edge_rules_around(puzzle@, gt, sol.pending(), e);
            assert(ts.1.len() > 0);
            assert(ts.1.drop_last() =~= sol.pending());
            assert(ts.1.last() == e);
            assert(lp_step(puzzle@, ts).0 == rules_around(puzzle@, gt, e));
            lemma_problem_stays(puzzle@, rules_around(puzzle@, gt, e), gf);
        }
        if has_problem(puzzle@, gt) {
            let gf = trial.grid();
            lemma_problem_stays(puzzle@, gt, gf);
            if exists|x: usize, y: usize| x < gf.width && y < gf.height && #[trigger] cell_is_bad(puzzle@, gf, x, y) {
                let (x, y) = choose|x: usize, y: usize| x < gf.width && y < gf.height && #[trigger] cell_is_bad(puzzle@, gf, x, y);
                let pred = |cx: usize, cy: usize| cell_is_bad(puzzle@, gf, cx, cy);
                assert(pred(x, y));
                assert(p.bad_cells@.contains((x, y)));
            } else {
                let (x, y) = choose|x: usize, y: usize| x <= gf.width && y <= gf.height && #[trigger] vertex_is_bad(gf, x, y);
                let pred = |cx: usize, cy: usize| vertex_is_bad(gf, cx, cy);
                assert(pred(x, y));
                assert(p.bad_vertices@.contains((x, y)));
            }
        }
        if r {
            let gf = trial.grid();
            assert forall|s: Grid| #[trigger] is_solution(puzzle@, s) && agrees(g, s) implies (s.state(e)
                == EdgeState::Loop <==> state == EdgeState::Excluded) by {
                if (s.state(e) == EdgeState::Loop) != (state == EdgeState::Excluded) {
                    assert(agrees(gt, s)) by {
                        assert forall|f: EdgeId| #[trigger] gt.has(f) implies (gt.state(f) == EdgeState::Loop
                            ==> s.state(f) == EdgeState::Loop) && (gt.state(f) == EdgeState::Excluded ==> s.state(f)
                            != EdgeState::Loop) by {
                            assert(g.has(f));
                        }
                    }
                    assert(agrees(gf, s));
                    if p.bad_cells@.len() > 0 {
                        let (x, y) = p.bad_cells@[0];
                        lemma_bad_cell_rules_out(puzzle@, gf, s, x, y);
                    } else {
                        let (x, y) = p.bad_vertices@[0];
                        lemma_bad_vertex_rules_out(puzzle@, gf, s, x, y);
                    }
                }
            }
        }
    }
    r
}

/// For each unset edge, runs `local_propagate` twice: once with the edge
/// tentatively Loop and once Excluded. If exactly one of those trials leaves
/// the board contradiction-free (per `find_problems`), force the survivor.
///
/// Returns true if any edge was forced.
#[verifier::rlimit(50)]
#[verifier::spinoff_prover]
fn apply_lookahead(puzzle: &Puzzle, sol: &mut SolverLines) -> (changed: bool)
    requires
        puzzle.wf(),
        clues_at_most_four(puzzle@),
        old(sol).inv(),
        fits(puzzle@, old(sol).grid()),
    ensures
        decides_more(*final(sol), *old(sol)),
        changed ==> final(sol).unset_count() < old(sol).unset_count(),
        !changed ==> *final(sol) == *old(sol),
        keeps_solutions(puzzle@, old(sol).grid(), final(sol).grid()),
        !changed ==> local_fixpoint(puzzle@, old(sol).grid(), false) || rules_out_all(puzzle@, old(sol).grid()),
        !changed ==> lookahead_idle(puzzle@, old(sol).grid(), old(sol).pending()),
        !changed ==> rules_out_all(puzzle@, old(sol).grid()) || around_settled(puzzle@, old(sol).grid()),
        ((final(sol).grid(), final(sol).pending()), changed) == look_from(
            puzzle@,
            (old(sol).grid(), old(sol).pending()),
            unset_list(old(sol).grid()),
            0,
            false,
        ),
{
    let ghost g = sol.grid();
    proof {
        sol.lemma_inv();
        lemma_keeps_refl(puzzle@, g);
    }
    let w = puzzle.width();
    let h = puzzle.height();
    let mut edges: Vec<EdgeId> = Vec::new();
    let mut y: usize = 0;
    while y <= h
        invariant
            sol.inv(),
            g == sol.grid(),
            w == g.width,
            h == g.height,
            w + 1 <= usize::MAX,
            h + 1 <= usize::MAX,
            y <= h + 1,
            forall|i: int| 0 <= i < edges@.len() ==> g.has(#[trigger] edges@[i]),
            forall|i: int| 0 <= i < edges@.len() ==> g.state(#[trigger] edges@[i]) == EdgeState::Unset,
            edges@ == unset_h(g, y as nat, 0),
            forall|ex: usize, ey: usize|
                ex < w && ey < y && #[trigger] g.state(EdgeId::H(ex, ey)) == EdgeState::Unset ==> edges@.contains(
                    EdgeId::H(ex, ey),
                ),
        decreases h + 1 - y,
    {
        let mut x: usize = 0;
        while x < w
            invariant
                sol.inv(),
                g == sol.grid(),
                w == g.width,
                h == g.height,
                w + 1 <= usize::MAX,
                h + 1 <= usize::MAX,
                y <= h,
                x <= w,
                forall|i: int| 0 <= i < edges@.len() ==> g.has(#[trigger] edges@[i]),
                forall|i: int| 0 <= i < edges@.len() ==> g.state(#[trigger] edges@[i]) == EdgeState::Unset,
                edges@ == unset_h(g, y as nat, x as nat),
                forall|ex: usize, ey: usize|
                    (ey < y || (ey == y && ex < x)) && ex < w && #[trigger] g.state(EdgeId::H(ex, ey)) == EdgeState::Unset
                        ==> edges@.contains(EdgeId::H(ex, ey)),
            decreases w - x,
        {
            let ghost before = edges@;
            if sol.h_edge(x, y) == EdgeState::Unset {
                edges.push(EdgeId::H(x, y));
                proof {
                    assert(edges@[edges@.len() - 1] == EdgeId::H(x, y));
                }
            }
            proof {
                assert forall|f: EdgeId| before.contains(f) implies edges@.contains(f) by {
                    let k = choose|k: int| 0 <= k < before.len() && before[k] == f;
                    assert(edges@[k] == f);
                }
            }
            x = x + 1;
        }
        y = y + 1;
    }
    let mut y: usize = 0;
    while y < h
        invariant
            sol.inv(),
            g == sol.grid(),
            w == g.width,
            h == g.height,
            w + 1 <= usize::MAX,
            h + 1 <= usize::MAX,
            y <= h,
            forall|i: int| 0 <= i < edges@.len() ==> g.has(#[trigger] edges@[i]),
            forall|i: int| 0 <= i < edges@.len() ==> g.state(#[trigger] edges@[i]) == EdgeState::Unset,
            edges@ == unset_v(g, y as nat, 0),
            forall|ex: usize, ey: usize|
                ex < w && ey <= h && #[trigger] g.state(EdgeId::H(ex, ey)) == EdgeState::Unset ==> edges@.contains(
                    EdgeId::H(ex, ey),
                ),
            forall|ex: usize, ey: usize|
                ex <= w && ey < y && #[trigger] g.state(EdgeId::V(ex, ey)) == EdgeState::Unset ==> edges@.contains(
                    EdgeId::V(ex, ey),
                ),
        decreases h - y,
    {
        let mut x: usize = 0;
        while x <= w
            invariant
                sol.inv(),
                g == sol.grid(),
                w == g.width,
                h == g.height,
                w + 1 <= usize::MAX,
                h + 1 <= usize::MAX,
                y < h,
                x <= w + 1,
                forall|i: int| 0 <= i < edges@.len() ==> g.has(#[trigger] edges@[i]),
                forall|i: int| 0 <= i < edges@.len() ==> g.state(#[trigger] edges@[i]) == EdgeState::Unset,
                edges@ == unset_v(g, y as nat, x as nat),
                forall|ex: usize, ey: usize|
                    ex < w && ey <= h && #[trigger] g.state(EdgeId::H(ex, ey)) == EdgeState::Unset ==> edges@.contains(
                        EdgeId::H(ex, ey),
                    ),
                forall|ex: usize, ey: usize|
                    (ey < y || (ey == y && ex < x)) && ex <= w && #[trigger] g.state(EdgeId::V(ex, ey)) == EdgeState::Unset
                        ==> edges@.contains(EdgeId::V(ex, ey)),
            decreases w + 1 - x,
        {
            let ghost before = edges@;
            if sol.v_edge(x, y) == EdgeState::Unset {
                edges.push(EdgeId::V(x, y));
                proof {
                    assert(edges@[edges@.len() - 1] == EdgeId::V(x, y));
                }
            }
            proof {
                assert forall|f: EdgeId| before.contains(f) implies edges@.contains(f) by {
                    let k = choose|k: int| 0 <= k < before.len() && before[k] == f;
                    assert(edges@[k] == f);
                }
            }
            x = x + 1;
        }
        y = y + 1;
    }

    proof {
        assert forall|e: EdgeId| #[trigger] g.has(e) && g.state(e) == EdgeState::Unset implies edges@.contains(e) by {
            match e {
                EdgeId::H(ex, ey) => {
                    assert(g.state(EdgeId::H(ex, ey)) == EdgeState::Unset);
                },
                EdgeId::V(ex, ey) => {
                    assert(g.state(EdgeId::V(ex, ey)) == EdgeState::Unset);
                },
            }
        }
    }
    let mut changed = false;
    let mut i: usize = 0;
    while i < edges.len()
        invariant
            puzzle.wf(),
            clues_at_most_four(puzzle@),
            sol.inv(),
            fits(puzzle@, sol.grid()),
            g == old(sol).grid(),
            decides_more(*sol, *old(sol)),
            forall|k: int| 0 <= k < edges@.len() ==> g.has(#[trigger] edges@[k]),
            forall|k: int| 0 <= k < edges@.len() ==> g.state(#[trigger] edges@[k]) == EdgeState::Unset,
            i <= edges@.len(),
            !changed ==> forall|k: int|
                0 <= k < i ==> trial_fails(puzzle@, g, old(sol).pending(), #[trigger] edges@[k], EdgeState::Loop)
                    == trial_fails(puzzle@, g, old(sol).pending(), edges@[k], EdgeState::Excluded),
            !changed ==> forall|k: int|
                0 <= k < i ==> !has_problem(puzzle@, g.with(#[trigger] edges@[k], EdgeState::Loop)) && !has_problem(
                    puzzle@,
                    g.with(edges@[k], EdgeState::Excluded),
                ),
            !changed ==> forall|k: int|
                0 <= k < i ==> !has_problem(puzzle@, rules_around(puzzle@, g.with(#[trigger] edges@[k], EdgeState::Loop), edges@[k]))
                    && !has_problem(puzzle@, rules_around(puzzle@, g.with(edges@[k], EdgeState::Excluded), edges@[k])),
            changed ==> sol.unset_count() < old(sol).unset_count(),
            !changed ==> *sol == *old(sol),
            keeps_solutions(puzzle@, g, sol.grid()),
            edges@ == unset_list(g),
            look_from(puzzle@, (g, old(sol).pending()), edges@, 0, false) == look_from(
                puzzle@,
                (sol.grid(), sol.pending()),
                edges@,
                i as nat,
                changed,
            ),
        decreases edges@.len() - i,
    {
        let e = edges[i];
        proof {
            assert(g.has(edges@[i as int]));
            sol.lemma_log_is_pending();
        }
        let ghost stb = (sol.grid(), sol.pending());
        let ghost cb = changed;
        if sol.edge(e) != EdgeState::Unset {
            proof {
                assert(look_from(puzzle@, stb, edges@, i as nat, cb) == look_from(puzzle@, stb, edges@, (i + 1) as nat, cb));
            }
            i = i + 1;
            continue;
        }
        let loop_ok = !trial_contradicts(puzzle, sol, e, EdgeState::Loop);
        let exc_ok = !trial_contradicts(puzzle, sol, e, EdgeState::Excluded);
        let ghost gb = sol.grid();
        proof {
            assert(loop_ok == !trial_fails(puzzle@, stb.0, stb.1, e, EdgeState::Loop));
            assert(exc_ok == !trial_fails(puzzle@, stb.0, stb.1, e, EdgeState::Excluded));
        }
        match (loop_ok, exc_ok) {
            (false, false) => {
                proof {
                    assert forall|s: Grid| #[trigger] is_solution(puzzle@, s) implies !agrees(gb, s) by {}
                    if !changed {
                        assert(g.has(e) && g.state(e) == EdgeState::Unset);
                        assert(lookahead_idle(puzzle@, g, old(sol).pending()));
                    }
                }
                proof {
                    assert(look_from(puzzle@, stb, edges@, i as nat, cb) == (stb, cb));
                }
                return changed;
            },
            (true, false) => {
                try_set(sol, e, EdgeState::Loop);
                changed = true;
                proof {
                    sol.lemma_log_is_pending();
                    assert(stb.1 + seq![e] =~= stb.1.push(e));
                    assert((sol.grid(), sol.pending()) == (stb.0.with(e, EdgeState::Loop), stb.1.push(e)));
                    assert(look_from(puzzle@, stb, edges@, i as nat, cb) == look_from(
                        puzzle@,
                        (stb.0.with(e, EdgeState::Loop), stb.1.push(e)),
                        edges@,
                        (i + 1) as nat,
                        true,
                    ));
                    lemma_set_one_forced(gb, sol.grid(), e, EdgeState::Loop);
                    lemma_forced_extends(g, gb, sol.grid(), seq![e], EdgeState::Loop);
                    lemma_survivor_keeps(puzzle@, gb, sol.grid(), e, EdgeState::Loop);
                    lemma_keeps_trans(puzzle@, g, gb, sol.grid());
                }
            },
            (false, true) => {
                try_set(sol, e, EdgeState::Excluded);
                changed = true;
                proof {
                    sol.lemma_log_is_pending();
                    assert(stb.1 + seq![e] =~= stb.1.push(e));
                    assert((sol.grid(), sol.pending()) == (stb.0.with(e, EdgeState::Excluded), stb.1.push(e)));
                    assert(look_from(puzzle@, stb, edges@, i as nat, cb) == look_from(
                        puzzle@,
                        (stb.0.with(e, EdgeState::Excluded), stb.1.push(e)),
                        edges@,
                        (i + 1) as nat,
                        true,
                    ));
                    lemma_set_one_forced(gb, sol.grid(), e, EdgeState::Excluded);
                    lemma_forced_extends(g, gb, sol.grid(), seq![e], EdgeState::Excluded);
                    lemma_survivor_keeps(puzzle@, gb, sol.grid(), e, EdgeState::Excluded);
                    lemma_keeps_trans(puzzle@, g, gb, sol.grid());
                }
            },
            (true, true) => {
                proof {
                    assert(look_from(puzzle@, stb, edges@, i as nat, cb) == look_from(puzzle@, stb, edges@, (i + 1) as nat, cb));
                }
            },
        }
        i = i + 1;
    }
    proof {
        if !changed {
            let p = puzzle@;
            assert forall|e: EdgeId| #[trigger] g.has(e) && g.state(e) == EdgeState::Unset implies trial_fails(
                p,
                g,
                old(sol).pending(),
                e,
                EdgeState::Loop,
            ) == trial_fails(p, g, old(sol).pending(), e, EdgeState::Excluded) by {
                assert(edges@.contains(e));
                let k = choose|k: int| 0 <= k < edges@.len() && edges@[k] == e;
                assert(trial_fails(p, g, old(sol).pending(), edges@[k], EdgeState::Loop) == trial_fails(
                    p,
                    g,
                    old(sol).pending(),
                    edges@[k],
                    EdgeState::Excluded,
                ));
            }
            assert forall|e: EdgeId| #[trigger] g.has(e) && g.state(e) == EdgeState::Unset implies !has_problem(
                p,
                rules_around(p, g.with(e, EdgeState::Loop), e),
            ) && !has_problem(p, rules_around(p, g.with(e, EdgeState::Excluded), e)) by {
                assert(edges@.contains(e));
                let k = choose|k: int| 0 <= k < edges@.len() && edges@[k] == e;
                assert(!has_problem(p, rules_around(p, g.with(edges@[k], EdgeState::Loop), edges@[k])));
            }
            assert(around_settled(p, g));
            assert forall|x: usize, y: usize| x < g.width && y < g.height implies !#[trigger] cell_rule_fires(p, g, x, y, false) by {
                if cell_rule_fires(p, g, x, y, false) {
                    let (e, st) = lemma_cell_trial(p, g, x, y);
                    assert(edges@.contains(e));
                    let k = choose|k: int| 0 <= k < edges@.len() && edges@[k] == e;
                    assert(!has_problem(p, g.with(edges@[k], EdgeState::Loop)));
                }
            }
            assert forall|x: usize, y: usize| x <= g.width && y <= g.height implies !#[trigger] vertex_rule_fires(g, x, y, false) by {
                if vertex_rule_fires(g, x, y, false) {
                    let (e, st) = lemma_vertex_trial(p, g, x, y);
                    assert(edges@.contains(e));
                    let k = choose|k: int| 0 <= k < edges@.len() && edges@[k] == e;
                    assert(!has_problem(p, g.with(edges@[k], EdgeState::Loop)));
                }
            }
        }
    }
    changed
}

/// Setting an undecided edge to the state that every agreeing solution gives it
/// keeps the solutions.
proof fn lemma_survivor_keeps(p: PuzzleView, g: Grid, g2: Grid, e: EdgeId, st: EdgeState)
    requires
        forced_by(g2, g, seq![e], st),
        st != EdgeState::Unset,
        forall|s: Grid| #[trigger] is_solution(p, s) && agrees(g, s) ==> (s.state(e) == EdgeState::Loop
            <==> st == EdgeState::Loop),
    ensures
        keeps_solutions(p, g, g2),
{
    assert(seq![e][0] == e);
    lemma_forced_keeps(p, g, g2, seq![e], st);
}

/// The grid and worklist after the four seed patterns: corners, adjacent
/// threes, diagonal threes, then zeros.
pub open spec fn seeded(p: PuzzleView, st: (Grid, Seq<EdgeId>)) -> (Grid, Seq<EdgeId>) {
    zeros_state(p, diagonal_state(p, adjacent_state(p, corners_state(p, st))))
}

/// A lookahead pass over every undecided edge of `st`.
pub open spec fn look_pass(p: PuzzleView, st: (Grid, Seq<EdgeId>)) -> ((Grid, Seq<EdgeId>), bool) {
    look_from(p, st, unset_list(st.0), 0, false)
}

/// One round of the full solver: the worklist loop, then a lookahead pass.
pub open spec fn prop_round(p: PuzzleView, st: (Grid, Seq<EdgeId>)) -> (Grid, Seq<EdgeId>) {
    look_pass(p, lp_result(p, st)).0
}

/// After the worklist loop from `st`, the lookahead pass decides nothing.
pub open spec fn prop_stops(p: PuzzleView, st: (Grid, Seq<EdgeId>)) -> bool {
    !look_pass(p, lp_result(p, st)).1
}

/// The state after `n` rounds of the full solver.
pub open spec fn prop_iter(p: PuzzleView, st: (Grid, Seq<EdgeId>), n: nat) -> (Grid, Seq<EdgeId>)
    decreases n,
{
    if n == 0 {
        st
    } else {
        prop_round(p, prop_iter(p, st, (n - 1) as nat))
    }
}

/// Where the full solver stops from `st`: the worklist loop's result in the
/// first round whose lookahead pass decides nothing.
pub open spec fn prop_result(p: PuzzleView, st: (Grid, Seq<EdgeId>)) -> (Grid, Seq<EdgeId>) {
    let n = choose|n: nat|
        prop_stops(p, #[trigger] prop_iter(p, st, n)) && forall|m: nat| m < n ==> !prop_stops(p, #[trigger] prop_iter(p, st, m));
    lp_result(p, prop_iter(p, st, n))
}

/// The first round that stops gives the solver's result.
proof fn lemma_prop_result(p: PuzzleView, st: (Grid, Seq<EdgeId>), n: nat)
    requires
        prop_stops(p, prop_iter(p, st, n)),
        forall|m: nat| m < n ==> !prop_stops(p, #[trigger] prop_iter(p, st, m)),
    ensures
        prop_result(p, st) == lp_result(p, prop_iter(p, st, n)),
{
    let k = choose|k: nat|
        prop_stops(p, #[trigger] prop_iter(p, st, k)) && forall|m: nat| m < k ==> !prop_stops(p, #[trigger] prop_iter(p, st, m));
    if k < n {
        assert(!prop_stops(p, prop_iter(p, st, k)));
    } else if n < k {
        assert(!prop_stops(p, prop_iter(p, st, n)));
    }
}

/// The grid the full solver stops at from the blank grid.
pub open spec fn hard_result(p: PuzzleView) -> Grid {
    prop_result(p, seeded(p, (blank_grid(p.width, p.height), Seq::empty()))).0
}

/// Runs constraint propagation from scratch. Every solution of the puzzle that
/// draws the shared edge of each pair of adjacent 3-clues (every solution but a
/// lone rectangle round such a pair) agrees with the result, and neither the
/// cell-clue rule nor the vertex-degree rule fires anywhere on it unless no
/// solution agrees with it at all.
pub fn propagate(puzzle: &Puzzle) -> (sol: SolverLines)
    requires
        puzzle.wf(),
        clues_at_most_four(puzzle@),
        (puzzle@.width + 1) * (puzzle@.height + 1) <= u32::MAX,
        2 * ((puzzle@.width + 1) * (puzzle@.height + 1)) <= usize::MAX,
    ensures
        sol.inv(),
        fits(puzzle@, sol.grid()),
        no_premature_fixpoint(puzzle@, sol.grid()),
        forall|s: Grid| #[trigger] is_solution(puzzle@, s) && fits(puzzle@, s) && follows_seed_patterns(puzzle@, s)
            ==> agrees(sol.grid(), s),
        local_fixpoint(puzzle@, sol.grid(), false) || rules_out_all(puzzle@, sol.grid()),
        lookahead_idle(puzzle@, sol.grid(), Seq::empty()),
        rules_out_all(puzzle@, sol.grid()) || around_settled(puzzle@, sol.grid()),
        sol.grid() == hard_result(puzzle@),
{
    let mut sol = SolverLines::empty(puzzle.width(), puzzle.height());
    let ghost g0 = sol.grid();
    proof {
        sol.lemma_inv();
        lemma_blank(g0);
        assert(sol.pending() =~= Seq::<EdgeId>::empty());
        assert forall|s: Grid| #[trigger] is_solution(puzzle@, s) && fits(puzzle@, s) implies agrees(g0, s) by {}
    }
    propagate_from(puzzle, &mut sol);
    proof {
        assert forall|s: Grid| #[trigger] is_solution(puzzle@, s) && fits(puzzle@, s) && follows_seed_patterns(puzzle@, s)
            implies agrees(sol.grid(), s) by {
            assert(agrees(g0, s));
        }
    }
    sol
}

/// Applies forcing rules until fixpoint. Never overwrites an already-set edge,
/// so a contradicting deduction is silently dropped (caller can detect by re-checking).
///
/// Runs local rules first (cell-clue, vertex-degree, no-premature-loop, plus the
/// one-shot corner / adjacent-threes / diagonal-threes patterns), then a 1-step
/// trial-elimination pass: for each unset edge, tentatively set Loop *and*
/// Excluded; whichever side leads to a `find_problems` contradiction is
/// impossible, so we force the survivor. Repeats until a full pass produces
/// no changes.
///
/// It stops where, for every undecided edge, the two trials (drawn, excluded,
/// each followed by the worklist loop) both end in a problem or both do not,
/// or some edge has both end in one.
///
/// It stops where neither the cell-clue rule nor the vertex-degree rule fires,
/// unless the grid has ruled out every solution: each such rule would have
/// been caught by a trial.
///
/// Every deduction holds in every solution that agrees with the starting grid,
/// save the shared edge of two adjacent 3-clues, which a solution leaves out
/// only when it is the rectangle round that pair and nothing else.
#[verifier::rlimit(50)]
#[verifier::spinoff_prover]
pub fn propagate_from(puzzle: &Puzzle, sol: &mut SolverLines)
    requires
        puzzle.wf(),
        clues_at_most_four(puzzle@),
        old(sol).inv(),
        fits(puzzle@, old(sol).grid()),
    ensures
        final(sol).inv(),
        final(sol).grid().extends(old(sol).grid()),
        no_premature_fixpoint(puzzle@, final(sol).grid()),
        keeps_patterned(puzzle@, old(sol).grid(), final(sol).grid()),
        local_fixpoint(puzzle@, final(sol).grid(), false) || rules_out_all(puzzle@, final(sol).grid()),
        final(sol).pending().len() == 0,
        lookahead_idle(puzzle@, final(sol).grid(), Seq::empty()),
        rules_out_all(puzzle@, final(sol).grid()) || around_settled(puzzle@, final(sol).grid()),
        (final(sol).grid(), final(sol).pending()) == prop_result(puzzle@, seeded(puzzle@, (old(sol).grid(), old(sol).pending()))),
{
    let ghost p = puzzle@;
    let ghost g0 = sol.grid();
    proof {
        sol.lemma_log_is_pending();
    }
    let ghost st0 = (sol.grid(), sol.pending());
    apply_pattern_corners(puzzle, sol);
    let ghost g1 = sol.grid();
    apply_pattern_adjacent_threes(puzzle, sol);
    let ghost g2 = sol.grid();
    apply_pattern_diagonal_threes(puzzle, sol);
    let ghost g3 = sol.grid();
    apply_pattern_zeros(puzzle, sol);
    let ghost mut n: nat = 0;
    proof {
        sol.lemma_log_is_pending();
        assert((sol.grid(), sol.pending()) == seeded(p, st0));
        lemma_extends_trans(g0, g1, g2);
        lemma_extends_trans(g0, g2, g3);
        lemma_extends_trans(g0, g3, sol.grid());
        lemma_keeps_patterned(p, g0, g1);
        lemma_keeps_patterned(p, g2, g3);
        lemma_keeps_patterned(p, g3, sol.grid());
        lemma_patterned_trans(p, g0, g1, g2);
        lemma_patterned_trans(p, g0, g2, g3);
        lemma_patterned_trans(p, g0, g3, sol.grid());
    }
    loop
        invariant
            puzzle.wf(),
            clues_at_most_four(puzzle@),
            p == puzzle@,
            sol.inv(),
            fits(puzzle@, sol.grid()),
            sol.grid().extends(g0),
            g0 == old(sol).grid(),
            keeps_patterned(p, g0, sol.grid()),
            st0 == (old(sol).grid(), old(sol).pending()),
            (sol.grid(), sol.pending()) == prop_iter(p, seeded(p, st0), n),
            forall|m: nat| m < n ==> !prop_stops(p, #[trigger] prop_iter(p, seeded(p, st0), m)),
        decreases sol.unset_count(),
    {
        let ghost ga = sol.grid();
        local_propagate(puzzle, sol);
        let ghost gb = sol.grid();
        proof {
            lemma_extends_trans(g0, ga, gb);
            lemma_keeps_patterned(p, ga, gb);
            lemma_patterned_trans(p, g0, ga, gb);
        }
        if !apply_lookahead(puzzle, sol) {
            proof {
                assert(sol.pending() =~= Seq::<EdgeId>::empty());
                assert(prop_stops(p, prop_iter(p, seeded(p, st0), n)));
                lemma_prop_result(p, seeded(p, st0), n);
            }
            return;
        }
        proof {
            assert(prop_iter(p, seeded(p, st0), n + 1) == prop_round(p, prop_iter(p, seeded(p, st0), n)));
            assert forall|m: nat| m < n + 1 implies !prop_stops(p, #[trigger] prop_iter(p, seeded(p, st0), m)) by {}
            n = n + 1;
            lemma_extends_trans(g0, gb, sol.grid());
            lemma_keeps_patterned(p, gb, sol.grid());
            lemma_patterned_trans(p, g0, gb, sol.grid());
        }
    }
}

/// An edge whose ends the loop edges of `g` already join, and whose drawing
/// does not solve the puzzle, is off every solution that agrees with a grid
/// that `g` only had exclusions added to.
proof fn lemma_closing_excluded(p: PuzzleView, g: Grid, gb: Grid, e: EdgeId)
    requires
        fits(p, g),
        g.width + 1 <= usize::MAX,
        g.height + 1 <= usize::MAX,
        gb.only_excludes_from(g),
        g.has(e),
        g.state(e) == EdgeState::Unset,
        g.loop_connected(ends(g.width, e).0, ends(g.width, e).1),
        !is_solution(p, g.with(e, EdgeState::Loop)),
    ensures
        forall|s: Grid| #[trigger] is_solution(p, s) && agrees(gb, s) ==> forall|i: int|
            0 <= i < seq![e].len() && gb.state(#[trigger] seq![e][i]) == EdgeState::Unset ==> (s.state(seq![e][i])
                == EdgeState::Loop <==> EdgeState::Excluded == EdgeState::Loop),
{
    assert forall|s: Grid| #[trigger] is_solution(p, s) && agrees(gb, s) implies forall|i: int|
        0 <= i < seq![e].len() && gb.state(#[trigger] seq![e][i]) == EdgeState::Unset ==> (s.state(seq![e][i])
            == EdgeState::Loop <==> EdgeState::Excluded == EdgeState::Loop) by {
        assert(agrees(g, s)) by {
            assert forall|f: EdgeId| #[trigger] g.has(f) implies (g.state(f) == EdgeState::Loop ==> s.state(f)
                == EdgeState::Loop) && (g.state(f) == EdgeState::Excluded ==> s.state(f) != EdgeState::Loop) by {
                assert(gb.has(f));
            }
        }
        if s.state(e) == EdgeState::Loop {
            crate::closing::lemma_closing_edge(p, g, s, e);
        }
        assert(seq![e][0] == e);
    }
}

// ---------------------------------------------------------------------------
// The local rules rule out no solution
// ---------------------------------------------------------------------------

/// How many of the listed edges are undecided in `g` and loop in `s`.
pub open spec fn unset_loops(g: Grid, s: Grid, es: Seq<EdgeId>) -> nat
    decreases es.len(),
{
    if es.len() == 0 {
        0
    } else {
        unset_loops(g, s, es.drop_last()) + if g.state(es.last()) == EdgeState::Unset && s.state(es.last())
            == EdgeState::Loop {
            1nat
        } else {
            0nat
        }
    }
}

/// On edges where `g` agrees with `s`, the loop edges of `s` are those of `g`
/// and the undecided edges of `g` that `s` draws.
proof fn lemma_count_agrees(g: Grid, s: Grid, es: Seq<EdgeId>)
    requires
        agrees(g, s),
        all_in(g, es),
    ensures
        count_state(s, es, EdgeState::Loop) == count_state(g, es, EdgeState::Loop) + unset_loops(g, s, es),
        unset_loops(g, s, es) <= count_state(g, es, EdgeState::Unset),
        unset_loops(g, s, es) == 0 ==> forall|i: int|
            0 <= i < es.len() && g.state(#[trigger] es[i]) == EdgeState::Unset ==> s.state(es[i]) != EdgeState::Loop,
        unset_loops(g, s, es) == count_state(g, es, EdgeState::Unset) ==> forall|i: int|
            0 <= i < es.len() && g.state(#[trigger] es[i]) == EdgeState::Unset ==> s.state(es[i]) == EdgeState::Loop,
    decreases es.len(),
{
    if es.len() > 0 {
        let t = es.drop_last();
        assert forall|i: int| 0 <= i < t.len() implies g.has(#[trigger] t[i]) by {
            assert(t[i] == es[i]);
        }
        lemma_count_agrees(g, s, t);
        let e = es.last();
        assert(g.has(es[es.len() - 1]));
        assert forall|i: int| 0 <= i < t.len() implies #[trigger] t[i] == es[i] by {}
        if unset_loops(g, s, es) == 0 {
            assert forall|i: int| 0 <= i < es.len() && g.state(#[trigger] es[i]) == EdgeState::Unset implies s.state(es[i])
                != EdgeState::Loop by {
                if i < t.len() {
                    assert(t[i] == es[i]);
                }
            }
        }
        if unset_loops(g, s, es) == count_state(g, es, EdgeState::Unset) {
            assert forall|i: int| 0 <= i < es.len() && g.state(#[trigger] es[i]) == EdgeState::Unset implies s.state(es[i])
                == EdgeState::Loop by {
                if i < t.len() {
                    assert(t[i] == es[i]);
                }
            }
        }
    }
}

/// Forcing the undecided listed edges to what every agreeing solution gives
/// them keeps the solutions.
proof fn lemma_forced_keeps(p: PuzzleView, g: Grid, g2: Grid, es: Seq<EdgeId>, st: EdgeState)
    requires
        forced_by(g2, g, es, st),
        st != EdgeState::Unset,
        forall|s: Grid| #[trigger] is_solution(p, s) && agrees(g, s) ==> forall|i: int|
            0 <= i < es.len() && g.state(#[trigger] es[i]) == EdgeState::Unset ==> (s.state(es[i]) == EdgeState::Loop
                <==> st == EdgeState::Loop),
    ensures
        keeps_solutions(p, g, g2),
{
    assert forall|s: Grid| #[trigger] is_solution(p, s) && agrees(g, s) implies agrees(g2, s) by {
        assert forall|e: EdgeId| #[trigger] g2.has(e) implies (g2.state(e) == EdgeState::Loop ==> s.state(e)
            == EdgeState::Loop) && (g2.state(e) == EdgeState::Excluded ==> s.state(e) != EdgeState::Loop) by {
            assert(g.has(e));
            if es.contains(e) && g.state(e) == EdgeState::Unset {
                let i = choose|i: int| 0 <= i < es.len() && es[i] == e;
                assert(g.state(es[i]) == EdgeState::Unset);
            }
        }
    }
}

/// Leaving the grid as it was keeps the solutions.
proof fn lemma_keeps_refl(p: PuzzleView, g: Grid)
    ensures
        keeps_solutions(p, g, g),
{
}

/// Keeping the solutions composes.
pub proof fn lemma_keeps_trans(p: PuzzleView, g0: Grid, g1: Grid, g2: Grid)
    requires
        keeps_solutions(p, g0, g1),
        keeps_solutions(p, g1, g2),
    ensures
        keeps_solutions(p, g0, g2),
{
    assert forall|s: Grid| #[trigger] is_solution(p, s) && agrees(g0, s) implies agrees(g2, s) by {
        assert(agrees(g1, s));
    }
}

/// The cell-clue rule rules out no solution: a clue that its loop edges already
/// meet leaves its other edges off every solution, and a clue that needs all its
/// open edges puts them on every solution.
proof fn lemma_cell_rule_sound(p: PuzzleView, g: Grid, g2: Grid, x: usize, y: usize, excludes_only: bool)
    requires
        p.width == g.width,
        p.height == g.height,
        x < p.width,
        y < p.height,
        cell_rule_fires(p, g, x, y, excludes_only),
        forced_by(g2, g, cell_edge_list(x, y), cell_rule_state(p, g, x, y)),
    ensures
        keeps_solutions(p, g, g2),
{
    let es = cell_edge_list(x, y);
    let st = cell_rule_state(p, g, x, y);
    lemma_cell_edges_in(g, x, y);
    lemma_counts_total(g, es);
    assert forall|s: Grid| #[trigger] is_solution(p, s) && agrees(g, s) implies forall|i: int|
        0 <= i < es.len() && g.state(#[trigger] es[i]) == EdgeState::Unset ==> (s.state(es[i]) == EdgeState::Loop
            <==> st == EdgeState::Loop) by {
        lemma_count_agrees(g, s, es);
        assert(match p.cell(x as int, y as int) {
            Cell::Clue(n) => count_state(s, cell_edge_list(x, y), EdgeState::Loop) == n,
            Cell::Empty => true,
        });
    }
    lemma_forced_keeps(p, g, g2, es, st);
}

/// The vertex-degree rule rules out no solution: every vertex of a solution has
/// degree 0 or 2.
proof fn lemma_vertex_rule_sound(p: PuzzleView, g: Grid, g2: Grid, x: usize, y: usize, excludes_only: bool)
    requires
        p.width == g.width,
        p.height == g.height,
        x <= g.width,
        y <= g.height,
        vertex_rule_fires(g, x, y, excludes_only),
        forced_by(g2, g, vertex_edge_list(x, y, g.width, g.height), vertex_rule_state(g, x, y)),
    ensures
        keeps_solutions(p, g, g2),
{
    let es = vertex_edge_list(x, y, g.width, g.height);
    let st = vertex_rule_state(g, x, y);
    lemma_vertex_edges_in(g, x, y);
    lemma_counts_total(g, es);
    assert forall|s: Grid| #[trigger] is_solution(p, s) && agrees(g, s) implies forall|i: int|
        0 <= i < es.len() && g.state(#[trigger] es[i]) == EdgeState::Unset ==> (s.state(es[i]) == EdgeState::Loop
            <==> st == EdgeState::Loop) by {
        lemma_count_agrees(g, s, es);
        let d = count_state(s, vertex_edge_list(x, y, s.width, s.height), EdgeState::Loop);
        assert(d == 0 || d == 2);
    }
    lemma_forced_keeps(p, g, g2, es, st);
}

/// A cell that [`find_problems`] flags rules out every solution: no solution of
/// the puzzle agrees with the grid.
pub proof fn lemma_bad_cell_rules_out(p: PuzzleView, g: Grid, s: Grid, x: usize, y: usize)
    requires
        p.width == g.width,
        p.height == g.height,
        x < p.width,
        y < p.height,
        cell_is_bad(p, g, x, y),
        is_solution(p, s),
    ensures
        !agrees(g, s),
{
    if agrees(g, s) {
        let es = cell_edge_list(x, y);
        lemma_cell_edges_in(g, x, y);
        lemma_counts_total(g, es);
        lemma_counts_total(s, es);
        lemma_count_agrees(g, s, es);
        lemma_excluded_not_loop(g, s, es);
        assert(match p.cell(x as int, y as int) {
            Cell::Clue(n) => count_state(s, cell_edge_list(x, y), EdgeState::Loop) == n,
            Cell::Empty => true,
        });
    }
}

/// A vertex that [`find_problems`] flags rules out every solution: no solution
/// of the puzzle agrees with the grid.
pub proof fn lemma_bad_vertex_rules_out(p: PuzzleView, g: Grid, s: Grid, x: usize, y: usize)
    requires
        x <= g.width,
        y <= g.height,
        vertex_is_bad(g, x, y),
        is_solution(p, s),
    ensures
        !agrees(g, s),
{
    if agrees(g, s) {
        let es = vertex_edge_list(x, y, g.width, g.height);
        lemma_vertex_edges_in(g, x, y);
        lemma_counts_total(g, es);
        lemma_count_agrees(g, s, es);
        let d = count_state(s, vertex_edge_list(x, y, s.width, s.height), EdgeState::Loop);
        assert(d == 0 || d == 2);
    }
}

/// Among edges where `g` agrees with `s`, those that `g` excludes are not loop in
/// `s`, so `s` draws at most the listed edges that `g` has not excluded.
proof fn lemma_excluded_not_loop(g: Grid, s: Grid, es: Seq<EdgeId>)
    requires
        agrees(g, s),
        all_in(g, es),
    ensures
        count_state(s, es, EdgeState::Loop) + count_state(g, es, EdgeState::Excluded) <= es.len(),
    decreases es.len(),
{
    if es.len() > 0 {
        let t = es.drop_last();
        assert forall|i: int| 0 <= i < t.len() implies g.has(#[trigger] t[i]) by {
            assert(t[i] == es[i]);
        }
        lemma_excluded_not_loop(g, s, t);
        assert(g.has(es[es.len() - 1]));
    }
}

// ---------------------------------------------------------------------------
// The lookahead misses no local rule
// ---------------------------------------------------------------------------

/// Some cell or vertex of `g` is one that [`find_problems`] reports.
pub open spec fn has_problem(p: PuzzleView, g: Grid) -> bool {
    ||| exists|x: usize, y: usize| x < g.width && y < g.height && #[trigger] cell_is_bad(p, g, x, y)
    ||| exists|x: usize, y: usize| x <= g.width && y <= g.height && #[trigger] vertex_is_bad(g, x, y)
}

/// No solution of `p` agrees with `g`.
pub open spec fn rules_out_all(p: PuzzleView, g: Grid) -> bool {
    forall|s: Grid| #[trigger] is_solution(p, s) ==> !agrees(g, s)
}

/// A problem stays a problem as more edges are decided.
proof fn lemma_problem_stays(p: PuzzleView, g1: Grid, g2: Grid)
    requires
        g2.extends(g1),
        has_problem(p, g1),
    ensures
        has_problem(p, g2),
{
    if exists|x: usize, y: usize| x < g1.width && y < g1.height && #[trigger] cell_is_bad(p, g1, x, y) {
        let (x, y) = choose|x: usize, y: usize| x < g1.width && y < g1.height && #[trigger] cell_is_bad(p, g1, x, y);
        let es = cell_edge_list(x, y);
        lemma_cell_edges_in(g1, x, y);
        assert(g1.has(es[0]) && g1.has(es[1]) && g1.has(es[2]) && g1.has(es[3]));
        lemma_count4(g1, es, EdgeState::Loop);
        lemma_count4(g2, es, EdgeState::Loop);
        lemma_count4(g1, es, EdgeState::Excluded);
        lemma_count4(g2, es, EdgeState::Excluded);
        assert(cell_is_bad(p, g2, x, y));
    } else {
        let (x, y) = choose|x: usize, y: usize| x <= g1.width && y <= g1.height && #[trigger] vertex_is_bad(g1, x, y);
        lemma_vertex_edges_in(g1, x, y);
        lemma_vertex_count(g1, x, y, EdgeState::Loop);
        lemma_vertex_count(g2, x, y, EdgeState::Loop);
        lemma_vertex_count(g1, x, y, EdgeState::Unset);
        lemma_vertex_count(g2, x, y, EdgeState::Unset);
        let es = vertex_edge_list(x, y, g1.width, g1.height);
        assert forall|i: int| 0 <= i < es.len() implies g1.has(#[trigger] es[i]) by {}
        assert(x > 0 ==> g1.has(EdgeId::H((x - 1) as usize, y)));
        assert(x < g1.width ==> g1.has(EdgeId::H(x, y)));
        assert(y > 0 ==> g1.has(EdgeId::V(x, (y - 1) as usize)));
        assert(y < g1.height ==> g1.has(EdgeId::V(x, y)));
        assert(vertex_is_bad(g2, x, y));
    }
}

/// Where the cell-clue rule fires, deciding one of the cell's undecided edges
/// against the rule leaves a problem.
proof fn lemma_cell_trial(p: PuzzleView, g: Grid, x: usize, y: usize) -> (r: (EdgeId, EdgeState))
    requires
        p.width == g.width,
        p.height == g.height,
        x < g.width,
        y < g.height,
        cell_rule_fires(p, g, x, y, false),
    ensures
        g.has(r.0),
        g.state(r.0) == EdgeState::Unset,
        r.1 != EdgeState::Unset,
        has_problem(p, g.with(r.0, r.1)),
{
    let es = cell_edge_list(x, y);
    lemma_cell_edges_in(g, x, y);
    assert(g.has(es[0]) && g.has(es[1]) && g.has(es[2]) && g.has(es[3]));
    lemma_count4(g, es, EdgeState::Loop);
    lemma_count4(g, es, EdgeState::Excluded);
    lemma_count4(g, es, EdgeState::Unset);
    let e = if g.state(es[0]) == EdgeState::Unset {
        es[0]
    } else if g.state(es[1]) == EdgeState::Unset {
        es[1]
    } else if g.state(es[2]) == EdgeState::Unset {
        es[2]
    } else {
        es[3]
    };
    let st = if cell_rule_state(p, g, x, y) == EdgeState::Excluded { EdgeState::Loop } else { EdgeState::Excluded };
    let g2 = g.with(e, st);
    lemma_count4(g2, es, EdgeState::Loop);
    lemma_count4(g2, es, EdgeState::Excluded);
    assert(cell_is_bad(p, g2, x, y));
    (e, st)
}

/// Where the vertex-degree rule fires, deciding one of the vertex's undecided
/// edges against the rule leaves a problem.
proof fn lemma_vertex_trial(p: PuzzleView, g: Grid, x: usize, y: usize) -> (r: (EdgeId, EdgeState))
    requires
        x <= g.width,
        y <= g.height,
        vertex_rule_fires(g, x, y, false),
    ensures
        g.has(r.0),
        g.state(r.0) == EdgeState::Unset,
        r.1 != EdgeState::Unset,
        has_problem(p, g.with(r.0, r.1)),
{
    lemma_vertex_count(g, x, y, EdgeState::Loop);
    lemma_vertex_count(g, x, y, EdgeState::Unset);
    let c0 = EdgeId::H((x - 1) as usize, y);
    let c1 = EdgeId::H(x, y);
    let c2 = EdgeId::V(x, (y - 1) as usize);
    let c3 = EdgeId::V(x, y);
    let e = if x > 0 && g.state(c0) == EdgeState::Unset {
        c0
    } else if x < g.width && g.state(c1) == EdgeState::Unset {
        c1
    } else if y > 0 && g.state(c2) == EdgeState::Unset {
        c2
    } else {
        c3
    };
    let st = if vertex_rule_state(g, x, y) == EdgeState::Loop { EdgeState::Excluded } else { EdgeState::Loop };
    let g2 = g.with(e, st);
    lemma_vertex_count(g2, x, y, EdgeState::Loop);
    lemma_vertex_count(g2, x, y, EdgeState::Unset);
    assert(vertex_is_bad(g2, x, y));
    (e, st)
}


} // verus!
