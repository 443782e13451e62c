//! Why closing a loop early rules out no solution: if a solution draws an
//! undecided edge whose two ends the drawn loop edges already join, then the
//! drawn edges and that edge already form the whole solution loop. Also: a
//! solution drawn inside another is that solution.
use vstd::prelude::*;

use crate::check::{cell_edge_list, count_state, degrees_valid, is_solution, vertex_edge_list};
use crate::edge::{EdgeId, EdgeState};
use crate::graph::{is_path, lemma_reach_closed, lemma_simple_path, reachable};
use crate::lines::{ends, lemma_row_major_inj, vertex_id, Grid};
use crate::propagate::{agrees, lemma_cell_edges_in, lemma_vertex_edges_in};
use crate::puzzle::PuzzleView;
use crate::seeds::lemma_vertex_count;

verus! {

/// Edge `f` has the vertex with flat index `z` at one of its ends.
pub open spec fn touches(w: nat, f: EdgeId, z: int) -> bool {
    ends(w, f).0 == z || ends(w, f).1 == z
}

/// An edge's first end comes before its second.
proof fn lemma_ends_ordered(w: nat, f: EdgeId)
    ensures
        ends(w, f).0 < ends(w, f).1,
{
    match f {
        EdgeId::H(x, y) => {},
        EdgeId::V(x, y) => {
            assert(y * (w + 1) + x < (y + 1) * (w + 1) + x) by (nonlinear_arith);
        },
    }
}

/// Two edges of a grid with the same ends are the same edge.
proof fn lemma_ends_injective(g: Grid, f1: EdgeId, f2: EdgeId)
    requires
        g.has(f1),
        g.has(f2),
        ends(g.width, f1) == ends(g.width, f2),
    ensures
        f1 == f2,
{
    let c = (g.width + 1) as int;
    match (f1, f2) {
        (EdgeId::H(x1, y1), EdgeId::H(x2, y2)) => {
            lemma_row_major_inj(c, x1 as int, y1 as int, x2 as int, y2 as int);
        },
        (EdgeId::V(x1, y1), EdgeId::V(x2, y2)) => {
            lemma_row_major_inj(c, x1 as int, y1 as int, x2 as int, y2 as int);
        },
        (EdgeId::H(x1, y1), EdgeId::V(x2, y2)) => {
            lemma_row_major_inj(c, x1 as int, y1 as int, x2 as int, y2 as int);
            lemma_row_major_inj(c, (x1 + 1) as int, y1 as int, x2 as int, (y2 + 1) as int);
        },
        (EdgeId::V(x1, y1), EdgeId::H(x2, y2)) => {
            lemma_row_major_inj(c, x1 as int, y1 as int, x2 as int, y2 as int);
            lemma_row_major_inj(c, x1 as int, (y1 + 1) as int, (x2 + 1) as int, y2 as int);
        },
    }
}

/// The column of vertex `z` on a grid `w` cells wide.
pub open spec fn vertex_x(w: nat, z: int) -> usize {
    (z % ((w + 1) as int)) as usize
}

/// The row of vertex `z` on a grid `w` cells wide.
pub open spec fn vertex_y(w: nat, z: int) -> usize {
    (z / ((w + 1) as int)) as usize
}

/// Each end of an edge of the grid is a vertex of the grid, at its column and row.
proof fn lemma_end_coords(g: Grid, f: EdgeId, z: int)
    requires
        g.has(f),
        g.width <= usize::MAX,
        g.height <= usize::MAX,
        touches(g.width, f, z),
    ensures
        vertex_x(g.width, z) <= g.width,
        vertex_y(g.width, z) <= g.height,
        z == vertex_id(g.width, vertex_x(g.width, z) as int, vertex_y(g.width, z) as int),
{
    let c = (g.width + 1) as int;
    let (x, y): (int, int) = match f {
        EdgeId::H(fx, fy) => if z == ends(g.width, f).0 {
            (fx as int, fy as int)
        } else {
            (fx + 1, fy as int)
        },
        EdgeId::V(fx, fy) => if z == ends(g.width, f).0 {
            (fx as int, fy as int)
        } else {
            (fx as int, fy + 1)
        },
    };
    assert(z == vertex_id(g.width, x, y));
    assert(0 <= x < c);
    assert(0 <= y <= g.height);
    vstd::arithmetic::div_mod::lemma_fundamental_div_mod_converse(z, c, y, x);
}

/// The edges of the grid that touch vertex (x, y) are among those listed at it.
proof fn lemma_touch_listed(g: Grid, f: EdgeId, x: usize, y: usize)
    requires
        g.has(f),
        x <= g.width,
        y <= g.height,
        touches(g.width, f, vertex_id(g.width, x as int, y as int)),
    ensures
        vertex_edge_list(x, y, g.width, g.height).contains(f),
{
    let c = (g.width + 1) as int;
    let l = vertex_edge_list(x, y, g.width, g.height);
    let n0: int = if x > 0 { 1 } else { 0 };
    let n1: int = n0 + if x < g.width { 1int } else { 0int };
    let n2: int = n1 + if y > 0 { 1int } else { 0int };
    match f {
        EdgeId::H(fx, fy) => {
            if vertex_id(g.width, fx as int, fy as int) == vertex_id(g.width, x as int, y as int) {
                lemma_row_major_inj(c, fx as int, fy as int, x as int, y as int);
                assert(l[n0] == f);
            } else {
                lemma_row_major_inj(c, fx + 1, fy as int, x as int, y as int);
                assert(l[0] == f);
            }
        },
        EdgeId::V(fx, fy) => {
            if vertex_id(g.width, fx as int, fy as int) == vertex_id(g.width, x as int, y as int) {
                lemma_row_major_inj(c, fx as int, fy as int, x as int, y as int);
                assert(l[n2] == f);
            } else {
                lemma_row_major_inj(c, fx as int, fy + 1, x as int, y as int);
                assert(l[n1] == f);
            }
        },
    }
}

/// Listed edges that are all loop count at least as many as there are of them.
proof fn lemma_count_ge(s: Grid, es: Seq<EdgeId>, t: Set<EdgeId>)
    requires
        t.finite(),
        forall|f: EdgeId| #[trigger] t.contains(f) ==> es.contains(f) && s.state(f) == EdgeState::Loop,
    ensures
        count_state(s, es, EdgeState::Loop) >= t.len(),
    decreases es.len(),
{
    if es.len() == 0 {
        assert forall|f: EdgeId| !t.contains(f) by {
            if t.contains(f) {
                assert(es.contains(f));
                let i = choose|i: int| 0 <= i < es.len() && es[i] == f;
            }
        }
        assert(t =~= Set::empty());
    } else {
        let l = es.last();
        let d = es.drop_last();
        let t2 = t.remove(l);
        assert forall|f: EdgeId| #[trigger] t2.contains(f) implies d.contains(f) && s.state(f) == EdgeState::Loop by {
            let i = choose|i: int| 0 <= i < es.len() && es[i] == f;
            assert(i != es.len() - 1);
            assert(d[i] == f);
        }
        lemma_count_ge(s, d, t2);
    }
}

/// At a vertex of a grid whose vertices all have degree 0 or 2, two loop edges
/// are the only ones: any loop edge there is one of them.
proof fn lemma_at_most_two(s: Grid, z: int, a: EdgeId, b: EdgeId, c: EdgeId)
    requires
        s.width <= usize::MAX,
        s.height <= usize::MAX,
        degrees_valid(s),
        s.is_loop(a),
        s.is_loop(b),
        s.is_loop(c),
        a != b,
        touches(s.width, a, z),
        touches(s.width, b, z),
        touches(s.width, c, z),
    ensures
        c == a || c == b,
{
    if c != a && c != b {
        lemma_three_loops(s, z, a, b, c);
    }
}

proof fn lemma_three_loops(s: Grid, z: int, a: EdgeId, b: EdgeId, c: EdgeId)
    requires
        s.width <= usize::MAX,
        s.height <= usize::MAX,
        degrees_valid(s),
        s.is_loop(a),
        s.is_loop(b),
        s.is_loop(c),
        a != b,
        b != c,
        a != c,
        touches(s.width, a, z),
        touches(s.width, b, z),
        touches(s.width, c, z),
    ensures
        count_state(s, vertex_edge_list(vertex_x(s.width, z), vertex_y(s.width, z), s.width, s.height), EdgeState::Loop) >= 3,
        vertex_x(s.width, z) <= s.width,
        vertex_y(s.width, z) <= s.height,
{
    lemma_end_coords(s, a, z);
    let x = vertex_x(s.width, z);
    let y = vertex_y(s.width, z);
    lemma_touch_listed(s, a, x, y);
    lemma_touch_listed(s, b, x, y);
    lemma_touch_listed(s, c, x, y);
    let t = set![a, b, c];
    lemma_count_ge(s, vertex_edge_list(x, y, s.width, s.height), t);
    assert(t.len() == 3);
    assert(count_state(s, vertex_edge_list(x, y, s.width, s.height), EdgeState::Loop) >= 3);
}

/// Grids with the same loop edges solve the same puzzles.
pub proof fn lemma_same_loops(p: PuzzleView, g1: Grid, g2: Grid)
    requires
        p.width == g1.width,
        p.height == g1.height,
        g1.width == g2.width,
        g1.height == g2.height,
        forall|f: EdgeId| #[trigger] g1.is_loop(f) <==> g2.is_loop(f),
    ensures
        is_solution(p, g1) == is_solution(p, g2),
{
    assert(g1.loop_adj() =~= g2.loop_adj()) by {
        assert forall|u: int, v: int| #[trigger] g1.loop_adj()(u, v) == g2.loop_adj()(u, v) by {
            if g1.loop_adj()(u, v) {
                let f = choose|f: EdgeId| #[trigger] g1.is_loop(f) && (ends(g1.width, f) == (u, v) || ends(g1.width, f) == (v, u));
                assert(g2.is_loop(f));
            }
            if g2.loop_adj()(u, v) {
                let f = choose|f: EdgeId| #[trigger] g2.is_loop(f) && (ends(g2.width, f) == (u, v) || ends(g2.width, f) == (v, u));
                assert(g1.is_loop(f));
            }
        }
    }
    assert forall|x: usize, y: usize| x < p.width && y < p.height implies #[trigger] count_state(
        g1,
        cell_edge_list(x, y),
        EdgeState::Loop,
    ) == count_state(g2, cell_edge_list(x, y), EdgeState::Loop) by {
        lemma_cell_edges_in(g1, x, y);
        lemma_count_same_loops(g1, g2, cell_edge_list(x, y));
    }
    assert forall|x: usize, y: usize| x <= g1.width && y <= g1.height implies #[trigger] count_state(
        g1,
        vertex_edge_list(x, y, g1.width, g1.height),
        EdgeState::Loop,
    ) == count_state(g2, vertex_edge_list(x, y, g2.width, g2.height), EdgeState::Loop) by {
        lemma_vertex_edges_in(g1, x, y);
        lemma_count_same_loops(g1, g2, vertex_edge_list(x, y, g1.width, g1.height));
    }
    assert(crate::check::clues_satisfied(p, g1) == crate::check::clues_satisfied(p, g2));
    if degrees_valid(g1) {
        assert forall|x: usize, y: usize| x <= g2.width && y <= g2.height implies {
            let d = #[trigger] count_state(g2, vertex_edge_list(x, y, g2.width, g2.height), EdgeState::Loop);
            d == 0 || d == 2
        } by {
            assert(count_state(g1, vertex_edge_list(x, y, g1.width, g1.height), EdgeState::Loop) == count_state(
                g2,
                vertex_edge_list(x, y, g2.width, g2.height),
                EdgeState::Loop,
            ));
        }
    }
    if degrees_valid(g2) {
        assert forall|x: usize, y: usize| x <= g1.width && y <= g1.height implies {
            let d = #[trigger] count_state(g1, vertex_edge_list(x, y, g1.width, g1.height), EdgeState::Loop);
            d == 0 || d == 2
        } by {
            assert(count_state(g1, vertex_edge_list(x, y, g1.width, g1.height), EdgeState::Loop) == count_state(
                g2,
                vertex_edge_list(x, y, g2.width, g2.height),
                EdgeState::Loop,
            ));
        }
    }
    assert(degrees_valid(g1) == degrees_valid(g2));
    if g1.single_loop() {
        let e = choose|e: EdgeId| #[trigger] g1.is_loop(e);
        assert(g2.is_loop(e));
        assert forall|e1: EdgeId, e2: EdgeId| #[trigger] g2.is_loop(e1) && #[trigger] g2.is_loop(e2) implies g2.loop_connected(
            ends(g2.width, e1).0,
            ends(g2.width, e2).0,
        ) by {
            assert(g1.is_loop(e1) && g1.is_loop(e2));
        }
    }
    if g2.single_loop() {
        let e = choose|e: EdgeId| #[trigger] g2.is_loop(e);
        assert(g1.is_loop(e));
        assert forall|e1: EdgeId, e2: EdgeId| #[trigger] g1.is_loop(e1) && #[trigger] g1.is_loop(e2) implies g1.loop_connected(
            ends(g1.width, e1).0,
            ends(g1.width, e2).0,
        ) by {
            assert(g2.is_loop(e1) && g2.is_loop(e2));
        }
    }
}

proof fn lemma_count_same_loops(g1: Grid, g2: Grid, es: Seq<EdgeId>)
    requires
        g1.width == g2.width,
        g1.height == g2.height,
        forall|f: EdgeId| #[trigger] g1.is_loop(f) <==> g2.is_loop(f),
        crate::propagate::all_in(g1, es),
    ensures
        count_state(g1, es, EdgeState::Loop) == count_state(g2, es, EdgeState::Loop),
    decreases es.len(),
{
    if es.len() > 0 {
        let d = es.drop_last();
        assert forall|i: int| 0 <= i < d.len() implies g1.has(#[trigger] d[i]) by {
            assert(d[i] == es[i]);
        }
        lemma_count_same_loops(g1, g2, d);
        assert(g1.has(es[es.len() - 1]));
        assert(g1.is_loop(es.last()) == g2.is_loop(es.last()));
    }
}

/// A loop edge of `g` joining vertices `a` and `b`.
pub open spec fn joining(g: Grid, a: int, b: int) -> EdgeId {
    choose|f: EdgeId| #[trigger] g.is_loop(f) && (ends(g.width, f) == (a, b) || ends(g.width, f) == (b, a))
}

/// `f` is a loop edge of `g` joining the `i`-th and next vertex of `q`.
pub open spec fn joins_at(g: Grid, q: Seq<int>, f: EdgeId, i: int) -> bool {
    g.is_loop(f) && (ends(g.width, f) == (q[i], q[i + 1]) || ends(g.width, f) == (q[i + 1], q[i]))
}

/// `f` is `e` or a loop edge of `g` along the path `q`.
pub open spec fn on_cycle(g: Grid, q: Seq<int>, e: EdgeId, f: EdgeId) -> bool {
    f == e || exists|i: int| 0 <= i < q.len() - 1 && #[trigger] joins_at(g, q, f, i)
}

/// `q` is a path of loop edges of `g` that visits no vertex twice, leads from one
/// end of the undecided edge `e` to the other, and `s` agrees with `g` and draws `e`.
pub open spec fn closing_setup(g: Grid, s: Grid, e: EdgeId, q: Seq<int>) -> bool {
    &&& g.width <= usize::MAX
    &&& g.height <= usize::MAX
    &&& g.has(e)
    &&& g.state(e) == EdgeState::Unset
    &&& agrees(g, s)
    &&& degrees_valid(s)
    &&& s.state(e) == EdgeState::Loop
    &&& is_path(g.loop_adj(), q)
    &&& q.len() >= 3
    &&& q[0] == ends(g.width, e).0
    &&& q.last() == ends(g.width, e).1
    &&& q.no_duplicates()
}

/// Along the path `q` that `e` closes, a solution has no other loop edge at a
/// vertex of the path than the two along the cycle: every loop edge there lies
/// on the cycle and leads to another of its vertices.
proof fn lemma_cycle_vertex(g: Grid, s: Grid, e: EdgeId, q: Seq<int>, j: int, f: EdgeId)
    requires
        closing_setup(g, s, e, q),
        0 <= j < q.len(),
        s.is_loop(f),
        touches(g.width, f, q[j]),
    ensures
        on_cycle(g, q, e, f),
        q.contains(ends(g.width, f).0),
        q.contains(ends(g.width, f).1),
{
    let k = q.len() - 1;
    let adj = g.loop_adj();
    assert forall|i: int| 0 <= i < k implies #[trigger] joins_at(g, q, joining(g, q[i], q[i + 1]), i) by {
        assert(adj(q[i], q[i + 1]));
    }
    let a = if j == 0 || j == k {
        e
    } else {
        joining(g, q[j - 1], q[j])
    };
    let b = if j == k {
        joining(g, q[k - 1], q[k])
    } else {
        joining(g, q[j], q[j + 1])
    };
    if j == k {
        assert(joins_at(g, q, b, k - 1));
    } else {
        assert(joins_at(g, q, b, j));
    }
    if 0 < j < k {
        assert(joins_at(g, q, a, j - 1));
        if a == b {
            assert(q[j - 1] != q[j + 1]);
            assert(q[j - 1] != q[j]);
        }
    }
    assert(a != b);
    assert(s.is_loop(a));
    assert(s.is_loop(b));
    assert(touches(g.width, a, q[j]));
    assert(touches(g.width, b, q[j]));
    lemma_at_most_two(s, q[j], a, b, f);
    if f == e {
        assert(q[0] == ends(g.width, f).0);
        assert(q[k] == ends(g.width, f).1);
    } else {
        let i = if f == a {
            j - 1
        } else if j == k {
            k - 1
        } else {
            j
        };
        assert(joins_at(g, q, f, i));
        assert(q[i] == ends(g.width, f).0 || q[i + 1] == ends(g.width, f).0);
        assert(q[i] == ends(g.width, f).1 || q[i + 1] == ends(g.width, f).1);
    }
}

/// If a solution draws an undecided edge whose two ends the loop edges of `g`
/// already join, then drawing that edge in `g` already solves the puzzle: the
/// solution's loop is those edges and that one.
pub proof fn lemma_closing_edge(p: PuzzleView, g: Grid, s: Grid, e: EdgeId)
    requires
        p.width == g.width,
        p.height == g.height,
        g.width <= usize::MAX,
        g.height <= usize::MAX,
        g.has(e),
        g.state(e) == EdgeState::Unset,
        g.loop_connected(ends(g.width, e).0, ends(g.width, e).1),
        agrees(g, s),
        is_solution(p, s),
        s.state(e) == EdgeState::Loop,
    ensures
        is_solution(p, g.with(e, EdgeState::Loop)),
{
    let w = g.width;
    let u = ends(w, e).0;
    let v = ends(w, e).1;
    let adj = g.loop_adj();
    lemma_ends_ordered(w, e);
    lemma_simple_path(adj, u, v);
    let q = choose|q: Seq<int>| #[trigger] is_path(adj, q) && q[0] == u && q.last() == v && q.no_duplicates();
    if q.len() <= 2 {
        assert(q.len() == 2);
        let z: int = 0;
        assert(adj(q[z], q[z + 1]));
        let f = choose|f: EdgeId| #[trigger] g.is_loop(f) && (ends(w, f) == (q[0], q[1]) || ends(w, f) == (q[1], q[0]));
        lemma_ends_ordered(w, f);
        lemma_ends_injective(g, f, e);
    }
    assert(closing_setup(g, s, e, q));
    let inq = |z: int| q.contains(z);
    assert forall|a: int, b: int| #[trigger] inq(a) && #[trigger] s.loop_adj()(a, b) implies inq(b) by {
        let j = choose|j: int| 0 <= j < q.len() && q[j] == a;
        let f = choose|f: EdgeId| #[trigger] s.is_loop(f) && (ends(s.width, f) == (a, b) || ends(s.width, f) == (b, a));
        lemma_cycle_vertex(g, s, e, q, j, f);
    }
    let g2 = g.with(e, EdgeState::Loop);
    assert(s.is_loop(e));
    assert forall|f: EdgeId| #[trigger] g2.is_loop(f) <==> s.is_loop(f) by {
        if s.is_loop(f) {
            assert(s.loop_connected(ends(s.width, e).0, ends(s.width, f).0));
            assert(inq(u)) by {
                assert(q[0] == u);
            }
            lemma_reach_closed(s.loop_adj(), inq, u, ends(w, f).0);
            let j = choose|j: int| 0 <= j < q.len() && q[j] == ends(w, f).0;
            lemma_cycle_vertex(g, s, e, q, j, f);
            if f != e {
                let i = choose|i: int| 0 <= i < q.len() - 1 && #[trigger] joins_at(g, q, f, i);
                assert(g.is_loop(f));
            }
        }
        if g2.is_loop(f) && f != e {
            assert(g.is_loop(f));
        }
    }
    lemma_same_loops(p, g2, s);
}

// ---------------------------------------------------------------------------
// A solution inside another
// ---------------------------------------------------------------------------

/// At a vertex where a grid with all degrees 0 or 2 has a loop edge, it has a
/// second one.
proof fn lemma_second_edge(g: Grid, f1: EdgeId, z: int) -> (f2: EdgeId)
    requires
        g.width <= usize::MAX,
        g.height <= usize::MAX,
        degrees_valid(g),
        g.is_loop(f1),
        touches(g.width, f1, z),
    ensures
        g.is_loop(f2),
        f2 != f1,
        touches(g.width, f2, z),
{
    let w = g.width;
    let h = g.height;
    let c = (w + 1) as int;
    lemma_end_coords(g, f1, z);
    let x = vertex_x(w, z);
    let y = vertex_y(w, z);
    lemma_touch_listed(g, f1, x, y);
    lemma_count_ge(g, vertex_edge_list(x, y, w, h), set![f1]);
    assert(set![f1].len() == 1);
    lemma_vertex_count(g, x, y, EdgeState::Loop);
    let c0 = EdgeId::H((x - 1) as usize, y);
    let c1 = EdgeId::H(x, y);
    let c2 = EdgeId::V(x, (y - 1) as usize);
    let c3 = EdgeId::V(x, y);
    match f1 {
        EdgeId::H(fx, fy) => {
            if vertex_id(w, fx as int, fy as int) == z {
                lemma_row_major_inj(c, fx as int, fy as int, x as int, y as int);
            } else {
                lemma_row_major_inj(c, fx + 1, fy as int, x as int, y as int);
            }
        },
        EdgeId::V(fx, fy) => {
            if vertex_id(w, fx as int, fy as int) == z {
                lemma_row_major_inj(c, fx as int, fy as int, x as int, y as int);
            } else {
                lemma_row_major_inj(c, fx as int, fy + 1, x as int, y as int);
            }
        },
    }
    assert(f1 == c0 || f1 == c1 || f1 == c2 || f1 == c3);
    if x > 0 && g.state(c0) == EdgeState::Loop && c0 != f1 {
        c0
    } else if x < w && g.state(c1) == EdgeState::Loop && c1 != f1 {
        c1
    } else if y > 0 && g.state(c2) == EdgeState::Loop && c2 != f1 {
        c2
    } else {
        c3
    }
}

/// A solution whose loop edges all lie on another solution is that solution:
/// the two draw the same edges.
pub proof fn lemma_solution_inside(p: PuzzleView, g: Grid, s: Grid)
    requires
        g.width <= usize::MAX,
        g.height <= usize::MAX,
        s.width == g.width,
        s.height == g.height,
        is_solution(p, g),
        is_solution(p, s),
        forall|f: EdgeId| #[trigger] g.is_loop(f) ==> s.is_loop(f),
    ensures
        forall|f: EdgeId| #[trigger] g.is_loop(f) <==> s.is_loop(f),
{
    lemma_loops_inside(g, s);
}

/// A single loop with all degrees 0 or 2 that draws every loop edge of a
/// nonempty grid with all degrees 0 or 2 draws nothing else.
pub proof fn lemma_loops_inside(g: Grid, s: Grid)
    requires
        g.width <= usize::MAX,
        g.height <= usize::MAX,
        s.width == g.width,
        s.height == g.height,
        degrees_valid(g),
        exists|e: EdgeId| #[trigger] g.is_loop(e),
        degrees_valid(s),
        s.single_loop(),
        forall|f: EdgeId| #[trigger] g.is_loop(f) ==> s.is_loop(f),
    ensures
        forall|f: EdgeId| #[trigger] g.is_loop(f) <==> s.is_loop(f),
{
    let w = g.width;
    let on_g = |z: int| exists|f: EdgeId| #[trigger] g.is_loop(f) && touches(w, f, z);
    // An edge of `s` at a vertex of the loop of `g` is an edge of `g`.
    assert forall|f: EdgeId, z: int| s.is_loop(f) && #[trigger] touches(w, f, z) && on_g(z) implies g.is_loop(f) by {
        let f1 = choose|f1: EdgeId| #[trigger] g.is_loop(f1) && touches(w, f1, z);
        let f2 = lemma_second_edge(g, f1, z);
        lemma_at_most_two(s, z, f1, f2, f);
    }
    assert forall|a: int, b: int| #[trigger] on_g(a) && #[trigger] s.loop_adj()(a, b) implies on_g(b) by {
        let f = choose|f: EdgeId| #[trigger] s.is_loop(f) && (ends(s.width, f) == (a, b) || ends(s.width, f) == (b, a));
        assert(touches(w, f, a));
        assert(g.is_loop(f));
        assert(touches(w, f, b));
    }
    let e0 = choose|e: EdgeId| #[trigger] g.is_loop(e);
    assert forall|f: EdgeId| #[trigger] g.is_loop(f) <==> s.is_loop(f) by {
        if s.is_loop(f) {
            assert(s.is_loop(e0));
            assert(s.loop_connected(ends(s.width, e0).0, ends(s.width, f).0));
            assert(touches(w, e0, ends(w, e0).0));
            assert(on_g(ends(w, e0).0));
            lemma_reach_closed(s.loop_adj(), on_g, ends(w, e0).0, ends(w, f).0);
            assert(touches(w, f, ends(w, f).0));
        }
    }
}

} // verus!
