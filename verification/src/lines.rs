//! Grids of edge states: their abstract model, the shared [`Lines`] surface and
//! the plain [`PlayLines`] implementation.
use vstd::prelude::*;

use crate::edge::{EdgeId, EdgeState};
use crate::graph::reachable;

verus! {

// ---------------------------------------------------------------------------
// Abstract model
// ---------------------------------------------------------------------------

/// `e` lies on a puzzle of `w` x `h` cells: horizontal edges on `h + 1` rows of
/// `w`, vertical edges on `h` rows of `w + 1`.
pub open spec fn edge_in_bounds(w: nat, h: nat, e: EdgeId) -> bool {
    match e {
        EdgeId::H(x, y) => x < w && y <= h,
        EdgeId::V(x, y) => x <= w && y < h,
    }
}

/// The abstract state of a grid of edges: its size and the state of each edge.
pub struct Grid {
    pub width: nat,
    pub height: nat,
    pub edges: Map<EdgeId, EdgeState>,
}

/// Flat index of vertex (x, y) on a grid `w` cells wide.
pub open spec fn vertex_id(w: nat, x: int, y: int) -> int {
    y * (w + 1) + x
}

/// The two vertices an edge joins, as flat indices.
pub open spec fn ends(w: nat, e: EdgeId) -> (int, int) {
    match e {
        EdgeId::H(x, y) => (vertex_id(w, x as int, y as int), vertex_id(w, x + 1, y as int)),
        EdgeId::V(x, y) => (vertex_id(w, x as int, y as int), vertex_id(w, x as int, y + 1)),
    }
}

impl Grid {
    /// The map holds exactly the edges of the grid.
    pub open spec fn well_formed(self) -> bool {
        forall|e: EdgeId| #[trigger] self.edges.dom().contains(e) <==> edge_in_bounds(self.width, self.height, e)
    }

    pub open spec fn has(self, e: EdgeId) -> bool {
        edge_in_bounds(self.width, self.height, e)
    }

    pub open spec fn state(self, e: EdgeId) -> EdgeState {
        self.edges[e]
    }

    pub open spec fn is_loop(self, e: EdgeId) -> bool {
        self.has(e) && self.edges[e] == EdgeState::Loop
    }

    /// The same grid with edge `e` set to `s`.
    pub open spec fn with(self, e: EdgeId, s: EdgeState) -> Grid {
        Grid { width: self.width, height: self.height, edges: self.edges.insert(e, s) }
    }

    /// Vertices `u` and `v` are joined by a loop edge.
    pub open spec fn loop_adj(self) -> spec_fn(int, int) -> bool {
        |u: int, v: int|
            exists|e: EdgeId| #[trigger] self.is_loop(e) && (ends(self.width, e) == (u, v) || ends(self.width, e) == (v, u))
    }

    /// Vertices `u` and `v` are joined by a path of loop edges.
    pub open spec fn loop_connected(self, u: int, v: int) -> bool {
        reachable(self.loop_adj(), u, v)
    }

    /// At least one loop edge, and all loop edges lie in one connected piece.
    pub open spec fn single_loop(self) -> bool {
        &&& exists|e: EdgeId| #[trigger] self.is_loop(e)
        &&& forall|e1: EdgeId, e2: EdgeId|
            #[trigger] self.is_loop(e1) && #[trigger] self.is_loop(e2) ==> self.loop_connected(
                ends(self.width, e1).0,
                ends(self.width, e2).0,
            )
    }

    /// Every edge that was already decided in `old` keeps its state, on a grid of the
    /// same size.
    pub open spec fn extends(self, old: Grid) -> bool {
        &&& self.width == old.width
        &&& self.height == old.height
        &&& forall|e: EdgeId|
            #[trigger] old.has(e) && old.state(e) != EdgeState::Unset ==> self.state(e) == old.state(e)
    }

    /// Every edge keeps its state, except undecided ones that became `Excluded`.
    pub open spec fn only_excludes_from(self, old: Grid) -> bool {
        &&& self.width == old.width
        &&& self.height == old.height
        &&& forall|e: EdgeId|
            #[trigger] old.has(e) ==> (self.state(e) == old.state(e) || (old.state(e)
                == EdgeState::Unset && self.state(e) == EdgeState::Excluded))
    }
}

/// How many times `v` occurs in `s`.
pub open spec fn count_of<T>(s: Seq<T>, v: T) -> nat
    decreases s.len(),
{
    if s.len() == 0 {
        0
    } else {
        count_of(s.drop_last(), v) + if s.last() == v { 1nat } else { 0nat }
    }
}

pub proof fn lemma_count_update<T>(s: Seq<T>, i: int, x: T, v: T)
    requires
        0 <= i < s.len(),
    ensures
        count_of(s.update(i, x), v) + (if s[i] == v { 1int } else { 0int }) == count_of(s, v) + (
        if x == v { 1int } else { 0int }),
    decreases s.len(),
{
    let t = s.update(i, x);
    if i == s.len() - 1 {
        assert(t.drop_last() =~= s.drop_last());
    } else {
        lemma_count_update(s.drop_last(), i, x, v);
        assert(t.drop_last() =~= s.drop_last().update(i, x));
    }
}

pub proof fn lemma_count_bound<T>(s: Seq<T>, v: T)
    ensures
        count_of(s, v) <= s.len(),
    decreases s.len(),
{
    if s.len() > 0 {
        lemma_count_bound(s.drop_last(), v);
    }
}

/// Index arithmetic of a row-major layout of `rows` rows of `cols` entries.
pub proof fn lemma_row_major(cols: int, rows: int, x: int, y: int)
    requires
        0 <= x < cols,
        0 <= y < rows,
    ensures
        0 <= y * cols + x < cols * rows,
{
    assert(y * cols + x < cols * rows) by (nonlinear_arith)
        requires
            0 <= x < cols,
            0 <= y < rows,
    ;
    assert(0 <= y * cols) by (nonlinear_arith)
        requires
            0 <= y,
            0 <= cols,
    ;
}

/// `a * b <= (a + 1) * b` and friends, for the size bounds of the edge vectors.
pub proof fn lemma_le_mul(a: int, b: int)
    requires
        0 <= a,
        0 <= b,
    ensures
        a * b <= (a + 1) * b,
        a * b <= a * (b + 1),
        a * b <= (a + 1) * (b + 1),
        b * (a + 1) <= (a + 1) * (b + 1),
{
    assert(a * b <= (a + 1) * b) by (nonlinear_arith)
        requires
            0 <= a,
            0 <= b,
    ;
    assert(a * b <= a * (b + 1)) by (nonlinear_arith)
        requires
            0 <= a,
            0 <= b,
    ;
    assert(a * b <= (a + 1) * (b + 1)) by (nonlinear_arith)
        requires
            0 <= a,
            0 <= b,
    ;
    assert(b * (a + 1) <= (a + 1) * (b + 1)) by (nonlinear_arith)
        requires
            0 <= a,
            0 <= b,
    ;
}

pub proof fn lemma_row_major_inj(cols: int, x1: int, y1: int, x2: int, y2: int)
    requires
        0 <= x1 < cols,
        0 <= x2 < cols,
        0 <= y1,
        0 <= y2,
        y1 * cols + x1 == y2 * cols + x2,
    ensures
        x1 == x2 && y1 == y2,
{
    if y1 < y2 {
        assert(y1 * cols + cols <= y2 * cols) by (nonlinear_arith)
            requires
                y1 < y2,
                0 <= cols,
        ;
    } else if y2 < y1 {
        assert(y2 * cols + cols <= y1 * cols) by (nonlinear_arith)
            requires
                y2 < y1,
                0 <= cols,
        ;
    }
}

// ---------------------------------------------------------------------------
// The shared read/write surface
// ---------------------------------------------------------------------------

/// Shared read/write surface over a grid of edge states, for a puzzle of size
/// `width` x `height`.
///
/// Horizontal edges live on `height + 1` rows of `width` edges each. Vertical
/// edges live on `height` rows of `width + 1` edges each.
///
/// Coordinates: `h_edge(x, y)` connects vertex (x, y) to (x+1, y); `v_edge(x, y)`
/// connects vertex (x, y) to (x, y+1).
pub trait Lines: Sized {
    /// The abstract grid.
    spec fn grid(&self) -> Grid;

    /// The invariant of the representation.
    spec fn inv(&self) -> bool;

    /// The number of `Unset` edges, a measure that every decision lowers.
    spec fn unset_count(&self) -> nat;

    /// Whether a `Loop` edge may never be cleared.
    spec fn monotone_only(&self) -> bool;

    /// Whether the grid keeps a log of the edges whose state changed.
    spec fn records(&self) -> bool;

    /// The log of changed edges, oldest first (empty where none is kept).
    spec fn log(&self) -> Seq<EdgeId>;

    /// What the invariant says of the abstract grid.
    proof fn lemma_inv(&self)
        requires
            self.inv(),
        ensures
            self.grid().well_formed(),
            2 * ((self.grid().width + 1) * (self.grid().height + 1)) <= usize::MAX,
            self.grid().width + 1 <= usize::MAX,
            self.grid().height + 1 <= usize::MAX,
    ;

    fn width(&self) -> (r: usize)
        requires
            self.inv(),
        ensures
            r == self.grid().width,
    ;

    fn height(&self) -> (r: usize)
        requires
            self.inv(),
        ensures
            r == self.grid().height,
    ;

    /// Reads any edge by id.
    fn edge(&self, e: EdgeId) -> (r: EdgeState)
        requires
            self.inv(),
            self.grid().has(e),
        ensures
            r == self.grid().state(e),
    ;

    /// The single mutation site for edge state.
    fn set_edge(&mut self, e: EdgeId, state: EdgeState)
        requires
            old(self).inv(),
            old(self).grid().has(e),
            old(self).monotone_only() ==> (old(self).grid().state(e) != EdgeState::Loop || state
                == EdgeState::Loop),
        ensures
            final(self).inv(),
            final(self).grid() == old(self).grid().with(e, state),
            final(self).monotone_only() == old(self).monotone_only(),
            old(self).grid().state(e) == EdgeState::Unset && state != EdgeState::Unset
                ==> final(self).unset_count() + 1 == old(self).unset_count(),
            old(self).grid().state(e) != EdgeState::Unset && state != EdgeState::Unset
                ==> final(self).unset_count() == old(self).unset_count(),
            final(self).records() == old(self).records(),
            final(self).log() == if old(self).records() && old(self).grid().state(e) != state {
                old(self).log().push(e)
            } else {
                old(self).log()
            },
    ;

    /// True iff the loop edges form one connected piece, and there is at least one.
    /// The vertices are numbered for a topology that counts them in `u32`.
    fn is_single_loop(&self) -> (r: bool)
        requires
            self.inv(),
            (self.grid().width + 1) * (self.grid().height + 1) <= u32::MAX,
        ensures
            r == self.grid().single_loop(),
    ;

    fn h_edge(&self, x: usize, y: usize) -> (r: EdgeState)
        requires
            self.inv(),
            x < self.grid().width,
            y <= self.grid().height,
        ensures
            r == self.grid().state(EdgeId::H(x, y)),
    {
        self.edge(EdgeId::H(x, y))
    }

    fn v_edge(&self, x: usize, y: usize) -> (r: EdgeState)
        requires
            self.inv(),
            x <= self.grid().width,
            y < self.grid().height,
        ensures
            r == self.grid().state(EdgeId::V(x, y)),
    {
        self.edge(EdgeId::V(x, y))
    }

    fn set_h_edge(&mut self, x: usize, y: usize, state: EdgeState)
        requires
            old(self).inv(),
            x < old(self).grid().width,
            y <= old(self).grid().height,
            old(self).monotone_only() ==> (old(self).grid().state(EdgeId::H(x, y))
                != EdgeState::Loop || state == EdgeState::Loop),
        ensures
            final(self).inv(),
            final(self).grid() == old(self).grid().with(EdgeId::H(x, y), state),
            final(self).monotone_only() == old(self).monotone_only(),
    {
        self.set_edge(EdgeId::H(x, y), state);
    }

    fn set_v_edge(&mut self, x: usize, y: usize, state: EdgeState)
        requires
            old(self).inv(),
            x <= old(self).grid().width,
            y < old(self).grid().height,
            old(self).monotone_only() ==> (old(self).grid().state(EdgeId::V(x, y))
                != EdgeState::Loop || state == EdgeState::Loop),
        ensures
            final(self).inv(),
            final(self).grid() == old(self).grid().with(EdgeId::V(x, y), state),
            final(self).monotone_only() == old(self).monotone_only(),
    {
        self.set_edge(EdgeId::V(x, y), state);
    }
}

// ---------------------------------------------------------------------------
// PlayLines
// ---------------------------------------------------------------------------

/// Plain edge-state grid used during play. Loop queries are recomputed on the
/// fly, so arbitrary edits (including undo) are always safe.
#[derive(Debug, PartialEq, Eq)]
pub struct PlayLines {
    width: usize,
    height: usize,
    h_edges: Vec<EdgeState>,
    v_edges: Vec<EdgeState>,
}

/// The grid that two row-major edge vectors describe.
pub open spec fn grid_of(w: nat, h: nat, hs: Seq<EdgeState>, vs: Seq<EdgeState>) -> Grid {
    Grid {
        width: w,
        height: h,
        edges: Map::new(
            |e: EdgeId| edge_in_bounds(w, h, e),
            |e: EdgeId|
                match e {
                    EdgeId::H(x, y) => hs[y * w + x],
                    EdgeId::V(x, y) => vs[y * (w + 1) + x],
                },
        ),
    }
}

impl PlayLines {
    /// The edge vectors have the sizes of the grid, and twice the number of
    /// vertices fits in a `usize`.
    pub closed spec fn well_formed(&self) -> bool {
        &&& self.h_edges@.len() == self.width * (self.height + 1)
        &&& self.v_edges@.len() == (self.width + 1) * self.height
        &&& 2 * ((self.width + 1) * (self.height + 1)) <= usize::MAX
    }

    /// A grid of `width` x `height` cells with every edge `Unset`.
    pub fn empty(width: usize, height: usize) -> (r: Self)
        requires
            2 * ((width + 1) * (height + 1)) <= usize::MAX,
        ensures
            r.inv(),
            r.grid().width == width,
            r.grid().height == height,
            forall|e: EdgeId| #[trigger] r.grid().has(e) ==> r.grid().state(e) == EdgeState::Unset,
    {
        proof {
            assert((width + 1) * (height + 1) == width * (height + 1) + (height + 1)) by (nonlinear_arith);
            assert((width + 1) * (height + 1) == (width + 1) * height + (width + 1)) by (nonlinear_arith);
        }
        let r = PlayLines {
            width,
            height,
            h_edges: vec![EdgeState::Unset; width * (height + 1)],
            v_edges: vec![EdgeState::Unset; (width + 1) * height],
        };
        proof {
            assert forall|e: EdgeId| #[trigger] r.grid().has(e) implies r.grid().state(e) == EdgeState::Unset by {
                match e {
                    EdgeId::H(x, y) => lemma_row_major(width as int, height + 1, x as int, y as int),
                    EdgeId::V(x, y) => lemma_row_major(width + 1, height as int, x as int, y as int),
                }
            }
        }
        r
    }

    /// Checks the representation invariant at run time.
    pub(crate) fn check_well_formed(&self) -> (r: bool)
        ensures
            r == self.inv(),
    {
        proof {
            assert(self.width + 1 <= (self.width + 1) * (self.height + 1)) by (nonlinear_arith);
            assert(self.height + 1 <= (self.width + 1) * (self.height + 1)) by (nonlinear_arith);
        }
        let w1 = match self.width.checked_add(1) {
            Some(v) => v,
            None => return false,
        };
        let h1 = match self.height.checked_add(1) {
            Some(v) => v,
            None => return false,
        };
        let vertices = match w1.checked_mul(h1) {
            Some(v) => v,
            None => return false,
        };
        if vertices > usize::MAX / 2 {
            return false;
        }
        proof {
            assert(self.width * (self.height + 1) <= (self.width + 1) * (self.height + 1)) by (nonlinear_arith);
            assert((self.width + 1) * self.height <= (self.width + 1) * (self.height + 1)) by (nonlinear_arith);
        }
        self.h_edges.len() == self.width * h1 && self.v_edges.len() == w1 * self.height
    }

    fn h_index(&self, x: usize, y: usize) -> (i: usize)
        requires
            self.well_formed(),
            x < self.width,
            y <= self.height,
        ensures
            i == y * self.width + x,
            i < self.h_edges@.len(),
    {
        proof {
            lemma_row_major(self.width as int, self.height + 1, x as int, y as int);
            lemma_le_mul(self.width as int, self.height + 1);
        }
        y * self.width + x
    }

    fn v_index(&self, x: usize, y: usize) -> (i: usize)
        requires
            self.well_formed(),
            x <= self.width,
            y < self.height,
        ensures
            i == y * (self.width + 1) + x,
            i < self.v_edges@.len(),
    {
        proof {
            lemma_row_major(self.width + 1, self.height as int, x as int, y as int);
            assert((self.width + 1) * self.height <= (self.width + 1) * (self.height + 1)) by (nonlinear_arith);
            assert((self.width + 1) <= (self.width + 1) * (self.height + 1)) by (nonlinear_arith);
        }
        y * (self.width + 1) + x
    }
}

impl Clone for PlayLines {
    fn clone(&self) -> (r: Self)
        ensures
            r.grid() == self.grid(),
            r.inv() == self.inv(),
            r.unset_count() == self.unset_count(),
    {
        let h_edges = self.h_edges.clone();
        let v_edges = self.v_edges.clone();
        proof {
            assert(h_edges@ =~= self.h_edges@);
            assert(v_edges@ =~= self.v_edges@);
        }
        PlayLines { width: self.width, height: self.height, h_edges, v_edges }
    }
}

impl Lines for PlayLines {
    closed spec fn grid(&self) -> Grid {
        grid_of(self.width as nat, self.height as nat, self.h_edges@, self.v_edges@)
    }

    closed spec fn inv(&self) -> bool {
        self.well_formed()
    }

    closed spec fn unset_count(&self) -> nat {
        count_of(self.h_edges@, EdgeState::Unset) + count_of(self.v_edges@, EdgeState::Unset)
    }

    open spec fn monotone_only(&self) -> bool {
        false
    }

    open spec fn records(&self) -> bool {
        false
    }

    open spec fn log(&self) -> Seq<EdgeId> {
        Seq::empty()
    }

    proof fn lemma_inv(&self) {
        assert(self.width + 1 <= (self.width + 1) * (self.height + 1)) by (nonlinear_arith);
        assert(self.height + 1 <= (self.width + 1) * (self.height + 1)) by (nonlinear_arith);
    }

    fn width(&self) -> (r: usize) {
        self.width
    }

    fn height(&self) -> (r: usize) {
        self.height
    }

    fn edge(&self, e: EdgeId) -> (r: EdgeState) {
        match e {
            EdgeId::H(x, y) => {
                let i = self.h_index(x, y);
                self.h_edges[i]
            },
            EdgeId::V(x, y) => {
                let i = self.v_index(x, y);
                self.v_edges[i]
            },
        }
    }

    fn set_edge(&mut self, e: EdgeId, state: EdgeState) {
        let ghost old_grid = self.grid();
        let ghost old_h = self.h_edges@;
        let ghost old_v = self.v_edges@;
        let w = self.width;
        let h = self.height;
        match e {
            EdgeId::H(x, y) => {
                let i = self.h_index(x, y);
                proof {
                    lemma_count_update(self.h_edges@, i as int, state, EdgeState::Unset);
                    assert(old_grid.state(e) == old_h[i as int]);
                }
                self.h_edges.set(i, state);
            },
            EdgeId::V(x, y) => {
                let i = self.v_index(x, y);
                proof {
                    lemma_count_update(self.v_edges@, i as int, state, EdgeState::Unset);
                    assert(old_grid.state(e) == old_v[i as int]);
                }
                self.v_edges.set(i, state);
            },
        }
        proof {
            let g = self.grid();
            let want = old_grid.with(e, state);
            assert forall|f: EdgeId| #[trigger] g.edges.dom().contains(f) implies g.edges[f] == want.edges[f] by {
                if f != e {
                    match (e, f) {
                        (EdgeId::H(x1, y1), EdgeId::H(x2, y2)) => {
                            if y1 * w + x1 == y2 * w + x2 {
                                lemma_row_major_inj(w as int, x1 as int, y1 as int, x2 as int, y2 as int);
                            }
                            lemma_row_major(w as int, h + 1, x2 as int, y2 as int);
                        },
                        (EdgeId::V(x1, y1), EdgeId::V(x2, y2)) => {
                            if y1 * (w + 1) + x1 == y2 * (w + 1) + x2 {
                                lemma_row_major_inj(w + 1, x1 as int, y1 as int, x2 as int, y2 as int);
                            }
                            lemma_row_major(w + 1, h as int, x2 as int, y2 as int);
                        },
                        (EdgeId::H(_, _), EdgeId::V(x2, y2)) => {
                            lemma_row_major(w + 1, h as int, x2 as int, y2 as int);
                        },
                        (EdgeId::V(_, _), EdgeId::H(x2, y2)) => {
                            lemma_row_major(w as int, h + 1, x2 as int, y2 as int);
                        },
                    }
                }
            }
            assert(g.edges =~= want.edges);
            if old_grid.state(e) == EdgeState::Unset && state != EdgeState::Unset {
                assert(self.unset_count() + 1 == count_of(old_h, EdgeState::Unset) + count_of(old_v, EdgeState::Unset));
            }
            assert(self.records() == false);
            assert(self.log() == Seq::<EdgeId>::empty());
        }
    }

    fn is_single_loop(&self) -> (r: bool) {
        crate::solver_lines::play_single_loop(self)
    }
}

} // verus!
