//! The edge grid used by the propagator, with incremental loop bookkeeping.
use vstd::prelude::*;

use crate::edge::{EdgeId, EdgeState};
use crate::graph::{
    adj_of, components, connected, edges_within, lemma_single_component, reachable,
};
use crate::lines::{edge_in_bounds, ends, lemma_row_major, vertex_id, Grid, Lines, PlayLines};
use crate::loop_topology::{DsuTopology, LoopTopology};

verus! {

/// `topo` holds exactly the loop edges of `g` that `vis` admits, once each, in
/// the order listed in `list`.
pub open spec fn tracks<T: LoopTopology>(
    g: Grid,
    topo: T,
    list: Seq<EdgeId>,
    vis: spec_fn(EdgeId) -> bool,
) -> bool {
    &&& topo.wf()
    &&& topo.vertex_total() == (g.width + 1) * (g.height + 1)
    &&& list.no_duplicates()
    &&& forall|i: int| 0 <= i < list.len() ==> g.is_loop(#[trigger] list[i]) && vis(list[i])
    &&& forall|e: EdgeId| #[trigger] g.is_loop(e) && vis(e) ==> list.contains(e)
    &&& topo.edge_log().len() == list.len()
    &&& forall|i: int|
        0 <= i < list.len() ==> #[trigger] topo.edge_log()[i] == ends(g.width, list[i])
}

pub open spec fn everywhere() -> spec_fn(EdgeId) -> bool {
    |e: EdgeId| true
}

/// An edge joins two distinct vertices of the grid.
pub proof fn lemma_ends(w: nat, h: nat, e: EdgeId)
    requires
        edge_in_bounds(w, h, e),
    ensures
        0 <= ends(w, e).0 < (w + 1) * (h + 1),
        0 <= ends(w, e).1 < (w + 1) * (h + 1),
        ends(w, e).0 != ends(w, e).1,
{
    match e {
        EdgeId::H(x, y) => {
            lemma_row_major((w + 1) as int, (h + 1) as int, x as int, y as int);
            lemma_row_major((w + 1) as int, (h + 1) as int, (x + 1) as int, y as int);
        },
        EdgeId::V(x, y) => {
            lemma_row_major((w + 1) as int, (h + 1) as int, x as int, y as int);
            lemma_row_major((w + 1) as int, (h + 1) as int, x as int, (y + 1) as int);
            assert((y + 1) * (w + 1) == y * (w + 1) + (w + 1)) by (nonlinear_arith);
        },
    }
}

/// Position of an edge in the concatenation of the two row-major edge vectors.
pub open spec fn flat_index(w: nat, h: nat, e: EdgeId) -> int {
    match e {
        EdgeId::H(x, y) => y * w + x,
        EdgeId::V(x, y) => w * (h + 1) + y * (w + 1) + x,
    }
}

/// A list of distinct edges of the grid is no longer than the grid's edge count.
pub proof fn lemma_edge_list_len(w: nat, h: nat, list: Seq<EdgeId>)
    requires
        list.no_duplicates(),
        forall|i: int| 0 <= i < list.len() ==> edge_in_bounds(w, h, #[trigger] list[i]),
    ensures
        list.len() <= w * (h + 1) + (w + 1) * h,
{
    let total: int = (w * (h + 1) + (w + 1) * h) as int;
    let s = list.to_set();
    let f = |e: EdgeId| flat_index(w, h, e);
    list.unique_seq_to_set();
    assert forall|e: EdgeId| s.contains(e) implies edge_in_bounds(w, h, e) by {
        let i = choose|i: int| 0 <= i < list.len() && list[i] == e;
    }
    assert forall|e: EdgeId| #[trigger] s.contains(e) implies 0 <= f(e) < total by {
        match e {
            EdgeId::H(x, y) => lemma_row_major(w as int, (h + 1) as int, x as int, y as int),
            EdgeId::V(x, y) => lemma_row_major((w + 1) as int, h as int, x as int, y as int),
        }
        assert((w + 1) * h == w * h + h) by (nonlinear_arith);
    }
    assert(vstd::relations::injective_on(f, s)) by {
        assert forall|e1: EdgeId, e2: EdgeId|
            s.contains(e1) && s.contains(e2) && #[trigger] f(e1) == #[trigger] f(e2) implies e1
            == e2 by {
            match (e1, e2) {
                (EdgeId::H(x1, y1), EdgeId::H(x2, y2)) => {
                    crate::lines::lemma_row_major_inj(w as int, x1 as int, y1 as int, x2 as int, y2 as int);
                },
                (EdgeId::V(x1, y1), EdgeId::V(x2, y2)) => {
                    crate::lines::lemma_row_major_inj((w + 1) as int, x1 as int, y1 as int, x2 as int, y2 as int);
                },
                (EdgeId::H(x1, y1), EdgeId::V(x2, y2)) => {
                    lemma_row_major(w as int, (h + 1) as int, x1 as int, y1 as int);
                    assert(0 <= y2 * (w + 1)) by (nonlinear_arith);
                },
                (EdgeId::V(x1, y1), EdgeId::H(x2, y2)) => {
                    lemma_row_major(w as int, (h + 1) as int, x2 as int, y2 as int);
                    assert(0 <= y1 * (w + 1)) by (nonlinear_arith);
                },
            }
        }
    }
    let img = s.map(f);
    vstd::set_lib::lemma_map_size(s, img, f);
    vstd::set_lib::lemma_int_range(0, total);
    assert(img.subset_of(vstd::set_lib::set_int_range(0, total)));
    vstd::set_lib::lemma_len_subset(img, vstd::set_lib::set_int_range(0, total));
}

/// What a topology that tracks every loop edge of a grid says of the grid's loop.
pub proof fn lemma_tracks_everything<T: LoopTopology>(g: Grid, topo: T, list: Seq<EdgeId>)
    requires
        tracks(g, topo, list, everywhere()),
        g.well_formed(),
    ensures
        forall|u: int, v: int|
            #[trigger] connected(topo.edge_log(), u, v) <==> g.loop_connected(u, v),
        (topo.edge_log().len() > 0 && components(
            topo.vertex_total() as int,
            topo.edge_log(),
        ).len() == 1) == g.single_loop(),
{
    let log = topo.edge_log();
    let n = topo.vertex_total() as int;
    let w = g.width;
    assert forall|i: int| 0 <= i < list.len() implies g.is_loop(#[trigger] list[i]) by {
        assert(everywhere()(list[i]));
    }
    assert forall|e: EdgeId| #[trigger] g.is_loop(e) implies list.contains(e) by {
        assert(everywhere()(e));
    }
    assert(adj_of(log) =~= g.loop_adj()) by {
        assert forall|u: int, v: int| #[trigger] adj_of(log)(u, v) == g.loop_adj()(u, v) by {
            if adj_of(log)(u, v) {
                let i = choose|i: int| 0 <= i < log.len() && (#[trigger] log[i] == (u, v) || log[i] == (v, u));
                assert(g.is_loop(list[i]));
                assert(ends(w, list[i]) == log[i]);
            }
            if g.loop_adj()(u, v) {
                let e = choose|e: EdgeId| #[trigger] g.is_loop(e) && (ends(w, e) == (u, v) || ends(w, e) == (v, u));
                let i = choose|i: int| 0 <= i < list.len() && list[i] == e;
                assert(log[i] == ends(w, e));
            }
        }
    }
    assert forall|u: int, v: int| #[trigger] connected(log, u, v) <==> g.loop_connected(u, v) by {}
    if log.len() > 0 {
        assert forall|i: int| 0 <= i < log.len() implies 0 <= (#[trigger] log[i]).0 < n && 0 <= log[i].1 < n
            && log[i].0 != log[i].1 by {
            assert(g.is_loop(list[i]));
            lemma_ends(g.width, g.height, list[i]);
        }
        assert(edges_within(n, log));
        lemma_single_component(n, log);
        assert(g.is_loop(list[0]));
        if g.single_loop() {
            assert forall|i: int, j: int| 0 <= i < log.len() && 0 <= j < log.len() implies connected(
                log,
                (#[trigger] log[i]).0,
                (#[trigger] log[j]).0,
            ) by {
                assert(g.is_loop(list[i]) && g.is_loop(list[j]));
            }
        }
        if components(n, log).len() == 1 {
            assert forall|e1: EdgeId, e2: EdgeId|
                #[trigger] g.is_loop(e1) && #[trigger] g.is_loop(e2) implies g.loop_connected(
                ends(w, e1).0,
                ends(w, e2).0,
            ) by {
                let i = choose|i: int| 0 <= i < list.len() && list[i] == e1;
                let j = choose|j: int| 0 <= j < list.len() && list[j] == e2;
                assert(connected(log, log[i].0, log[j].0));
            }
        }
    } else {
        if g.single_loop() {
            let e = choose|e: EdgeId| #[trigger] g.is_loop(e);
            assert(list.contains(e));
        }
    }
}

/// Flat index of vertex (x, y).
fn vertex_index(x: usize, y: usize, width: usize, height: usize) -> (r: usize)
    requires
        x <= width,
        y <= height,
        (width + 1) * (height + 1) <= u32::MAX,
    ensures
        r == vertex_id(width as nat, x as int, y as int),
        r < (width + 1) * (height + 1),
{
    proof {
        lemma_row_major((width + 1) as int, (height + 1) as int, x as int, y as int);
        assert(width + 1 <= (width + 1) * (height + 1)) by (nonlinear_arith);
    }
    y * (width + 1) + x
}

/// Records loop edge `e` in `topo`.
fn add_edge<T: LoopTopology>(topo: &mut T, e: EdgeId, width: usize, height: usize)
    requires
        old(topo).wf(),
        old(topo).vertex_total() == (width + 1) * (height + 1),
        (width + 1) * (height + 1) <= u32::MAX,
        edge_in_bounds(width as nat, height as nat, e),
        old(topo).edge_log().len() < usize::MAX,
    ensures
        final(topo).wf(),
        final(topo).vertex_total() == old(topo).vertex_total(),
        final(topo).edge_log() == old(topo).edge_log().push(ends(width as nat, e)),
{
    let (a, b) = match e {
        EdgeId::H(x, y) => (vertex_index(x, y, width, height), vertex_index(x + 1, y, width, height)),
        EdgeId::V(x, y) => (vertex_index(x, y, width, height), vertex_index(x, y + 1, width, height)),
    };
    topo.add_loop_edge(a, b);
}

/// Which edges the scan in [`loop_topology_of`] has passed: horizontal ones
/// row by row, then vertical ones row by row.
pub open spec fn scanned(e: EdgeId, vertical_phase: bool, y: int, x: int) -> bool {
    match e {
        EdgeId::H(ex, ey) => vertical_phase || ey < y || (ey == y && ex < x),
        EdgeId::V(ex, ey) => vertical_phase && (ey < y || (ey == y && ex < x)),
    }
}

/// Builds a topology holding every loop edge of `lines`.
fn loop_topology_of<T: LoopTopology>(lines: &PlayLines) -> (r: (T, Ghost<Seq<EdgeId>>))
    requires
        lines.inv(),
        (lines.grid().width + 1) * (lines.grid().height + 1) <= u32::MAX,
    ensures
        tracks(lines.grid(), r.0, r.1@, everywhere()),
{
    let ghost g = lines.grid();
    proof {
        lines.lemma_inv();
    }
    let w = lines.width();
    let h = lines.height();
    proof {
        assert(w + 1 <= (w + 1) * (h + 1)) by (nonlinear_arith);
        assert(h + 1 <= (w + 1) * (h + 1)) by (nonlinear_arith);
        assert((w + 1) * (h + 1) == w * (h + 1) + (h + 1)) by (nonlinear_arith);
        assert((w + 1) * (h + 1) == (w + 1) * h + (w + 1)) by (nonlinear_arith);
    }
    let mut topo = T::new((w + 1) * (h + 1));
    let ghost mut list = Seq::<EdgeId>::empty();
    let mut y: usize = 0;
    while y <= h
        invariant
            lines.inv(),
            g == lines.grid(),
            g.well_formed(),
            w == g.width,
            h == g.height,
            (w + 1) * (h + 1) <= u32::MAX,
            2 * ((w + 1) * (h + 1)) <= usize::MAX,
            (w + 1) * (h + 1) == w * (h + 1) + (h + 1),
            (w + 1) * (h + 1) == (w + 1) * h + (w + 1),
            y <= h + 1,
            tracks(g, topo, list, |e: EdgeId| scanned(e, false, y as int, 0)),
        decreases h + 1 - y,
    {
        let mut x: usize = 0;
        while x < w
            invariant
                lines.inv(),
                g == lines.grid(),
                g.well_formed(),
                w == g.width,
                h == g.height,
                (w + 1) * (h + 1) <= u32::MAX,
                2 * ((w + 1) * (h + 1)) <= usize::MAX,
                (w + 1) * (h + 1) == w * (h + 1) + (h + 1),
                (w + 1) * (h + 1) == (w + 1) * h + (w + 1),
                y <= h,
                x <= w,
                tracks(g, topo, list, |e: EdgeId| scanned(e, false, y as int, x as int)),
            decreases w - x,
        {
            let e = EdgeId::H(x, y);
            let ghost old_list = list;
            if lines.edge(e) == EdgeState::Loop {
                proof {
                    assert(!list.contains(e));
                    lemma_edge_list_len(w as nat, h as nat, list.push(e));
                }
                add_edge(&mut topo, e, w, h);
                proof {
                    list = list.push(e);
                }
            }
            proof {
                let vis = |f: EdgeId| scanned(f, false, y as int, (x + 1) as int);
                assert forall|i: int| 0 <= i < list.len() implies g.is_loop(#[trigger] list[i]) && vis(list[i]) by {}
                assert forall|f: EdgeId| #[trigger] g.is_loop(f) && vis(f) implies list.contains(f) by {
                    if f != e {
                        assert(scanned(f, false, y as int, x as int));
                        assert(old_list.contains(f));
                        let j = choose|j: int| 0 <= j < old_list.len() && old_list[j] == f;
                        assert(list[j] == f);
                    } else {
                        assert(list[list.len() - 1] == e);
                    }
                }
            }
            x = x + 1;
        }
        y = y + 1;
    }
    let mut y: usize = 0;
    while y < h
        invariant
            lines.inv(),
            g == lines.grid(),
            g.well_formed(),
            w == g.width,
            h == g.height,
            (w + 1) * (h + 1) <= u32::MAX,
            2 * ((w + 1) * (h + 1)) <= usize::MAX,
            (w + 1) * (h + 1) == w * (h + 1) + (h + 1),
            (w + 1) * (h + 1) == (w + 1) * h + (w + 1),
            y <= h,
            tracks(g, topo, list, |e: EdgeId| scanned(e, true, y as int, 0)),
        decreases h - y,
    {
        let mut x: usize = 0;
        while x <= w
            invariant
                lines.inv(),
                g == lines.grid(),
                g.well_formed(),
                w == g.width,
                h == g.height,
                (w + 1) * (h + 1) <= u32::MAX,
                2 * ((w + 1) * (h + 1)) <= usize::MAX,
                (w + 1) * (h + 1) == w * (h + 1) + (h + 1),
                (w + 1) * (h + 1) == (w + 1) * h + (w + 1),
                y < h,
                x <= w + 1,
                tracks(g, topo, list, |e: EdgeId| scanned(e, true, y as int, x as int)),
            decreases w + 1 - x,
        {
            let e = EdgeId::V(x, y);
            let ghost old_list = list;
            if lines.edge(e) == EdgeState::Loop {
                proof {
                    assert(!list.contains(e));
                    lemma_edge_list_len(w as nat, h as nat, list.push(e));
                }
                add_edge(&mut topo, e, w, h);
                proof {
                    list = list.push(e);
                }
            }
            proof {
                let vis = |f: EdgeId| scanned(f, true, y as int, (x + 1) as int);
                assert forall|i: int| 0 <= i < list.len() implies g.is_loop(#[trigger] list[i]) && vis(list[i]) by {}
                assert forall|f: EdgeId| #[trigger] g.is_loop(f) && vis(f) implies list.contains(f) by {
                    if f != e {
                        assert(scanned(f, true, y as int, x as int));
                        assert(old_list.contains(f));
                        let j = choose|j: int| 0 <= j < old_list.len() && old_list[j] == f;
                        assert(list[j] == f);
                    } else {
                        assert(list[list.len() - 1] == e);
                    }
                }
            }
            x = x + 1;
        }
        y = y + 1;
    }
    (topo, Ghost(list))
}

/// Whether the loop edges of `lines` form one connected piece, computed from a
/// topology built over them.
pub(crate) fn play_single_loop(lines: &PlayLines) -> (r: bool)
    requires
        lines.inv(),
        (lines.grid().width + 1) * (lines.grid().height + 1) <= u32::MAX,
    ensures
        r == lines.grid().single_loop(),
{
    let (topo, Ghost(list)) = loop_topology_of::<DsuTopology>(lines);
    proof {
        lines.lemma_inv();
        lemma_tracks_everything(lines.grid(), topo, list);
    }
    topo.loop_edge_count() > 0 && topo.component_count() == 1
}


/// Edge-state grid used by the propagator. Wraps [`PlayLines`] and layers
/// incremental loop bookkeeping (`T`) on top, so connectivity queries are answered
/// from the maintained structure instead of a per-pass rebuild.
///
/// It also records every edge whose state changes in a worklist, which the
/// propagator drains with [`pop_dirty`](SolverLines::pop_dirty).
///
/// Unlike [`PlayLines`], it assumes monotonic edits: a `Loop` edge is never
/// cleared.
pub struct SolverLines<T: LoopTopology = DsuTopology> {
    lines: PlayLines,
    topo: T,
    dirty: Vec<EdgeId>,
    /// The loop edges, in the order they were recorded in `topo`.
    loop_list: Ghost<Seq<EdgeId>>,
}

impl<T: LoopTopology> SolverLines<T> {
    /// The representation invariant: the topology tracks every loop edge, and the
    /// worklist names edges of the grid.
    pub closed spec fn well_formed(&self) -> bool {
        &&& self.lines.inv()
        &&& (self.lines.grid().width + 1) * (self.lines.grid().height + 1) <= u32::MAX
        &&& tracks(self.lines.grid(), self.topo, self.loop_list@, everywhere())
        &&& forall|i: int| 0 <= i < self.dirty@.len() ==> self.lines.grid().has(#[trigger] self.dirty@[i])
    }

    /// The edges waiting on the worklist.
    pub closed spec fn pending(&self) -> Seq<EdgeId> {
        self.dirty@
    }

    /// The worklist is the log of changed edges that the grid keeps.
    pub proof fn lemma_log_is_pending(&self)
        ensures
            self.records(),
            self.log() == self.pending(),
    {
    }

    /// The vertices of a solver's grid number at most `u32::MAX`.
    pub proof fn lemma_vertices_fit(&self)
        requires
            self.inv(),
        ensures
            (self.grid().width + 1) * (self.grid().height + 1) <= u32::MAX,
    {
    }

    /// A grid of `width` x `height` cells with every edge `Unset`.
    pub fn empty(width: usize, height: usize) -> (r: Self)
        requires
            (width + 1) * (height + 1) <= u32::MAX,
            2 * ((width + 1) * (height + 1)) <= usize::MAX,
        ensures
            r.inv(),
            r.grid().width == width,
            r.grid().height == height,
            forall|e: EdgeId| #[trigger] r.grid().has(e) ==> r.grid().state(e) == EdgeState::Unset,
            r.pending().len() == 0,
    {
        let lines = PlayLines::empty(width, height);
        let topo = T::new(vertex_count(width, height));
        let r = SolverLines { lines, topo, dirty: Vec::new(), loop_list: Ghost(Seq::empty()) };
        proof {
            assert forall|e: EdgeId| #[trigger] r.lines.grid().is_loop(e) && everywhere()(e) implies r.loop_list@.contains(e) by {
                assert(r.lines.grid().has(e));
            }
        }
        r
    }

    /// Builds the bookkeeping over an existing grid; the worklist starts empty.
    pub fn from_play(lines: PlayLines) -> (r: Self)
        requires
            lines.inv(),
            (lines.grid().width + 1) * (lines.grid().height + 1) <= u32::MAX,
        ensures
            r.inv(),
            r.grid() == lines.grid(),
            r.unset_count() == lines.unset_count(),
            r.pending().len() == 0,
    {
        let (topo, Ghost(list)) = loop_topology_of::<T>(&lines);
        SolverLines { lines, topo, dirty: Vec::new(), loop_list: Ghost(list) }
    }

    /// Drops the bookkeeping and returns the underlying [`PlayLines`].
    pub fn into_play(self) -> (r: PlayLines)
        requires
            self.inv(),
        ensures
            r.inv(),
            r.grid() == self.grid(),
    {
        self.lines
    }

    /// True iff grid vertices `a` and `b` are connected through loop edges.
    pub fn loop_connected(&self, a: (usize, usize), b: (usize, usize)) -> (r: bool)
        requires
            self.inv(),
            a.0 <= self.grid().width,
            a.1 <= self.grid().height,
            b.0 <= self.grid().width,
            b.1 <= self.grid().height,
        ensures
            r == self.grid().loop_connected(
                vertex_id(self.grid().width, a.0 as int, a.1 as int),
                vertex_id(self.grid().width, b.0 as int, b.1 as int),
            ),
    {
        proof {
            self.lines.lemma_inv();
            lemma_tracks_everything(self.lines.grid(), self.topo, self.loop_list@);
        }
        let w = self.lines.width();
        let h = self.lines.height();
        let ia = vertex_index(a.0, a.1, w, h);
        let ib = vertex_index(b.0, b.1, w, h);
        self.topo.connected(ia, ib)
    }

    /// Takes the most recently recorded edge off the worklist.
    pub fn pop_dirty(&mut self) -> (r: Option<EdgeId>)
        requires
            old(self).inv(),
        ensures
            final(self).inv(),
            final(self).grid() == old(self).grid(),
            final(self).unset_count() == old(self).unset_count(),
            old(self).pending().len() == 0 ==> r is None && final(self).pending().len() == 0,
            old(self).pending().len() > 0 ==> r == Some(old(self).pending().last())
                && final(self).pending() == old(self).pending().drop_last(),
            r matches Some(e) ==> final(self).grid().has(e),
    {
        let r = self.dirty.pop();
        proof {
            if old(self).pending().len() > 0 {
                assert(self.dirty@ =~= old(self).pending().drop_last());
                assert(old(self).grid().has(old(self).pending()[old(self).pending().len() - 1]));
            }
        }
        r
    }
}

impl<T: LoopTopology> Clone for SolverLines<T> {
    /// Copies the grid and the worklist, rebuilding the bookkeeping over the copy.
    fn clone(&self) -> (r: Self)
        ensures
            self.inv() ==> r.inv(),
            r.grid() == self.grid(),
            r.pending() == self.pending(),
            r.unset_count() == self.unset_count(),
    {
        let lines = self.lines.clone();
        let ghost old_lines = lines;
        if !lines.check_well_formed() || !vertices_fit(lines.width(), lines.height()) {
            proof {
                assert(!self.inv());
            }
            let topo = T::new(0);
            let dirty = self.dirty.clone();
            proof {
                assert(dirty@ =~= self.dirty@);
            }
            return SolverLines { lines, topo, dirty, loop_list: Ghost(Seq::empty()) };
        }
        let mut r = Self::from_play(lines);
        r.dirty = self.dirty.clone();
        proof {
            assert(r.dirty@ =~= self.dirty@);
        }
        r
    }
}

/// Whether the vertices of a `width` x `height` grid number at most `u32::MAX`.
fn vertices_fit(width: usize, height: usize) -> (r: bool)
    ensures
        r == ((width + 1) * (height + 1) <= u32::MAX),
{
    proof {
        assert(width + 1 <= (width + 1) * (height + 1)) by (nonlinear_arith);
        assert(height + 1 <= (width + 1) * (height + 1)) by (nonlinear_arith);
    }
    let w1 = match width.checked_add(1) {
        Some(v) => v,
        None => return false,
    };
    let h1 = match height.checked_add(1) {
        Some(v) => v,
        None => return false,
    };
    proof {
        assert(h1 <= w1 * h1) by (nonlinear_arith)
            requires
                w1 >= 1,
        ;
    }
    match w1.checked_mul(h1) {
        Some(v) => v <= 0xffff_ffff,
        None => false,
    }
}

fn vertex_count(width: usize, height: usize) -> (r: usize)
    requires
        (width + 1) * (height + 1) <= u32::MAX,
    ensures
        r == (width + 1) * (height + 1),
{
    proof {
        assert(width + 1 <= (width + 1) * (height + 1)) by (nonlinear_arith);
        assert(height + 1 <= (width + 1) * (height + 1)) by (nonlinear_arith);
    }
    (width + 1) * (height + 1)
}

impl<T: LoopTopology> Lines for SolverLines<T> {
    closed spec fn grid(&self) -> Grid {
        self.lines.grid()
    }

    closed spec fn inv(&self) -> bool {
        self.well_formed()
    }

    closed spec fn unset_count(&self) -> nat {
        self.lines.unset_count()
    }

    open spec fn monotone_only(&self) -> bool {
        true
    }

    open spec fn records(&self) -> bool {
        true
    }

    closed spec fn log(&self) -> Seq<EdgeId> {
        self.dirty@
    }

    proof fn lemma_inv(&self) {
        self.lines.lemma_inv();
    }

    fn width(&self) -> (r: usize) {
        self.lines.width()
    }

    fn height(&self) -> (r: usize) {
        self.lines.height()
    }

    fn edge(&self, e: EdgeId) -> (r: EdgeState) {
        self.lines.edge(e)
    }

    fn set_edge(&mut self, e: EdgeId, state: EdgeState)
        ensures
            final(self).pending() == if old(self).grid().state(e) != state {
                old(self).pending().push(e)
            } else {
                old(self).pending()
            },
    {
        let ghost g0 = self.lines.grid();
        let ghost list0 = self.loop_list@;
        proof {
            self.lines.lemma_inv();
        }
        let prev = self.lines.edge(e);
        let ghost u0 = self.lines.unset_count();
        self.lines.set_edge(e, state);
        let ghost u1 = self.lines.unset_count();
        assert(prev == EdgeState::Unset && state != EdgeState::Unset ==> u1 + 1 == u0);
        assert(prev != EdgeState::Unset && state != EdgeState::Unset ==> u1 == u0);
        let ghost g1 = self.lines.grid();
        if state == EdgeState::Loop && prev != EdgeState::Loop {
            let w = self.lines.width();
            let h = self.lines.height();
            proof {
                assert(!list0.contains(e));
                assert forall|i: int| 0 <= i < list0.push(e).len() implies edge_in_bounds(
                    w as nat,
                    h as nat,
                    #[trigger] list0.push(e)[i],
                ) by {
                    if i < list0.len() {
                        assert(g0.is_loop(list0[i]));
                    }
                }
                lemma_edge_list_len(w as nat, h as nat, list0.push(e));
                assert((w + 1) * (h + 1) == w * (h + 1) + (h + 1)) by (nonlinear_arith);
                assert((w + 1) * (h + 1) == (w + 1) * h + (w + 1)) by (nonlinear_arith);
            }
            add_edge(&mut self.topo, e, w, h);
            self.loop_list = Ghost(list0.push(e));
            proof {
                let list1 = self.loop_list@;
                assert forall|i: int| 0 <= i < list1.len() implies g1.is_loop(#[trigger] list1[i]) && everywhere()(list1[i]) by {
                    if i < list0.len() {
                        assert(g0.is_loop(list0[i]));
                        assert(list0[i] != e);
                    }
                }
                assert forall|f: EdgeId| #[trigger] g1.is_loop(f) && everywhere()(f) implies list1.contains(f) by {
                    if f != e {
                        assert(g0.is_loop(f) && everywhere()(f));
                        let j = choose|j: int| 0 <= j < list0.len() && list0[j] == f;
                        assert(list1[j] == f);
                    } else {
                        assert(list1[list0.len() as int] == e);
                    }
                }
            }
        } else {
            proof {
                assert forall|f: EdgeId| #[trigger] g1.is_loop(f) == g0.is_loop(f) by {}
                assert forall|i: int| 0 <= i < list0.len() implies g1.is_loop(#[trigger] list0[i]) && everywhere()(list0[i]) by {
                    assert(g0.is_loop(list0[i]));
                }
                assert forall|f: EdgeId| #[trigger] g1.is_loop(f) && everywhere()(f) implies list0.contains(f) by {
                    assert(g0.is_loop(f) && everywhere()(f));
                }
            }
        }
        if prev != state {
            self.dirty.push(e);
        }
        proof {
            assert(self.unset_count() == u1);
            assert(old(self).unset_count() == u0);
            assert(old(self).grid().state(e) == prev);
            assert forall|i: int| 0 <= i < self.dirty@.len() implies g1.has(#[trigger] self.dirty@[i]) by {
                if i < old(self).dirty@.len() {
                    assert(g0.has(old(self).dirty@[i]));
                }
            }
            assert(self.records());
            assert(self.log() == self.dirty@ && old(self).log() == old(self).dirty@);
        }
    }

    fn is_single_loop(&self) -> (r: bool) {
        proof {
            self.lines.lemma_inv();
            lemma_tracks_everything(self.lines.grid(), self.topo, self.loop_list@);
        }
        self.topo.loop_edge_count() > 0 && self.topo.component_count() == 1
    }
}

} // verus!
