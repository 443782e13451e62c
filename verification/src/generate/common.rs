//! What the region generators share: target sizes, grid neighbours, and the
//! validity check for a region.
use vstd::prelude::*;
use vstd::arithmetic::div_mod::{lemma_fundamental_div_mod, lemma_fundamental_div_mod_converse};

use crate::graph::{lemma_reach_closed, lemma_reach_refl, lemma_reach_step, reachable};
use crate::lines::{count_of, lemma_count_bound, lemma_count_update, lemma_row_major};
use crate::puzzle::string_of;
use crate::rng::{next_draw, next_state, Rng};

verus! {

/// Picks a target region size between 55% and 70% of `total` cells (at least 2).
pub fn pick_target_size(total: usize, rng: &mut Rng) -> (r: usize)
    requires
        total * 70 <= usize::MAX,
    ensures
        target_low(total as int) <= r <= target_high(total as int),
        r == target_low(total as int) + (next_draw(old(rng).state()) as int) % (target_high(total as int)
            - target_low(total as int) + 1),
        final(rng).state() == next_state(old(rng).state()),
{
    let lo = max_usize((total * 55) / 100, 2);
    let hi = max_usize((total * 70) / 100, lo + 1);
    lo + rng.range(hi - lo + 1)
}

/// The least target size for `total` cells.
pub open spec fn target_low(total: int) -> int {
    if (total * 55) / 100 >= 2 { (total * 55) / 100 } else { 2 }
}

/// The greatest target size for `total` cells.
pub open spec fn target_high(total: int) -> int {
    if (total * 70) / 100 >= target_low(total) + 1 { (total * 70) / 100 } else { target_low(total) + 1 }
}

fn max_usize(a: usize, b: usize) -> (r: usize)
    ensures
        r == if a >= b { a } else { b },
{
    if a >= b { a } else { b }
}

// ---------------------------------------------------------------------------
// Cells of a w x h grid, indexed y * w + x
// ---------------------------------------------------------------------------

/// Cells `i` and `j` of a `w` x `h` grid share a side.
pub open spec fn neighbor_cells(w: nat, h: nat, i: int, j: int) -> bool {
    &&& w > 0
    &&& 0 <= i < w * h
    &&& 0 <= j < w * h
    &&& {
        let x = i % (w as int);
        let y = i / (w as int);
        let nx = j % (w as int);
        let ny = j / (w as int);
        (y == ny && (nx == x + 1 || x == nx + 1)) || (x == nx && (ny == y + 1 || y == ny + 1))
    }
}

/// Neighbouring cells that both have membership `v`.
pub open spec fn same_adj(w: nat, h: nat, s: Seq<bool>, v: bool) -> spec_fn(int, int) -> bool {
    |i: int, j: int| neighbor_cells(w, h, i, j) && s[i] == v && s[j] == v
}

/// Cell `i` lies on the border of the grid.
pub open spec fn on_border(w: nat, h: nat, i: int) -> bool {
    let x = i % (w as int);
    let y = i / (w as int);
    x == 0 || y == 0 || x == w - 1 || y == h - 1
}

/// The cells `value` cells reached from `start` through neighbouring `value` cells.
pub open spec fn reach_set(w: nat, h: nat, s: Seq<bool>, v: bool, start: int) -> Set<int> {
    Set::new(|j: int| 0 <= j < w * h && reachable(same_adj(w, h, s, v), start, j))
}

/// The outside cells reached from some outside cell on the border.
pub open spec fn border_reach_set(w: nat, h: nat, s: Seq<bool>) -> Set<int> {
    Set::new(
        |j: int|
            0 <= j < w * h && exists|b: int|
                0 <= b < w * h && on_border(w, h, b) && !s[b] && #[trigger] reachable(
                    same_adj(w, h, s, false),
                    b,
                    j,
                ),
    )
}

/// The first cell with membership `v`.
pub open spec fn first_with(s: Seq<bool>, v: bool) -> int {
    choose|k: int| 0 <= k < s.len() && s[k] == v && forall|j: int| 0 <= j < k ==> s[j] != v
}

/// What [`region_connected`] computes: whether the `v` cells reached from the
/// first `v` cell number `total` (with no `v` cell, whether `total` is 0).
pub open spec fn region_connected_spec(w: nat, h: nat, s: Seq<bool>, v: bool, total: int) -> bool {
    if exists|k: int| 0 <= k < s.len() && s[k] == v {
        reach_set(w, h, s, v, first_with(s, v)).len() == total
    } else {
        total == 0
    }
}

/// What `complement_connected` computes: there are outside cells, some on the
/// border, and the outside cells reached from the border number `total`.
pub open spec fn complement_connected_spec(w: nat, h: nat, s: Seq<bool>, total: int) -> bool {
    &&& total != 0
    &&& exists|b: int| 0 <= b < w * h && on_border(w, h, b) && !s[b]
    &&& border_reach_set(w, h, s).len() == total
}

/// The region is valid for loop generation: at least 2 cells inside, at least one
/// outside, the inside connected, and the outside free of holes.
#[verifier::opaque]
pub open spec fn region_valid_spec(w: nat, h: nat, s: Seq<bool>) -> bool {
    let count = count_of(s, true);
    &&& count >= 2
    &&& count != w * h
    &&& region_connected_spec(w, h, s, true, count as int)
    &&& complement_connected_spec(w, h, s, w * h - count)
}

/// The cell to the left/right/above/below, as in [`neighbors`].
pub open spec fn neighbor_list(x: usize, y: usize, w: usize, h: usize) -> Seq<(usize, usize)> {
    (if x > 0 { seq![((x - 1) as usize, y)] } else { Seq::empty() }) + (if x + 1 < w {
        seq![((x + 1) as usize, y)]
    } else {
        Seq::empty()
    }) + (if y > 0 { seq![(x, (y - 1) as usize)] } else { Seq::empty() }) + (if y + 1 < h {
        seq![(x, (y + 1) as usize)]
    } else {
        Seq::empty()
    })
}

/// The in-grid neighbours of cell (x, y): left, right, up, down.
pub fn neighbors(x: usize, y: usize, w: usize, h: usize) -> (out: Vec<(usize, usize)>)
    requires
        x < w,
        y < h,
    ensures
        out@ == neighbor_list(x, y, w, h),
{
    let mut out: Vec<(usize, usize)> = Vec::with_capacity(4);
    if x > 0 {
        out.push((x - 1, y));
    }
    if x + 1 < w {
        out.push((x + 1, y));
    }
    if y > 0 {
        out.push((x, y - 1));
    }
    if y + 1 < h {
        out.push((x, y + 1));
    }
    proof {
        assert(out@ =~= neighbor_list(x, y, w, h));
    }
    out
}

/// The neighbour list of cell (x, y) names exactly its neighbouring cells.
pub proof fn lemma_neighbor_list(x: usize, y: usize, w: usize, h: usize)
    requires
        x < w,
        y < h,
    ensures
        forall|k: int|
            0 <= k < neighbor_list(x, y, w, h).len() ==> {
                let c = #[trigger] neighbor_list(x, y, w, h)[k];
                c.0 < w && c.1 < h && neighbor_cells(w as nat, h as nat, y * w + x, c.1 * w + c.0)
            },
        forall|j: int|
            #[trigger] neighbor_cells(w as nat, h as nat, y * w + x, j) ==> exists|k: int|
                0 <= k < neighbor_list(x, y, w, h).len() && {
                    let c = #[trigger] neighbor_list(x, y, w, h)[k];
                    c.1 * w + c.0 == j
                },
        neighbor_list(x, y, w, h).len() <= 4,
{
    let l = neighbor_list(x, y, w, h);
    let i = y * w + x;
    lemma_row_major(w as int, h as int, x as int, y as int);
    lemma_fundamental_div_mod_converse(i, w as int, y as int, x as int);
    assert forall|k: int| 0 <= k < l.len() implies {
        let c = #[trigger] l[k];
        c.0 < w && c.1 < h && neighbor_cells(w as nat, h as nat, i, c.1 * w + c.0)
    } by {
        let c = l[k];
        lemma_row_major(w as int, h as int, c.0 as int, c.1 as int);
        lemma_fundamental_div_mod_converse(c.1 * w + c.0, w as int, c.1 as int, c.0 as int);
    }
    assert forall|j: int| #[trigger] neighbor_cells(w as nat, h as nat, i, j) implies exists|k: int|
        0 <= k < l.len() && {
            let c = #[trigger] l[k];
            c.1 * w + c.0 == j
        } by {
        let nx = j % (w as int);
        let ny = j / (w as int);
        lemma_fundamental_div_mod(j, w as int);
        vstd::arithmetic::div_mod::lemma_mod_bound(j, w as int);
        assert(j == ny * w + nx) by (nonlinear_arith)
            requires
                j == w * ny + nx,
        ;
        assert(0 <= ny < h) by {
            if ny < 0 {
                assert(ny * w + nx < 0) by (nonlinear_arith)
                    requires
                        ny < 0,
                        w > 0,
                        nx < w,
                ;
            }
            if ny >= h {
                assert(ny * w + nx >= w * h) by (nonlinear_arith)
                    requires
                        ny >= h,
                        w > 0,
                        nx >= 0,
                ;
            }
        }
        let c = (nx as usize, ny as usize);
        if ny == y && nx == x - 1 {
            assert(l[0] == c);
        } else if ny == y && nx == x + 1 {
            let k: int = if x > 0 { 1 } else { 0 };
            assert(l[k] == c);
        } else if nx == x && ny == y - 1 {
            let k: int = (if x > 0 { 1int } else { 0int }) + (if x + 1 < w { 1int } else { 0int });
            assert(l[k] == c);
        } else {
            let k: int = (if x > 0 { 1int } else { 0int }) + (if x + 1 < w { 1int } else { 0int }) + (if y > 0 { 1int } else { 0int });
            assert(l[k] == c);
        }
    }
}

/// The `v` positions of `s` form a finite set of size `count_of(s, v)`.
pub proof fn lemma_count_set(s: Seq<bool>, v: bool)
    ensures
        Set::new(|k: int| 0 <= k < s.len() && s[k] == v).finite(),
        Set::new(|k: int| 0 <= k < s.len() && s[k] == v).len() == count_of(s, v),
    decreases s.len(),
{
    let set = Set::new(|k: int| 0 <= k < s.len() && s[k] == v);
    if s.len() == 0 {
        assert(set =~= Set::empty());
    } else {
        let t = s.drop_last();
        lemma_count_set(t, v);
        let prev = Set::new(|k: int| 0 <= k < t.len() && t[k] == v);
        if s.last() == v {
            assert(set =~= prev.insert(s.len() - 1));
        } else {
            assert(set =~= prev);
        }
    }
}


/// The cells with membership `v` that some seed reaches through neighbouring
/// `v` cells.
pub open spec fn seeded_reach(w: nat, h: nat, s: Seq<bool>, v: bool, seeds: Set<int>) -> Set<int> {
    Set::new(
        |j: int|
            0 <= j < w * h && exists|b: int|
                seeds.contains(b) && #[trigger] reachable(same_adj(w, h, s, v), b, j),
    )
}

/// The bookkeeping of a spread over cells with membership `value`: every cell in
/// `queue` is marked, every marked cell is in `queue`, every marked cell has
/// membership `value` and is reached from a seed, and every seed is marked.
#[verifier::opaque]
pub open spec fn marks_ok(
    w: nat,
    h: nat,
    s: Seq<bool>,
    value: bool,
    seeds: Set<int>,
    visited: Seq<bool>,
    queue: Seq<usize>,
) -> bool {
    &&& visited.len() == w * h
    &&& forall|p: int| 0 <= p < queue.len() ==> (#[trigger] queue[p] as int) < w * h && visited[queue[p] as int]
    &&& forall|j: int| 0 <= j < w * h && #[trigger] visited[j] ==> exists|p: int| 0 <= p < queue.len() && queue[p] == j
    &&& forall|j: int| 0 <= j < w * h && #[trigger] visited[j] ==> s[j] == value && exists|b: int|
        seeds.contains(b) && #[trigger] reachable(same_adj(w, h, s, value), b, j)
    &&& forall|b: int| seeds.contains(b) ==> 0 <= b < w * h && visited[b]
}

/// Every neighbour with membership `value` of the first `head` queued cells is marked.
#[verifier::opaque]
pub open spec fn closed_upto(
    w: nat,
    h: nat,
    s: Seq<bool>,
    value: bool,
    visited: Seq<bool>,
    queue: Seq<usize>,
    head: int,
) -> bool {
    forall|p: int, k: int| 0 <= p < head && #[trigger] same_adj(w, h, s, value)(queue[p] as int, k) ==> #[trigger] visited[k]
}

/// Marking one more reached cell and queueing it keeps the bookkeeping.
proof fn lemma_mark_one(
    w: nat,
    h: nat,
    s: Seq<bool>,
    value: bool,
    seeds: Set<int>,
    vis: Seq<bool>,
    q: Seq<usize>,
    ni: usize,
)
    requires
        marks_ok(w, h, s, value, seeds, vis, q),
        ni < w * h,
        s[ni as int] == value,
        exists|b: int| seeds.contains(b) && #[trigger] reachable(same_adj(w, h, s, value), b, ni as int),
    ensures
        marks_ok(w, h, s, value, seeds, vis.update(ni as int, true), q.push(ni)),
{
    reveal(marks_ok);
    let vis1 = vis.update(ni as int, true);
    let q1 = q.push(ni);
    assert forall|j: int| 0 <= j < w * h && #[trigger] vis1[j] implies exists|p: int|
        0 <= p < q1.len() && q1[p] == j by {
        if j != ni {
            assert(vis[j]);
            let p = choose|p: int| 0 <= p < q.len() && q[p] == j;
            assert(q1[p] == j);
        } else {
            assert(q1[q1.len() - 1] == j);
        }
    }
    assert forall|j: int| 0 <= j < w * h && #[trigger] vis1[j] implies s[j] == value && exists|b: int|
        seeds.contains(b) && #[trigger] reachable(same_adj(w, h, s, value), b, j) by {
        if j != ni {
            assert(vis[j]);
        }
    }
    assert forall|p: int| 0 <= p < q1.len() implies (#[trigger] q1[p] as int) < w * h && vis1[q1[p] as int] by {
        if p < q.len() {
            assert(q1[p] == q[p]);
        }
    }
}

/// Marks the unmarked neighbours of the queued cell at `head` that have
/// membership `value`, and queues them.
fn visit_neighbors(
    w: usize,
    h: usize,
    inside: &[bool],
    value: bool,
    visited: &mut Vec<bool>,
    queue: &mut Vec<usize>,
    head: usize,
    count: usize,
    Ghost(seeds): Ghost<Set<int>>,
) -> (new_count: usize)
    requires
        w > 0,
        inside@.len() == w * h,
        marks_ok(w as nat, h as nat, inside@, value, seeds, old(visited)@, old(queue)@),
        closed_upto(w as nat, h as nat, inside@, value, old(visited)@, old(queue)@, head as int),
        head < old(queue)@.len(),
        count == count_of(old(visited)@, true),
    ensures
        marks_ok(w as nat, h as nat, inside@, value, seeds, final(visited)@, final(queue)@),
        closed_upto(w as nat, h as nat, inside@, value, final(visited)@, final(queue)@, head + 1),
        new_count == count_of(final(visited)@, true),
        count_of(final(visited)@, false) + final(queue)@.len() == count_of(old(visited)@, false) + old(queue)@.len(),
        old(queue)@.len() <= final(queue)@.len(),
{
    let ghost s = inside@;
    let ghost adj = same_adj(w as nat, h as nat, s, value);
    let ghost vis0 = visited@;
    let ghost q0 = queue@;
    let n = inside.len();
    proof {
        reveal(marks_ok);
        assert((queue@[head as int] as int) < w * h);
        assert(visited@.len() == n);
    }
    let i = queue[head];
    let x = i % w;
    let y = i / w;
    proof {
        lemma_fundamental_div_mod(i as int, w as int);
        assert(i == y * w + x) by (nonlinear_arith)
            requires
                i == w * (i / w) + i % w,
                y == i / w,
                x == i % w,
        ;
        assert(y < h) by (nonlinear_arith)
            requires
                i == y * w + x,
                i < w * h,
                x >= 0,
                w > 0,
        ;
        lemma_neighbor_list(x, y, w, h);
    }
    let nbrs = neighbors(x, y, w, h);
    let mut count = count;
    let mut k: usize = 0;
    while k < nbrs.len()
        invariant
            w > 0,
            n == w * h,
            s == inside@,
            s.len() == n,
            adj == same_adj(w as nat, h as nat, s, value),
            marks_ok(w as nat, h as nat, s, value, seeds, visited@, queue@),
            closed_upto(w as nat, h as nat, s, value, vis0, q0, head as int),
            count == count_of(visited@, true),
            count_of(visited@, false) + queue@.len() == count_of(vis0, false) + q0.len(),
            q0.len() <= queue@.len(),
            forall|p: int| 0 <= p < q0.len() ==> #[trigger] queue@[p] == q0[p],
            forall|j: int| 0 <= j < n && #[trigger] vis0[j] ==> visited@[j],
            visited@.len() == n,
            vis0.len() == n,
            head < q0.len(),
            q0[head as int] == i,
            i == y * w + x,
            x < w,
            y < h,
            k <= nbrs@.len(),
            nbrs@ == neighbor_list(x, y, w, h),
            forall|q: int| 0 <= q < k ==> {
                let c = #[trigger] nbrs@[q];
                s[c.1 * w + c.0] == value ==> visited@[c.1 * w + c.0]
            },
            forall|q: int| 0 <= q < nbrs@.len() ==> {
                let c = #[trigger] nbrs@[q];
                c.0 < w && c.1 < h && neighbor_cells(w as nat, h as nat, y * w + x, c.1 * w + c.0)
            },
        decreases nbrs@.len() - k,
    {
        let (nx, ny) = nbrs[k];
        proof {
            let c = nbrs@[k as int];
            assert(c.0 < w && c.1 < h);
            lemma_row_major(w as int, h as int, nx as int, ny as int);
        }
        let ni = ny * w + nx;
        if inside[ni] == value && !visited[ni] {
            proof {
                reveal(marks_ok);
                assert(q0[head as int] == queue@[head as int]);
                assert(visited@[i as int]);
                let b = choose|b: int| seeds.contains(b) && #[trigger] reachable(adj, b, i as int);
                assert(adj(i as int, ni as int));
                lemma_reach_step(adj, b, i as int, ni as int);
                lemma_mark_one(w as nat, h as nat, s, value, seeds, visited@, queue@, ni);
                lemma_count_update(visited@, ni as int, true, true);
                lemma_count_update(visited@, ni as int, true, false);
                lemma_count_bound(visited@.update(ni as int, true), true);
            }
            visited.set(ni, true);
            count += 1;
            queue.push(ni);
        }
        k += 1;
    }
    proof {
        reveal(closed_upto);
        assert forall|p: int, m: int| 0 <= p < head + 1 && #[trigger] adj(queue@[p] as int, m) implies #[trigger] visited@[m] by {
            assert(queue@[p] == q0[p]);
            if p < head {
                assert(adj(q0[p] as int, m));
                assert(vis0[m]);
            } else {
                assert(neighbor_cells(w as nat, h as nat, y * w + x, m));
                let q = choose|q: int| 0 <= q < nbrs@.len() && {
                    let c = #[trigger] nbrs@[q];
                    c.1 * w + c.0 == m
                };
                assert(nbrs@[q].1 * w + nbrs@[q].0 == m);
            }
        }
    }
    count
}

/// Marked cells that are exactly the seeds, all queued, start the bookkeeping.
proof fn lemma_spread_start(
    w: nat,
    h: nat,
    s: Seq<bool>,
    value: bool,
    seeds: Set<int>,
    vis: Seq<bool>,
    q: Seq<usize>,
)
    requires
        vis.len() == w * h,
        forall|j: int| 0 <= j < w * h ==> (vis[j] <==> seeds.contains(j)),
        forall|b: int| seeds.contains(b) ==> 0 <= b < w * h && s[b] == value,
        forall|p: int| 0 <= p < q.len() ==> (q[p] as int) < w * h && vis[q[p] as int],
        forall|j: int| 0 <= j < w * h && #[trigger] vis[j] ==> exists|p: int| 0 <= p < q.len() && q[p] == j,
    ensures
        marks_ok(w, h, s, value, seeds, vis, q),
        closed_upto(w, h, s, value, vis, q, 0),
{
    reveal(marks_ok);
    reveal(closed_upto);
    let adj = same_adj(w, h, s, value);
    assert forall|j: int| 0 <= j < w * h && #[trigger] vis[j] implies s[j] == value && exists|b: int|
        seeds.contains(b) && #[trigger] reachable(adj, b, j) by {
        assert(seeds.contains(j));
        lemma_reach_refl(adj, j);
    }
}

/// When every queued cell has been visited, the marked cells are exactly those
/// that the seeds reach.
proof fn lemma_spread_done(
    w: nat,
    h: nat,
    s: Seq<bool>,
    value: bool,
    seeds: Set<int>,
    vis: Seq<bool>,
    q: Seq<usize>,
)
    requires
        marks_ok(w, h, s, value, seeds, vis, q),
        closed_upto(w, h, s, value, vis, q, q.len() as int),
    ensures
        seeded_reach(w, h, s, value, seeds) == Set::new(|k: int| 0 <= k < vis.len() && vis[k] == true),
{
    reveal(marks_ok);
    reveal(closed_upto);
    let adj = same_adj(w, h, s, value);
    let n = w * h;
    let vset = Set::new(|k: int| 0 <= k < vis.len() && vis[k] == true);
    let closed = |z: int| 0 <= z < n && vis[z];
    assert forall|z: int, t: int| #[trigger] closed(z) && #[trigger] adj(z, t) implies closed(t) by {
        let p = choose|p: int| 0 <= p < q.len() && q[p] == z;
        assert(adj(q[p] as int, t));
    }
    assert forall|j: int| seeded_reach(w, h, s, value, seeds).contains(j) implies vset.contains(j) by {
        let b = choose|b: int| seeds.contains(b) && #[trigger] reachable(adj, b, j);
        lemma_reach_closed(adj, closed, b, j);
    }
    assert(seeded_reach(w, h, s, value, seeds) =~= vset);
}

/// Breadth-first spread from the cells already in `queue` (all of them marked in
/// `visited`, and exactly the seeds) through neighbouring cells with membership
/// `value`; returns how many cells it marked in all.
fn spread(
    w: usize,
    h: usize,
    inside: &[bool],
    value: bool,
    visited: &mut Vec<bool>,
    queue: &mut Vec<usize>,
    count: usize,
    Ghost(seeds): Ghost<Set<int>>,
) -> (total: usize)
    requires
        w > 0,
        inside@.len() == w * h,
        old(visited)@.len() == w * h,
        count == count_of(old(visited)@, true),
        forall|j: int| 0 <= j < w * h ==> (old(visited)@[j] <==> seeds.contains(j)),
        forall|b: int| seeds.contains(b) ==> 0 <= b < w * h && inside@[b] == value,
        forall|p: int| 0 <= p < old(queue)@.len() ==> (old(queue)@[p] as int) < w * h && old(visited)@[old(queue)@[p] as int],
        forall|j: int| 0 <= j < w * h && #[trigger] old(visited)@[j] ==> exists|p: int| 0 <= p < old(queue)@.len() && old(queue)@[p] == j,
    ensures
        seeded_reach(w as nat, h as nat, inside@, value, seeds).finite(),
        total == seeded_reach(w as nat, h as nat, inside@, value, seeds).len(),
{
    let ghost s = inside@;
    let ghost adj = same_adj(w as nat, h as nat, s, value);
    let ghost bound = count_of(visited@, false) + queue@.len();
    proof {
        lemma_spread_start(w as nat, h as nat, s, value, seeds, visited@, queue@);
    }
    let mut head: usize = 0;
    let mut count = count;
    while head < queue.len()
        invariant
            w > 0,
            s == inside@,
            s.len() == w * h,
            adj == same_adj(w as nat, h as nat, s, value),
            marks_ok(w as nat, h as nat, s, value, seeds, visited@, queue@),
            closed_upto(w as nat, h as nat, s, value, visited@, queue@, head as int),
            count == count_of(visited@, true),
            head <= queue@.len(),
            count_of(visited@, false) + queue@.len() == bound,
        decreases bound - head,
    {
        count = visit_neighbors(w, h, inside, value, visited, queue, head, count, Ghost(seeds));
        head += 1;
    }
    proof {
        lemma_spread_done(w as nat, h as nat, s, value, seeds, visited@, queue@);
        lemma_count_set(visited@, true);
    }
    count
}

/// Cell `i` of a grid `w` wide sits at column `i % w` of row `i / w`, and a cell
/// of a `w` x `h` grid lies in one of its rows.
pub proof fn lemma_cell_coords(w: int, h: int, i: int)
    requires
        w > 0,
        0 <= i < w * h,
    ensures
        0 <= i % w < w,
        0 <= i / w < h,
        i == (i / w) * w + i % w,
{
    lemma_fundamental_div_mod(i, w);
    vstd::arithmetic::div_mod::lemma_mod_bound(i, w);
    let y = i / w;
    let x = i % w;
    assert(i == y * w + x) by (nonlinear_arith)
        requires
            i == w * (i / w) + i % w,
            y == i / w,
            x == i % w,
    ;
    assert(0 <= y < h) by (nonlinear_arith)
        requires
            i == y * w + x,
            0 <= i < w * h,
            0 <= x < w,
            w > 0,
    ;
}

/// A sequence without `v` holds it zero times.
proof fn lemma_count_none<T>(s: Seq<T>, v: T)
    requires
        forall|i: int| 0 <= i < s.len() ==> s[i] != v,
    ensures
        count_of(s, v) == 0,
    decreases s.len(),
{
    if s.len() > 0 {
        lemma_count_none(s.drop_last(), v);
    }
}

/// A grid with cells holds cells in every row.
pub proof fn lemma_width_positive(w: int, h: int)
    requires
        w >= 0,
        h >= 0,
        w * h > 0,
    ensures
        w > 0,
        h > 0,
{
    if w == 0 {
        assert(w * h == 0) by (nonlinear_arith)
            requires
                w == 0,
        ;
    }
    if h == 0 {
        assert(w * h == 0) by (nonlinear_arith)
            requires
                h == 0,
        ;
    }
}

/// Whether the cells with membership `value` reached from the first such cell
/// number `total` (with no such cell, whether `total` is 0).
pub fn region_connected(w: usize, h: usize, inside: &[bool], value: bool, total: usize) -> (r: bool)
    requires
        inside@.len() == w * h,
    ensures
        r == region_connected_spec(w as nat, h as nat, inside@, value, total as int),
{
    let n = inside.len();
    let mut start: usize = 0;
    while start < n && inside[start] != value
        invariant
            start <= n,
            n == inside@.len(),
            forall|j: int| 0 <= j < start ==> inside@[j] != value,
        decreases n - start,
    {
        start += 1;
    }
    if start == n {
        proof {
            assert(!exists|k: int| 0 <= k < inside@.len() && inside@[k] == value);
        }
        return total == 0;
    }
    let ghost s = inside@;
    proof {
        lemma_width_positive(w as int, h as int);
        let k = first_with(s, value);
        assert(0 <= k < s.len() && s[k] == value && forall|j: int| 0 <= j < k ==> s[j] != value);
        if k < start {
            assert(s[k] != value);
        }
        if k > start {
            assert(s[start as int] != value);
        }
        assert(k == start);
    }
    let mut visited = vec![false; n];
    proof {
        lemma_count_none(visited@, true);
        lemma_count_update(visited@, start as int, true, true);
    }
    visited.set(start, true);
    let mut queue: Vec<usize> = Vec::new();
    queue.push(start);
    let ghost seeds = set![start as int];
    proof {
        assert forall|j: int| 0 <= j < w * h && #[trigger] visited@[j] implies exists|p: int|
            0 <= p < queue@.len() && queue@[p] == j by {
            assert(queue@[0] == j);
        }
    }
    let count = spread(w, h, inside, value, &mut visited, &mut queue, 1, Ghost(seeds));
    proof {
        assert(seeded_reach(w as nat, h as nat, s, value, seeds) =~= reach_set(w as nat, h as nat, s, value, start as int));
    }
    count == total
}

/// Whether there are outside cells, some of them on the border, and the outside
/// cells reached from the border number `total_outside`: the region has no holes.
pub fn complement_connected(w: usize, h: usize, inside: &[bool], total_outside: usize) -> (r: bool)
    requires
        inside@.len() == w * h,
    ensures
        r == complement_connected_spec(w as nat, h as nat, inside@, total_outside as int),
{
    if total_outside == 0 {
        return false;
    }
    let n = inside.len();
    let ghost s = inside@;
    let ghost seeds = Set::new(|b: int| 0 <= b < w * h && on_border(w as nat, h as nat, b) && !s[b]);
    let mut visited = vec![false; n];
    let mut queue: Vec<usize> = Vec::new();
    let mut count: usize = 0;
    proof {
        lemma_count_none(visited@, true);
    }
    let mut i: usize = 0;
    while i < n
        invariant
            i <= n,
            n == w * h,
            s == inside@,
            s.len() == n,
            visited@.len() == n,
            count == count_of(visited@, true),
            seeds == Set::new(|b: int| 0 <= b < w * h && on_border(w as nat, h as nat, b) && !s[b]),
            forall|j: int| 0 <= j < n ==> (visited@[j] <==> (j < i && seeds.contains(j))),
            forall|p: int| 0 <= p < queue@.len() ==> (queue@[p] as int) < i && visited@[queue@[p] as int],
            forall|j: int| 0 <= j < n && #[trigger] visited@[j] ==> exists|p: int| 0 <= p < queue@.len() && queue@[p] == j,
        decreases n - i,
    {
        proof {
            lemma_width_positive(w as int, h as int);
            lemma_cell_coords(w as int, h as int, i as int);
        }
        let x = i % w;
        let y = i / w;
        let border = x == 0 || y == 0 || x == w - 1 || y == h - 1;
        if border && !inside[i] {
            if !visited[i] {
                let ghost vis1 = visited@;
                let ghost q1 = queue@;
                proof {
                    lemma_count_update(visited@, i as int, true, true);
                    lemma_count_bound(visited@.update(i as int, true), true);
                }
                visited.set(i, true);
                queue.push(i);
                count += 1;
                proof {
                    assert forall|j: int| 0 <= j < n && #[trigger] visited@[j] implies exists|p: int|
                        0 <= p < queue@.len() && queue@[p] == j by {
                        if j != i {
                            assert(vis1[j]);
                            let p = choose|p: int| 0 <= p < q1.len() && q1[p] == j;
                            assert(queue@[p] == j);
                        } else {
                            assert(queue@[queue@.len() - 1] == j);
                        }
                    }
                    assert forall|p: int| 0 <= p < queue@.len() implies (queue@[p] as int) < i + 1 && visited@[queue@[p] as int] by {
                        if p < q1.len() {
                            assert(queue@[p] == q1[p]);
                        }
                    }
                }
            }
        }
        i += 1;
    }
    if queue.len() == 0 {
        proof {
            assert forall|b: int| 0 <= b < w * h && on_border(w as nat, h as nat, b) implies s[b] by {
                if !s[b] {
                    assert(seeds.contains(b));
                    assert(visited@[b]);
                    let p = choose|p: int| 0 <= p < queue@.len() && queue@[p] == b;
                }
            }
        }
        return false;
    }
    proof {
        assert((queue@[0] as int) < n);
        lemma_width_positive(w as int, h as int);
        assert(seeds.contains(queue@[0] as int));
    }
    let count = spread(w, h, inside, false, &mut visited, &mut queue, count, Ghost(seeds));
    proof {
        assert(seeded_reach(w as nat, h as nat, s, false, seeds) =~= border_reach_set(w as nat, h as nat, s));
    }
    count == total_outside
}

/// Whether `inside` is a valid region for loop generation: at least 2 cells
/// inside, at least one outside, the inside connected, and no holes.
pub fn is_valid_region(w: usize, h: usize, inside: &[bool]) -> (r: bool)
    requires
        inside@.len() == w * h,
    ensures
        r == region_valid_spec(w as nat, h as nat, inside@),
{
    let n = inside.len();
    let count = count_inside(inside);
    proof {
        lemma_count_bound(inside@, true);
        reveal(region_valid_spec);
    }
    if count < 2 || count == n {
        return false;
    }
    region_connected(w, h, inside, true, count) && complement_connected(w, h, inside, n - count)
}

/// How many cells are inside.
pub fn count_inside(inside: &[bool]) -> (r: usize)
    ensures
        r == count_of(inside@, true),
{
    let n = inside.len();
    let mut count: usize = 0;
    let mut k: usize = 0;
    while k < n
        invariant
            k <= n,
            n == inside@.len(),
            count == count_of(inside@.subrange(0, k as int), true),
            count <= k,
        decreases n - k,
    {
        proof {
            assert(inside@.subrange(0, k + 1).drop_last() =~= inside@.subrange(0, k as int));
        }
        if inside[k] {
            count += 1;
        }
        k += 1;
    }
    proof {
        assert(inside@.subrange(0, n as int) =~= inside@);
    }
    count
}

/// The region touches all four borders of the grid.
#[verifier::opaque]
pub open spec fn borders_spec(w: nat, h: nat, s: Seq<bool>) -> bool {
    &&& exists|x: int| 0 <= x < w && #[trigger] s[x]
    &&& exists|x: int| 0 <= x < w && #[trigger] s[(h - 1) * w + x]
    &&& exists|y: int| 0 <= y < h && #[trigger] s[y * w]
    &&& exists|y: int| 0 <= y < h && #[trigger] s[y * w + w - 1]
}

/// Whether the region touches all four borders of the grid.
pub fn borders_touched(w: usize, h: usize, inside: &[bool]) -> (r: bool)
    requires
        w > 0,
        h > 0,
        inside@.len() == w * h,
    ensures
        r == borders_spec(w as nat, h as nat, inside@),
{
    proof {
        reveal(borders_spec);
    }
    let (top, bottom, left, right) = border_sides(w, h, inside);
    top && bottom && left && right
}

/// Which borders the region touches: the top row, the bottom row, the left
/// column and the right column.
pub fn border_sides(w: usize, h: usize, inside: &[bool]) -> (r: (bool, bool, bool, bool))
    requires
        w > 0,
        h > 0,
        inside@.len() == w * h,
    ensures
        r.0 == exists|x: int| 0 <= x < w && #[trigger] inside@[x],
        r.1 == exists|x: int| 0 <= x < w && #[trigger] inside@[(h - 1) * w + x],
        r.2 == exists|y: int| 0 <= y < h && #[trigger] inside@[y * w],
        r.3 == exists|y: int| 0 <= y < h && #[trigger] inside@[y * w + w - 1],
{
    let ghost s = inside@;
    let n = inside.len();
    let mut top = false;
    let mut bottom = false;
    let mut x: usize = 0;
    while x < w
        invariant
            x <= w,
            w > 0,
            h > 0,
            s == inside@,
            s.len() == w * h,
            top == exists|x2: int| 0 <= x2 < x && #[trigger] s[x2],
            bottom == exists|x2: int| 0 <= x2 < x && #[trigger] s[(h - 1) * w + x2],
        decreases w - x,
    {
        proof {
            lemma_row_major(w as int, h as int, x as int, 0);
            lemma_row_major(w as int, h as int, x as int, h - 1);
        }
        if inside[x] {
            top = true;
        }
        if inside[(h - 1) * w + x] {
            bottom = true;
        }
        proof {
            if s[x as int] {
                assert(exists|x2: int| 0 <= x2 < x + 1 && #[trigger] s[x2]);
            }
            if s[(h - 1) * w + x] {
                assert(exists|x2: int| 0 <= x2 < x + 1 && #[trigger] s[(h - 1) * w + x2]);
            }
            if exists|x2: int| 0 <= x2 < x + 1 && #[trigger] s[x2] {
                let x2 = choose|x2: int| 0 <= x2 < x + 1 && #[trigger] s[x2];
                if x2 < x {
                    assert(exists|x3: int| 0 <= x3 < x && #[trigger] s[x3]);
                }
            }
            if exists|x2: int| 0 <= x2 < x + 1 && #[trigger] s[(h - 1) * w + x2] {
                let x2 = choose|x2: int| 0 <= x2 < x + 1 && #[trigger] s[(h - 1) * w + x2];
                if x2 < x {
                    assert(exists|x3: int| 0 <= x3 < x && #[trigger] s[(h - 1) * w + x3]);
                }
            }
        }
        x += 1;
    }
    let mut left = false;
    let mut right = false;
    let mut y: usize = 0;
    while y < h
        invariant
            y <= h,
            w > 0,
            h > 0,
            s == inside@,
            s.len() == w * h,
            n == w * h,
            left == exists|y2: int| 0 <= y2 < y && #[trigger] s[y2 * w],
            right == exists|y2: int| 0 <= y2 < y && #[trigger] s[y2 * w + w - 1],
        decreases h - y,
    {
        proof {
            lemma_row_major(w as int, h as int, 0, y as int);
            lemma_row_major(w as int, h as int, w - 1, y as int);
            assert(y * w + 0 == y * w);
        }
        if inside[y * w] {
            left = true;
        }
        if inside[y * w + w - 1] {
            right = true;
        }
        proof {
            if s[y * w] {
                assert(exists|y2: int| 0 <= y2 < y + 1 && #[trigger] s[y2 * w]);
            }
            if s[y * w + w - 1] {
                assert(exists|y2: int| 0 <= y2 < y + 1 && #[trigger] s[y2 * w + w - 1]);
            }
            if exists|y2: int| 0 <= y2 < y + 1 && #[trigger] s[y2 * w] {
                let y2 = choose|y2: int| 0 <= y2 < y + 1 && #[trigger] s[y2 * w];
                if y2 < y {
                    assert(exists|y3: int| 0 <= y3 < y && #[trigger] s[y3 * w]);
                }
            }
            if exists|y2: int| 0 <= y2 < y + 1 && #[trigger] s[y2 * w + w - 1] {
                let y2 = choose|y2: int| 0 <= y2 < y + 1 && #[trigger] s[y2 * w + w - 1];
                if y2 < y {
                    assert(exists|y3: int| 0 <= y3 < y && #[trigger] s[y3 * w + w - 1]);
                }
            }
        }
        y += 1;
    }
    (top, bottom, left, right)
}

/// How a cell shows in a picture of a region: `*` for the marked cell, `X`
/// inside, `.` outside.
pub open spec fn cell_mark(w: nat, s: Seq<bool>, mark: Option<(usize, usize)>, x: int, y: int) -> char {
    if mark == Some((x as usize, y as usize)) {
        '*'
    } else if s[y * w + x] {
        'X'
    } else {
        '.'
    }
}

/// A picture of a region: one line per row, each cell's mark followed by a
/// space, and a line break after each row.
pub open spec fn picture_spec(w: nat, h: nat, s: Seq<bool>, mark: Option<(usize, usize)>) -> Seq<char> {
    Seq::new(
        h * (2 * w + 1),
        |i: int|
            {
                let y = i / ((2 * w + 1) as int);
                let k = i % ((2 * w + 1) as int);
                if k == 2 * w {
                    '\n'
                } else if k % 2 == 1 {
                    ' '
                } else {
                    cell_mark(w, s, mark, k / 2, y)
                }
            },
    )
}

/// Draws a region as [`picture_spec`] says, with `mark` shown as `*`.
pub fn region_picture(w: usize, h: usize, inside: &[bool], mark: Option<(usize, usize)>) -> (r: String)
    requires
        w > 0,
        h > 0,
        inside@.len() == w * h,
        h * (2 * w + 1) <= usize::MAX,
    ensures
        r@ == picture_spec(w as nat, h as nat, inside@, mark),
{
    let ghost full = picture_spec(w as nat, h as nat, inside@, mark);
    let ghost ww: int = 2 * w + 1;
    let n = inside.len();
    let mut out: Vec<char> = Vec::new();
    let mut y: usize = 0;
    while y < h
        invariant
            y <= h,
            w > 0,
            inside@.len() == w * h,
            n == w * h,
            h * (2 * w + 1) <= usize::MAX,
            ww == 2 * w + 1,
            full == picture_spec(w as nat, h as nat, inside@, mark),
            out@ =~= full.subrange(0, y * ww),
            y * ww <= h * ww,
        decreases h - y,
    {
        proof {
            assert((y + 1) * ww <= h * ww) by (nonlinear_arith)
                requires
                    y + 1 <= h,
                    ww >= 0,
            ;
            assert((y + 1) * ww == y * ww + ww) by (nonlinear_arith);
        }
        let mut x: usize = 0;
        while x < w
            invariant
                x <= w,
                y < h,
                w > 0,
                inside@.len() == w * h,
                n == w * h,
                h * (2 * w + 1) <= usize::MAX,
                ww == 2 * w + 1,
                full == picture_spec(w as nat, h as nat, inside@, mark),
                out@ =~= full.subrange(0, y * ww + 2 * x),
                y * ww + ww <= h * ww,
            decreases w - x,
        {
            proof {
                lemma_row_major(w as int, h as int, x as int, y as int);
            }
            let ch = if mark == Some((x, y)) {
                '*'
            } else if inside[y * w + x] {
                'X'
            } else {
                '.'
            };
            proof {
                let i = y * ww + 2 * x;
                vstd::arithmetic::div_mod::lemma_fundamental_div_mod_converse(i, ww, y as int, 2 * x);
                vstd::arithmetic::div_mod::lemma_fundamental_div_mod_converse(i + 1, ww, y as int, 2 * x + 1);
                assert(full[i] == ch);
                assert(full[i + 1] == ' ');
            }
            out.push(ch);
            out.push(' ');
            x += 1;
        }
        proof {
            let i = y * ww + 2 * w;
            vstd::arithmetic::div_mod::lemma_fundamental_div_mod_converse(i, ww, y as int, 2 * w);
            assert(full[i] == '\n');
            assert((y + 1) * ww == y * ww + ww) by (nonlinear_arith);
        }
        out.push('\n');
        y += 1;
    }
    proof {
        assert(full.len() == h * ww);
    }
    string_of(out)
}

/// The total of a list of weights.
pub open spec fn weight_sum(ws: Seq<u32>) -> int
    decreases ws.len(),
{
    if ws.len() == 0 {
        0
    } else {
        ws[0] + weight_sum(ws.drop_first())
    }
}

/// The entry that a draw `pick` lands on when the weights are laid end to end.
pub open spec fn select(ws: Seq<u32>, pick: int) -> int
    decreases ws.len(),
{
    if ws.len() == 0 {
        0
    } else if pick < ws[0] {
        0
    } else {
        1 + select(ws.drop_first(), pick - ws[0])
    }
}

/// The total of `ws`.
pub fn total_weight(ws: &Vec<u32>) -> (r: u32)
    requires
        weight_sum(ws@) <= u32::MAX,
    ensures
        r == weight_sum(ws@),
{
    let n = ws.len();
    let mut acc: u32 = 0;
    let mut k: usize = 0;
    proof {
        assert(ws@.skip(0) =~= ws@);
    }
    while k < n
        invariant
            k <= n,
            n == ws@.len(),
            weight_sum(ws@) <= u32::MAX,
            acc + weight_sum(ws@.skip(k as int)) == weight_sum(ws@),
        decreases n - k,
    {
        proof {
            assert(ws@.skip(k as int).drop_first() =~= ws@.skip(k + 1));
            lemma_weight_sum_nonneg(ws@.skip(k + 1));
        }
        acc = acc + ws[k];
        k += 1;
    }
    proof {
        assert(ws@.skip(n as int) =~= Seq::<u32>::empty());
    }
    acc
}

pub proof fn lemma_weight_sum_nonneg(ws: Seq<u32>)
    ensures
        weight_sum(ws) >= 0,
    decreases ws.len(),
{
    if ws.len() > 0 {
        lemma_weight_sum_nonneg(ws.drop_first());
    }
}

/// The entry that `pick` lands on, for `pick` below the total.
pub fn pick_weighted(ws: &Vec<u32>, pick: u32) -> (k: usize)
    requires
        pick < weight_sum(ws@),
    ensures
        k == select(ws@, pick as int),
        k < ws@.len(),
{
    let n = ws.len();
    let mut rest = pick;
    let mut k: usize = 0;
    proof {
        assert(ws@.skip(0) =~= ws@);
    }
    while k < n
        invariant
            k <= n,
            n == ws@.len(),
            rest < weight_sum(ws@.skip(k as int)),
            select(ws@, pick as int) == k + select(ws@.skip(k as int), rest as int),
        decreases n - k,
    {
        proof {
            assert(ws@.skip(k as int).drop_first() =~= ws@.skip(k + 1));
            assert(ws@.skip(k as int)[0] == ws@[k as int]);
        }
        if rest < ws[k] {
            proof {
                assert(select(ws@.skip(k as int), rest as int) == 0);
            }
            return k;
        }
        rest = rest - ws[k];
        k += 1;
    }
    proof {
        assert(ws@.skip(n as int) =~= Seq::<u32>::empty());
    }
    vstd::pervasive::unreached()
}

/// A sequence that holds `v` somewhere has a first position holding it.
pub proof fn lemma_first_with(s: Seq<bool>, v: bool, k: int)
    requires
        0 <= k < s.len(),
        s[k] == v,
    ensures
        0 <= first_with(s, v) < s.len(),
        s[first_with(s, v)] == v,
{
    lemma_min_index(s, v, k);
}

proof fn lemma_min_index(s: Seq<bool>, v: bool, k: int)
    requires
        0 <= k < s.len(),
        s[k] == v,
    ensures
        exists|m: int| 0 <= m < s.len() && s[m] == v && forall|j: int| 0 <= j < m ==> s[j] != v,
    decreases k,
{
    if exists|j: int| 0 <= j < k && s[j] == v {
        let j = choose|j: int| 0 <= j < k && s[j] == v;
        lemma_min_index(s, v, j);
    } else {
        assert(forall|j: int| 0 <= j < k ==> s[j] != v);
    }
}

/// Every position holds `true` or `false`.
pub proof fn lemma_count_split(s: Seq<bool>)
    ensures
        count_of(s, true) + count_of(s, false) == s.len(),
    decreases s.len(),
{
    if s.len() > 0 {
        lemma_count_split(s.drop_last());
    }
}

/// Neighbouring cells are neighbours both ways.
pub proof fn lemma_same_adj_symmetric(w: nat, h: nat, s: Seq<bool>, v: bool)
    ensures
        crate::graph::symmetric(same_adj(w, h, s, v)),
{
}

/// What a walk through cells with membership `v` reaches also has membership `v`.
proof fn lemma_reach_keeps(w: nat, h: nat, s: Seq<bool>, v: bool, a: int, b: int)
    requires
        0 <= a < w * h,
        s[a] == v,
        reachable(same_adj(w, h, s, v), a, b),
    ensures
        0 <= b < w * h,
        s[b] == v,
{
    let keep = |z: int| 0 <= z < w * h && s[z] == v;
    lemma_reach_closed(same_adj(w, h, s, v), keep, a, b);
}

/// In a valid region every inside cell has an inside neighbour.
pub proof fn lemma_inside_neighbour(w: nat, h: nat, s: Seq<bool>, c: int)
    requires
        s.len() == w * h,
        region_valid_spec(w, h, s),
        0 <= c < w * h,
        s[c],
    ensures
        exists|j: int| #[trigger] neighbor_cells(w, h, c, j) && s[j],
{
    reveal(region_valid_spec);
    let adj = same_adj(w, h, s, true);
    lemma_first_with(s, true, c);
    let f = first_with(s, true);
    let rs = reach_set(w, h, s, true, f);
    let ins = Set::new(|k: int| 0 <= k < s.len() && s[k] == true);
    lemma_count_set(s, true);
    assert(rs.subset_of(ins)) by {
        assert forall|j: int| rs.contains(j) implies ins.contains(j) by {
            lemma_reach_keeps(w, h, s, true, f, j);
        }
    }
    vstd::set_lib::lemma_len_subset(rs, ins);
    vstd::set_lib::lemma_subset_equality(rs, ins);
    assert(ins.contains(c));
    lemma_same_adj_symmetric(w, h, s, true);
    if c != f {
        crate::graph::lemma_reach_sym(adj, f, c);
        crate::graph::lemma_reach_first_step(adj, c, f);
    } else {
        // Some other cell is inside too, and the walk to it leaves c.
        assert(ins.len() >= 2);
        assert(ins.remove(c).len() == ins.len() - 1);
        assert(ins.remove(c).len() > 0);
        let g2 = ins.remove(c).choose();
        assert(ins.remove(c).contains(g2));
        assert(rs.contains(g2));
        crate::graph::lemma_reach_first_step(adj, c, g2);
    }
}

/// In a valid region every outside cell off the border has an outside
/// neighbour.
pub proof fn lemma_outside_neighbour(w: nat, h: nat, s: Seq<bool>, c: int)
    requires
        s.len() == w * h,
        region_valid_spec(w, h, s),
        0 <= c < w * h,
        !s[c],
        !on_border(w, h, c),
    ensures
        exists|j: int| #[trigger] neighbor_cells(w, h, c, j) && !s[j],
{
    reveal(region_valid_spec);
    let adj = same_adj(w, h, s, false);
    let bs = border_reach_set(w, h, s);
    let outs = Set::new(|k: int| 0 <= k < s.len() && s[k] == false);
    lemma_count_set(s, false);
    lemma_count_split(s);
    assert(bs.subset_of(outs)) by {
        assert forall|j: int| bs.contains(j) implies outs.contains(j) by {
            let b = choose|b: int| 0 <= b < w * h && on_border(w, h, b) && !s[b] && #[trigger] reachable(adj, b, j);
            lemma_reach_keeps(w, h, s, false, b, j);
        }
    }
    vstd::set_lib::lemma_len_subset(bs, outs);
    vstd::set_lib::lemma_subset_equality(bs, outs);
    assert(outs.contains(c));
    assert(bs.contains(c));
    let b = choose|b: int| 0 <= b < w * h && on_border(w, h, b) && !s[b] && #[trigger] reachable(adj, b, c);
    assert(b != c);
    lemma_same_adj_symmetric(w, h, s, false);
    crate::graph::lemma_reach_sym(adj, b, c);
    crate::graph::lemma_reach_first_step(adj, c, b);
}

} // verus!
