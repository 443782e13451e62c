//! The weighted random walk region generator.
use vstd::prelude::*;

use crate::generate::common::{
    borders_spec, borders_touched, count_inside, is_valid_region, lemma_cell_coords,
    lemma_neighbor_list, lemma_weight_sum_nonneg, neighbor_list, neighbors, pick_target_size,
    pick_weighted, region_valid_spec, select, target_high, target_low, total_weight, weight_sum,
};
use crate::lines::{count_of, lemma_count_bound, lemma_count_update, lemma_row_major};
use crate::rng::{next_draw, next_state, Rng};

verus! {

/// One row of the per-step weighted lottery: a stop option plus one entry per
/// candidate direction. Returned by [`WalkBuilder::next_lottery`] so callers
/// can inspect exactly what the next step will sample from.
#[derive(Debug, Clone)]
pub struct LotteryRow {
    pub label: &'static str,
    pub weight: u32,
    pub note: String,
    /// `Some(cell)` for a move; `None` for the stop row.
    pub target: Option<(usize, usize)>,
}

/// The weight of the stop row.
pub const STOP_WEIGHT: u32 = 2;

/// How many of the cells in `nb` other than `tip` are inside.
pub open spec fn others_inside(nb: Seq<(usize, usize)>, w: int, inside: Seq<bool>, tip: (usize, usize)) -> nat
    decreases nb.len(),
{
    if nb.len() == 0 {
        0
    } else {
        let c = nb.last();
        others_inside(nb.drop_last(), w, inside, tip) + if c != tip && inside[c.1 * w + c.0] {
            1nat
        } else {
            0nat
        }
    }
}

/// How many of the cells in `nb` are outside.
pub open spec fn outside_count(nb: Seq<(usize, usize)>, w: int, inside: Seq<bool>) -> nat
    decreases nb.len(),
{
    if nb.len() == 0 {
        0
    } else {
        let c = nb.last();
        outside_count(nb.drop_last(), w, inside) + if !inside[c.1 * w + c.0] {
            1nat
        } else {
            0nat
        }
    }
}

/// The weight of a candidate with `k` other inside neighbours.
pub open spec fn kind_weight(k: nat) -> u32 {
    if k == 0 {
        16
    } else if k == 1 {
        4
    } else if k == 2 {
        1
    } else {
        0
    }
}

/// The note of a candidate with `k` other inside neighbours.
pub open spec fn kind_note(k: nat) -> Seq<char> {
    if k == 0 {
        "fresh"@
    } else if k == 1 {
        "graze 1"@
    } else if k == 2 {
        "wedge 2"@
    } else {
        "pocket 3"@
    }
}

/// The lottery row for a move from `tip` by (`dx`, `dy`): its weight, its note
/// and the cell it would add.
#[verifier::opaque]
pub open spec fn dir_row(w: nat, h: nat, inside: Seq<bool>, tip: (usize, usize), dx: int, dy: int) -> (
    u32,
    Seq<char>,
    Option<(usize, usize)>,
) {
    let nx = tip.0 + dx;
    let ny = tip.1 + dy;
    if nx < 0 || ny < 0 || nx >= w || ny >= h {
        (0, "off-grid"@, None)
    } else if inside[ny * w + nx] {
        (0, "in R"@, None)
    } else {
        let k = others_inside(neighbor_list(nx as usize, ny as usize, w as usize, h as usize), w as int, inside, tip);
        if kind_weight(k) == 0 {
            (0, kind_note(k), None)
        } else if !region_valid_spec(w, h, inside.update(ny * w + nx, true)) {
            (0, kind_note(k) + ", splits outside"@, None)
        } else {
            (kind_weight(k), kind_note(k), Some((nx as usize, ny as usize)))
        }
    }
}

/// The move of the `k`-th direction row: east, west, south, north.
pub open spec fn lottery_dir(k: int) -> (int, int) {
    if k == 0 {
        (1, 0)
    } else if k == 1 {
        (-1, 0)
    } else if k == 2 {
        (0, 1)
    } else {
        (0, -1)
    }
}

/// The label of the `k`-th direction row.
pub open spec fn lottery_label(k: int) -> Seq<char> {
    if k == 0 {
        "E"@
    } else if k == 1 {
        "W"@
    } else if k == 2 {
        "S"@
    } else {
        "N"@
    }
}

/// The row of the `k`-th direction.
pub open spec fn lottery_dir_row(w: nat, h: nat, inside: Seq<bool>, tip: (usize, usize), k: int) -> (
    u32,
    Seq<char>,
    Option<(usize, usize)>,
) {
    dir_row(w, h, inside, tip, lottery_dir(k).0, lottery_dir(k).1)
}

/// The weights of the lottery from `tip`: stop, then east, west, south, north.
pub open spec fn lottery_weights(w: nat, h: nat, inside: Seq<bool>, tip: (usize, usize)) -> Seq<u32> {
    seq![
        STOP_WEIGHT,
        lottery_dir_row(w, h, inside, tip, 0).0,
        lottery_dir_row(w, h, inside, tip, 1).0,
        lottery_dir_row(w, h, inside, tip, 2).0,
        lottery_dir_row(w, h, inside, tip, 3).0,
    ]
}

/// The cells that the lottery rows from `tip` would add (none for stop).
pub open spec fn lottery_targets(w: nat, h: nat, inside: Seq<bool>, tip: (usize, usize)) -> Seq<Option<(usize, usize)>> {
    seq![
        None,
        lottery_dir_row(w, h, inside, tip, 0).2,
        lottery_dir_row(w, h, inside, tip, 1).2,
        lottery_dir_row(w, h, inside, tip, 2).2,
        lottery_dir_row(w, h, inside, tip, 3).2,
    ]
}

/// `rows` is the lottery from `tip`.
pub open spec fn is_lottery(rows: Seq<LotteryRow>, w: nat, h: nat, inside: Seq<bool>, tip: (usize, usize)) -> bool {
    &&& rows.len() == 5
    &&& rows[0].label@ == "stop"@
    &&& rows[0].weight == STOP_WEIGHT
    &&& rows[0].note@ == "-"@
    &&& rows[0].target is None
    &&& forall|k: int|
        0 <= k < 4 ==> {
            let row = #[trigger] rows[k + 1];
            let spec_row = lottery_dir_row(w, h, inside, tip, k);
            &&& row.label@ == lottery_label(k)
            &&& row.weight == spec_row.0
            &&& row.note@ == spec_row.1
            &&& row.target == spec_row.2
        }
}

/// The cells that a restart may pick, in row-major order among the first `n`
/// cells, each with its weight: the inside cells with at least one outside
/// neighbour, weighted by the square of that number.
pub open spec fn boundary_cells(w: nat, h: nat, inside: Seq<bool>, n: int) -> Seq<(u32, (usize, usize))>
    decreases n,
{
    if n <= 0 {
        Seq::empty()
    } else {
        let prev = boundary_cells(w, h, inside, n - 1);
        let i = n - 1;
        let x = i % (w as int);
        let y = i / (w as int);
        let oc = outside_count(neighbor_list(x as usize, y as usize, w as usize, h as usize), w as int, inside);
        if inside[i] && oc > 0 {
            prev.push(((oc * oc) as u32, (x as usize, y as usize)))
        } else {
            prev
        }
    }
}

/// The weights of the restart candidates.
pub open spec fn boundary_weights(bl: Seq<(u32, (usize, usize))>) -> Seq<u32> {
    bl.map_values(|e: (u32, (usize, usize))| e.0)
}

#[verifier::ext_equal]
/// What the walk generator is: grid size, region, target size, tip, generator
/// state and how many restarts in a row found no move.
pub struct WalkView {
    pub width: nat,
    pub height: nat,
    pub inside: Seq<bool>,
    pub target: nat,
    pub tip: Option<(usize, usize)>,
    pub rng: u64,
    pub stuck: nat,
}

impl WalkView {
    /// The state every walk generator is in: a grid of at least 2x2 whose
    /// weights fit in 32 bits, a target size in its range, a tip on an inside
    /// cell, and a region that is a single cell or valid.
    pub open spec fn ok(self) -> bool {
        let total = self.width * self.height;
        &&& self.width >= 2
        &&& self.height >= 2
        &&& total * 16 <= u32::MAX
        &&& self.inside.len() == total
        &&& target_low(total as int) <= self.target <= target_high(total as int)
        &&& self.stuck <= usize::MAX
        &&& match self.tip {
            Some(t) => t.0 < self.width && t.1 < self.height && self.inside[t.1 * self.width + t.0],
            None => true,
        }
        &&& count_of(self.inside, true) == 1 || region_valid_spec(self.width, self.height, self.inside)
    }

    /// The target is reached and the region touches all four borders.
    pub open spec fn done(self) -> bool {
        count_of(self.inside, true) >= self.target && borders_spec(self.width, self.height, self.inside)
    }
}

/// The cell that a restart picks and the generator state after it.
#[verifier::opaque]
pub open spec fn boundary_pick(v: WalkView) -> (Option<(usize, usize)>, u64) {
    let bl = boundary_cells(v.width, v.height, v.inside, (v.width * v.height) as int);
    if bl.len() == 0 {
        (None, v.rng)
    } else {
        let ws = boundary_weights(bl);
        (Some(bl[select(ws, (next_draw(v.rng) as int) % weight_sum(ws))].1), next_state(v.rng))
    }
}

/// The cell that the lottery from `tip` adds (none when it stops).
#[verifier::opaque]
pub open spec fn walk_choice(v: WalkView, tip: (usize, usize)) -> Option<(usize, usize)> {
    let ws = lottery_weights(v.width, v.height, v.inside, tip);
    lottery_targets(v.width, v.height, v.inside, tip)[select(ws, (next_draw(v.rng) as int) % weight_sum(ws))]
}

/// One step of the walk: the next state, and whether to go on.
#[verifier::opaque]
pub open spec fn walk_step(v: WalkView) -> (WalkView, bool) {
    let total = v.width * v.height;
    if v.done() || count_of(v.inside, true) >= total {
        (v, false)
    } else {
        match v.tip {
            None => {
                let (c, st) = boundary_pick(v);
                match c {
                    Some(c) => (WalkView { tip: Some(c), rng: st, ..v }, true),
                    None => (v, false),
                }
            },
            Some(t) => {
                let rng1 = next_state(v.rng);
                match walk_choice(v, t) {
                    Some(n) => (
                        WalkView {
                            inside: v.inside.update(n.1 * v.width + n.0, true),
                            tip: Some(n),
                            rng: rng1,
                            stuck: 0,
                            ..v
                        },
                        true,
                    ),
                    None => {
                        let stuck: nat = if v.stuck < usize::MAX {
                            v.stuck + 1
                        } else {
                            v.stuck
                        };
                        let v1 = WalkView { rng: rng1, stuck: stuck, ..v };
                        if stuck > total {
                            (v1, false)
                        } else {
                            let (c, st) = boundary_pick(v1);
                            (WalkView { tip: c, rng: st, ..v1 }, true)
                        }
                    },
                }
            },
        }
    }
}

/// The state after `k` steps from `v`.
pub open spec fn walk_from(v: WalkView, k: nat) -> WalkView
    decreases k,
{
    if k == 0 {
        v
    } else {
        walk_step(walk_from(v, (k - 1) as nat)).0
    }
}

/// The state a walk generator starts in for a `w` x `h` grid and `seed`.
pub open spec fn walk_start(w: nat, h: nat, seed: u64) -> WalkView {
    let total = w * h;
    let lo = target_low(total as int);
    let hi = target_high(total as int);
    let target = lo + (next_draw(seed) as int) % (hi - lo + 1);
    let s1 = next_state(seed);
    let start = (next_draw(s1) as int) % (total as int);
    WalkView {
        width: w,
        height: h,
        inside: Seq::new(total, |i: int| i == start),
        target: target as nat,
        tip: Some(((start % (w as int)) as usize, (start / (w as int)) as usize)),
        rng: next_state(s1),
        stuck: 0,
    }
}

/// Builds a random simply-connected "inside" region step by step.
///
/// Algorithm: start at a random cell, then do a weighted random walk that
/// never revisits an R cell. At each step we look at the four neighbours of
/// the current tip; each candidate neighbour gets a weight that depends on
/// how many of *its* other neighbours are already in R:
///
/// | other R neighbours | weight | meaning                                |
/// |-------------------:|-------:|----------------------------------------|
/// | 0                  | 16     | exploring fresh ground                 |
/// | 1                  |  4     | grazing an existing R cell             |
/// | 2                  |  1     | wedging into an inlet                  |
/// | 3                  |  0     | filling a deep pocket (rejected)       |
///
/// Adds that would disconnect the complement (create a hole in the outside
/// region) are also rejected. A constant `stop` option (weight 2) is always
/// in the lottery — when filling is the only legal move, the walk usually
/// stops here and restarts from another random boundary R cell. Loop exits
/// when the target size has been reached **and** R touches all four grid
/// borders.
pub struct WalkBuilder {
    width: usize,
    height: usize,
    inside: Vec<bool>,
    target: usize,
    tip: Option<(usize, usize)>,
    rng: Rng,
    stuck: usize,
}

impl View for WalkBuilder {
    type V = WalkView;

    closed spec fn view(&self) -> WalkView {
        WalkView {
            width: self.width as nat,
            height: self.height as nat,
            inside: self.inside@,
            target: self.target as nat,
            tip: self.tip,
            rng: self.rng.state(),
            stuck: self.stuck as nat,
        }
    }
}

impl WalkBuilder {
    /// A walk on a `width` x `height` grid seeded by `seed`: a random target
    /// size and a random start cell, which is the whole region and the tip.
    /// Stepping needs the grid's lottery weights to fit in 32 bits.
    pub fn new(width: usize, height: usize, seed: u64) -> (r: Self)
        requires
            width >= 2,
            height >= 2,
            width * height * 70 <= usize::MAX,
        ensures
            r@ == walk_start(width as nat, height as nat, seed),
            r@.stuck == 0,
            walk_settled_tip(r@),
            width * height * 16 <= u32::MAX ==> r@.ok(),
    {
        let mut rng = Rng::new(seed);
        let total = width * height;
        assert(total >= 4) by (nonlinear_arith)
            requires
                total == width * height,
                width >= 2,
                height >= 2,
        ;
        let target = pick_target_size(total, &mut rng);
        let start = rng.range(total);
        let mut inside = vec![false; total];
        proof {
            lemma_cell_coords(width as int, height as int, start as int);
        }
        let ghost before = inside@;
        inside.set(start, true);
        proof {
            assert(inside@ =~= Seq::new(total as nat, |i: int| i == start));
            lemma_single_count(inside@, start as int);
            assert(start == (start / width) * width + start % width);
        }
        WalkBuilder { width, height, inside, target, tip: Some((start % width, start / width)), rng, stuck: 0 }
    }

    pub fn width(&self) -> (r: usize)
        ensures
            r == self@.width,
    {
        self.width
    }

    pub fn height(&self) -> (r: usize)
        ensures
            r == self@.height,
    {
        self.height
    }

    pub fn inside(&self) -> (r: &[bool])
        ensures
            r@ == self@.inside,
    {
        self.inside.as_slice()
    }

    pub fn tip(&self) -> (r: Option<(usize, usize)>)
        ensures
            r == self@.tip,
    {
        self.tip
    }

    pub fn target(&self) -> (r: usize)
        ensures
            r == self@.target,
    {
        self.target
    }

    /// How many cells are inside.
    pub fn count(&self) -> (r: usize)
        ensures
            r == count_of(self@.inside, true),
    {
        count_inside(self.inside.as_slice())
    }

    /// Whether the region touches all four borders.
    pub fn all_borders_touched(&self) -> (r: bool)
        requires
            self@.ok(),
        ensures
            r == borders_spec(self@.width, self@.height, self@.inside),
    {
        borders_touched(self.width, self.height, self.inside.as_slice())
    }

    /// Whether the target size is reached and all four borders are touched.
    pub fn done(&self) -> (r: bool)
        requires
            self@.ok(),
        ensures
            r == self@.done(),
            r == (count_of(self@.inside, true) >= self@.target && touches_four_borders(
                self@.width,
                self@.height,
                self@.inside,
            )),
    {
        proof {
            reveal(borders_spec);
        }
        self.count() >= self.target && self.all_borders_touched()
    }

    /// The lottery row for a move from `tip` by (`dx`, `dy`). The region is
    /// probed with the candidate cell added and is left as it was.
    #[verifier::rlimit(60)]
    fn evaluate_direction(&mut self, tip: (usize, usize), label: &'static str, dx: i32, dy: i32) -> (r: LotteryRow)
        requires
            old(self)@.ok(),
            tip.0 < old(self)@.width,
            tip.1 < old(self)@.height,
            (dx == 0 && (dy == 1 || dy == -1)) || (dy == 0 && (dx == 1 || dx == -1)),
        ensures
            final(self)@ == old(self)@,
            r.label == label,
            r.weight == dir_row(old(self)@.width, old(self)@.height, old(self)@.inside, tip, dx as int, dy as int).0,
            r.note@ == dir_row(old(self)@.width, old(self)@.height, old(self)@.inside, tip, dx as int, dy as int).1,
            r.target == dir_row(old(self)@.width, old(self)@.height, old(self)@.inside, tip, dx as int, dy as int).2,
    {
        let w = self.width;
        let h = self.height;
        let ghost s = self.inside@;
        proof {
            reveal(dir_row);
        }
        if (dx < 0 && tip.0 == 0) || (dx > 0 && tip.0 + 1 >= w) || (dy < 0 && tip.1 == 0) || (dy > 0 && tip.1
            + 1 >= h) {
            return LotteryRow { label, weight: 0, note: String::from_str("off-grid"), target: None };
        }
        let nx: usize = if dx < 0 {
            tip.0 - 1
        } else if dx > 0 {
            tip.0 + 1
        } else {
            tip.0
        };
        let ny: usize = if dy < 0 {
            tip.1 - 1
        } else if dy > 0 {
            tip.1 + 1
        } else {
            tip.1
        };
        proof {
            lemma_row_major(w as int, h as int, nx as int, ny as int);
        }
        let idx = ny * w + nx;
        if self.inside[idx] {
            return LotteryRow { label, weight: 0, note: String::from_str("in R"), target: None };
        }
        let other = count_others(self.inside.as_slice(), w, h, nx, ny, tip);
        let (weight, kind): (u32, &'static str) = if other == 0 {
            (16, "fresh")
        } else if other == 1 {
            (4, "graze 1")
        } else if other == 2 {
            (1, "wedge 2")
        } else {
            (0, "pocket 3")
        };
        proof {
            assert(weight == kind_weight(other as nat));
            assert(kind@ == kind_note(other as nat));
        }
        if weight == 0 {
            return LotteryRow { label, weight: 0, note: String::from_str(kind), target: None };
        }
        self.inside.set(idx, true);
        let valid = is_valid_region(w, h, self.inside.as_slice());
        self.inside.set(idx, false);
        proof {
            assert(self.inside@ =~= s);
        }
        if !valid {
            let mut note = String::from_str(kind);
            note.append(", splits outside");
            return LotteryRow { label, weight: 0, note, target: None };
        }
        LotteryRow { label, weight, note: String::from_str(kind), target: Some((nx, ny)) }
    }

    /// The lottery rows from `tip`: stop, then east, west, south, north. The
    /// region is left as it was.
    fn compute_lottery(&mut self, tip: (usize, usize)) -> (rows: Vec<LotteryRow>)
        requires
            old(self)@.ok(),
            tip.0 < old(self)@.width,
            tip.1 < old(self)@.height,
        ensures
            final(self)@ == old(self)@,
            is_lottery(rows@, old(self)@.width, old(self)@.height, old(self)@.inside, tip),
    {
        let mut rows = vec![LotteryRow { label: "stop", weight: STOP_WEIGHT, note: String::from_str("-"), target: None }];
        let e = self.evaluate_direction(tip, "E", 1, 0);
        rows.push(e);
        let west = self.evaluate_direction(tip, "W", -1, 0);
        rows.push(west);
        let s = self.evaluate_direction(tip, "S", 0, 1);
        rows.push(s);
        let n = self.evaluate_direction(tip, "N", 0, -1);
        rows.push(n);
        proof {
            assert(rows@[1] == e);
            assert(rows@[2] == west);
            assert(rows@[3] == s);
            assert(rows@[4] == n);
        }
        rows
    }

    /// Draws from the lottery from `tip` and, when a move wins, adds its cell.
    fn try_weighted_step(&mut self, tip: (usize, usize)) -> (r: Option<(usize, usize)>)
        requires
            old(self)@.ok(),
            tip.0 < old(self)@.width,
            tip.1 < old(self)@.height,
        ensures
            r == walk_choice(old(self)@, tip),
            final(self)@ == (WalkView {
                inside: match r {
                    Some(n) => old(self)@.inside.update(n.1 * old(self)@.width + n.0, true),
                    None => old(self)@.inside,
                },
                rng: next_state(old(self)@.rng),
                ..old(self)@
            }),
    {
        let ghost v = self@;
        proof {
            reveal(walk_choice);
        }
        let rows = self.compute_lottery(tip);
        let mut ws: Vec<u32> = Vec::new();
        let mut k: usize = 0;
        while k < rows.len()
            invariant
                k <= rows@.len(),
                rows@.len() == 5,
                ws@.len() == k,
                forall|q: int| 0 <= q < k ==> ws@[q] == #[trigger] rows@[q].weight,
            decreases rows@.len() - k,
        {
            ws.push(rows[k].weight);
            k += 1;
        }
        proof {
            let lw = lottery_weights(v.width, v.height, v.inside, tip);
            assert(rows@[0int + 1].weight == lottery_dir_row(v.width, v.height, v.inside, tip, 0).0);
            assert(rows@[1int + 1].weight == lottery_dir_row(v.width, v.height, v.inside, tip, 1).0);
            assert(rows@[2int + 1].weight == lottery_dir_row(v.width, v.height, v.inside, tip, 2).0);
            assert(rows@[3int + 1].weight == lottery_dir_row(v.width, v.height, v.inside, tip, 3).0);
            assert(ws@ =~= lw);
            lemma_dir_row(v.width, v.height, v.inside, tip, 1, 0);
            lemma_dir_row(v.width, v.height, v.inside, tip, -1, 0);
            lemma_dir_row(v.width, v.height, v.inside, tip, 0, 1);
            lemma_dir_row(v.width, v.height, v.inside, tip, 0, -1);
            assert(v.width * v.height <= usize::MAX);
            reveal_with_fuel(weight_sum, 6);
            assert(weight_sum(ws@) == ws@[0] + ws@[1] + ws@[2] + ws@[3] + ws@[4]);
        }
        let total = total_weight(&ws);
        if total == 0 {
            return None;
        }
        let pick = self.rng.range(total as usize) as u32;
        let k = pick_weighted(&ws, pick);
        proof {
            let lt = lottery_targets(v.width, v.height, v.inside, tip);
            if k > 0 {
                assert(rows@[(k - 1) + 1].target == lottery_dir_row(v.width, v.height, v.inside, tip, k - 1).2);
            }
            assert(rows@[k as int].target == lt[k as int]);
        }
        match rows[k].target {
            Some(cell) => {
                proof {
                    let d = lottery_dir(k - 1);
                    lemma_dir_row(v.width, v.height, v.inside, tip, d.0, d.1);
                    assert(cell.0 < v.width && cell.1 < v.height);
                    lemma_row_major(v.width as int, v.height as int, cell.0 as int, cell.1 as int);
                }
                self.inside.set(cell.1 * self.width + cell.0, true);
                Some(cell)
            },
            None => None,
        }
    }

    /// Picks a random inside cell that still has an outside neighbour, weighted
    /// by the square of its number of outside neighbours; none if there is no
    /// such cell (and then the generator is not drawn from).
    fn pick_boundary_r_cell(&mut self) -> (r: Option<(usize, usize)>)
        requires
            old(self)@.ok(),
        ensures
            r == boundary_pick(old(self)@).0,
            final(self)@ == (WalkView { rng: boundary_pick(old(self)@).1, ..old(self)@ }),
    {
        let ghost v = self@;
        proof {
            reveal(boundary_pick);
        }
        let w = self.width;
        let h = self.height;
        let n = self.inside.len();
        let mut weighted: Vec<(u32, (usize, usize))> = Vec::new();
        let mut i: usize = 0;
        while i < n
            invariant
                i <= n,
                n == w * h,
                w >= 2,
                h >= 2,
                v.width == w,
                v.height == h,
                v.inside == self.inside@,
                self.inside@.len() == n,
                weighted@ == boundary_cells(w as nat, h as nat, self.inside@, i as int),
            decreases n - i,
        {
            if self.inside[i] {
                proof {
                    lemma_cell_coords(w as int, h as int, i as int);
                }
                let x = i % w;
                let y = i / w;
                let oc = count_outside(self.inside.as_slice(), w, h, x, y);
                if oc > 0 {
                    let oc32: u32 = oc as u32;
                    assert(oc32 * oc32 <= 16) by (nonlinear_arith)
                        requires
                            oc32 <= 4,
                    ;
                    weighted.push((oc32 * oc32, (x, y)));
                }
            }
            i += 1;
        }
        if weighted.len() == 0 {
            return None;
        }
        proof {
            lemma_boundary_cells(w as nat, h as nat, self.inside@, n as int);
        }
        let mut ws: Vec<u32> = Vec::new();
        let mut k: usize = 0;
        while k < weighted.len()
            invariant
                k <= weighted@.len(),
                ws@ == boundary_weights(weighted@.subrange(0, k as int)),
            decreases weighted@.len() - k,
        {
            ws.push(weighted[k].0);
            proof {
                assert(boundary_weights(weighted@.subrange(0, k + 1)) =~= boundary_weights(weighted@.subrange(0, k as int)).push(weighted@[k as int].0));
            }
            k += 1;
        }
        proof {
            assert(weighted@.subrange(0, weighted@.len() as int) =~= weighted@);
            lemma_weight_sum_bound(ws@, 16);
            lemma_weight_sum_nonneg(ws@.drop_first());
            assert(ws@.len() <= n);
            assert(16 * ws@.len() <= 16 * n);
        }
        let total = total_weight(&ws);
        let pick = self.rng.range(total as usize) as u32;
        let k = pick_weighted(&ws, pick);
        Some(weighted[k].1)
    }

    /// Performs one step. Returns false when there's no more progress to make
    /// (either `done()`, R is the whole grid, or we've restarted too often
    /// without successfully extending).
    pub fn step(&mut self) -> (r: bool)
        requires
            old(self)@.ok(),
        ensures
            final(self)@.ok(),
            final(self)@.width == old(self)@.width,
            final(self)@.height == old(self)@.height,
            final(self)@.target == old(self)@.target,
            final(self)@ == walk_step(old(self)@).0,
            r == walk_step(old(self)@).1,
            forall|j: int| 0 <= j < old(self)@.inside.len() && #[trigger] old(self)@.inside[j] ==> final(self)@.inside[j],
            one_cell_step(old(self)@, final(self)@),
    {
        let ghost v = self@;
        proof {
            lemma_step_ok(v);
            lemma_one_cell_step(v);
        }
        if self.done() {
            proof {
                lemma_step_halts(v);
            }
            return false;
        }
        if self.count() >= self.width * self.height {
            proof {
                lemma_step_halts(v);
            }
            return false;
        }
        let tip = match self.tip {
            Some(t) => t,
            None => {
                let picked = self.pick_boundary_r_cell();
                proof {
                    lemma_step_restart(v);
                    lemma_boundary_pick(v);
                }
                match picked {
                    Some(c) => {
                        self.tip = Some(c);
                        return true;
                    },
                    None => {
                        return false;
                    },
                }
            },
        };
        let choice = self.try_weighted_step(tip);
        proof {
            lemma_step_draw(v, tip);
        }
        match choice {
            Some(next) => {
                proof {
                    lemma_walk_choice(v, tip);
                }
                self.tip = Some(next);
                self.stuck = 0;
                true
            },
            None => {
                if self.stuck < usize::MAX {
                    self.stuck += 1;
                }
                if self.stuck > self.width * self.height {
                    return false;
                }
                let ghost v1 = self@;
                self.tip = self.pick_boundary_r_cell();
                proof {
                    lemma_boundary_pick(v1);
                }
                true
            },
        }
    }

    /// Returns the lottery rows the next call to [`WalkBuilder::step`] would
    /// sample from. The state is unchanged. Returns `None` if there is no
    /// current tip (the next step will pick a fresh tip first).
    pub fn next_lottery(&mut self) -> (r: Option<Vec<LotteryRow>>)
        requires
            old(self)@.ok(),
        ensures
            final(self)@ == old(self)@,
            match r {
                None => old(self)@.tip is None,
                Some(rows) => old(self)@.tip is Some && is_lottery(rows@, old(self)@.width, old(self)@.height, old(self)@.inside, old(self)@.tip.unwrap()),
            },
    {
        let tip = match self.tip {
            Some(t) => t,
            None => return None,
        };
        Some(self.compute_lottery(tip))
    }

    /// The region, taken out of the generator.
    pub fn into_inside(self) -> (r: Vec<bool>)
        ensures
            r@ == self@.inside,
    {
        self.inside
    }
}

/// How many neighbours of cell (`x`, `y`) are outside.
fn count_outside(inside: &[bool], w: usize, h: usize, x: usize, y: usize) -> (r: usize)
    requires
        x < w,
        y < h,
        inside@.len() == w * h,
    ensures
        r == outside_count(neighbor_list(x, y, w, h), w as int, inside@),
        r <= 4,
{
    let n = inside.len();
    proof {
        lemma_neighbor_list(x, y, w, h);
    }
    let nb = neighbors(x, y, w, h);
    let mut out: usize = 0;
    let mut k: usize = 0;
    while k < nb.len()
        invariant
            k <= nb@.len(),
            nb@ == neighbor_list(x, y, w, h),
            nb@.len() <= 4,
            n == inside@.len(),
            n == w * h,
            out == outside_count(nb@.subrange(0, k as int), w as int, inside@),
            out <= k,
            forall|q: int| 0 <= q < nb@.len() ==> {
                let c = #[trigger] nb@[q];
                c.0 < w && c.1 < h
            },
        decreases nb@.len() - k,
    {
        let (ax, ay) = nb[k];
        proof {
            assert(nb@.subrange(0, k + 1).drop_last() =~= nb@.subrange(0, k as int));
            let c = nb@[k as int];
            assert(c.0 < w && c.1 < h);
            lemma_row_major(w as int, h as int, ax as int, ay as int);
        }
        if !inside[ay * w + ax] {
            out += 1;
        }
        k += 1;
    }
    proof {
        assert(nb@.subrange(0, nb@.len() as int) =~= nb@);
    }
    out
}

/// The outside count of a list is at most its length.
proof fn lemma_outside_count_le(nb: Seq<(usize, usize)>, w: int, inside: Seq<bool>)
    ensures
        outside_count(nb, w, inside) <= nb.len(),
    decreases nb.len(),
{
    if nb.len() > 0 {
        lemma_outside_count_le(nb.drop_last(), w, inside);
    }
}

/// The restart candidates among the first `n` cells are at most `n` inside
/// cells of the grid, each weighted between 1 and 16.
proof fn lemma_boundary_cells(w: nat, h: nat, inside: Seq<bool>, n: int)
    requires
        w > 0,
        h > 0,
        w * h <= usize::MAX,
        0 <= n <= w * h,
        inside.len() == w * h,
    ensures
        boundary_cells(w, h, inside, n).len() <= n,
        forall|k: int|
            0 <= k < boundary_cells(w, h, inside, n).len() ==> {
                let e = #[trigger] boundary_cells(w, h, inside, n)[k];
                &&& 1 <= e.0 <= 16
                &&& e.1.0 < w
                &&& e.1.1 < h
                &&& inside[e.1.1 * w + e.1.0]
            },
    decreases n,
{
    if n > 0 {
        lemma_boundary_cells(w, h, inside, n - 1);
        let prev = boundary_cells(w, h, inside, n - 1);
        let i = n - 1;
        lemma_cell_coords(w as int, h as int, i);
        assert(w <= w * h && h <= w * h) by (nonlinear_arith)
            requires
                w > 0,
                h > 0,
        ;
        let x = i % (w as int);
        let y = i / (w as int);
        let nb = neighbor_list(x as usize, y as usize, w as usize, h as usize);
        lemma_neighbor_list(x as usize, y as usize, w as usize, h as usize);
        lemma_outside_count_le(nb, w as int, inside);
        let oc = outside_count(nb, w as int, inside);
        if inside[i] && oc > 0 {
            assert(oc * oc <= 16) by (nonlinear_arith)
                requires
                    oc <= 4,
            ;
            assert(1 <= oc * oc) by (nonlinear_arith)
                requires
                    oc >= 1,
            ;
            let e = ((oc * oc) as u32, (x as usize, y as usize));
            let bl = boundary_cells(w, h, inside, n);
            assert(bl == prev.push(e));
            assert(inside[e.1.1 * w + e.1.0]);
            assert forall|k: int| 0 <= k < bl.len() implies {
                let e2 = #[trigger] bl[k];
                &&& 1 <= e2.0 <= 16
                &&& e2.1.0 < w
                &&& e2.1.1 < h
                &&& inside[e2.1.1 * w + e2.1.0]
            } by {
                if k < prev.len() {
                    assert(bl[k] == prev[k]);
                }
            }
        }
    }
}

/// Weights of at most `b` each total at most `b` times their number.
proof fn lemma_weight_sum_bound(ws: Seq<u32>, b: int)
    requires
        forall|k: int| 0 <= k < ws.len() ==> ws[k] <= b,
    ensures
        weight_sum(ws) <= b * ws.len(),
    decreases ws.len(),
{
    if ws.len() > 0 {
        lemma_weight_sum_bound(ws.drop_first(), b);
        assert(ws[0] <= b);
        assert(b * ws.drop_first().len() + b == b * ws.len()) by (nonlinear_arith)
            requires
                ws.drop_first().len() + 1 == ws.len(),
        ;
    }
}

/// A restart picks an inside cell of the grid.
proof fn lemma_boundary_pick(v: WalkView)
    requires
        v.width >= 2,
        v.height >= 2,
        v.width * v.height <= usize::MAX,
        v.inside.len() == v.width * v.height,
    ensures
        match boundary_pick(v).0 {
            Some(c) => c.0 < v.width && c.1 < v.height && v.inside[c.1 * v.width + c.0],
            None => boundary_pick(v).1 == v.rng,
        },
{
    reveal(boundary_pick);
    let bl = boundary_cells(v.width, v.height, v.inside, (v.width * v.height) as int);
    lemma_boundary_cells(v.width, v.height, v.inside, (v.width * v.height) as int);
    if bl.len() > 0 {
        let ws = boundary_weights(bl);
        assert(ws[0] >= 1);
        lemma_weight_sum_nonneg(ws.drop_first());
        lemma_select_bound(ws, (next_draw(v.rng) as int) % weight_sum(ws));
        let k = select(ws, (next_draw(v.rng) as int) % weight_sum(ws));
        assert(0 <= k < bl.len());
    }
}

/// The entry a draw lands on lies in the list, for a draw below the total.
proof fn lemma_select_bound(ws: Seq<u32>, pick: int)
    requires
        0 <= pick < weight_sum(ws),
    ensures
        0 <= select(ws, pick) < ws.len(),
    decreases ws.len(),
{
    if ws.len() > 0 && pick >= ws[0] {
        lemma_select_bound(ws.drop_first(), pick - ws[0]);
    }
}

/// The walk from `v` goes on for the first `k` steps and halts at the next one.
pub open spec fn walk_halts_at(v: WalkView, k: nat) -> bool {
    &&& forall|j: nat| j < k ==> #[trigger] walk_step(walk_from(v, j)).1
    &&& !walk_step(walk_from(v, k)).1
}

/// Grows a region on a `w` x `h` grid with a walk seeded from `rng`: the walk
/// is stepped until it halts, and its region is returned.
pub fn run(w: usize, h: usize, rng: &mut Rng) -> (r: Vec<bool>)
    requires
        w >= 2,
        h >= 2,
        w * h * 70 <= usize::MAX,
        w * h * 16 <= u32::MAX,
    ensures
        final(rng).state() == next_state(old(rng).state()),
        exists|k: nat|
            walk_halts_at(walk_start(w as nat, h as nat, next_draw(old(rng).state())), k) && r@
                == walk_step(walk_from(walk_start(w as nat, h as nat, next_draw(old(rng).state())), k)).0.inside,
        r@.len() == w * h,
        count_of(r@, true) == 1 || region_valid_spec(w as nat, h as nat, r@),
{
    let seed = rng.next_u64();
    let mut b = WalkBuilder::new(w, h, seed);
    let ghost start = b@;
    let ghost mut k: nat = 0;
    proof {
        assert(walk_from(start, 0) == start);
    }
    loop
        invariant_except_break
            b@ == walk_from(start, k),
            b@.stuck <= w * h,
        invariant
            b@.ok(),
            b@.width == w,
            b@.height == h,
            forall|j: nat| j < k ==> #[trigger] walk_step(walk_from(start, j)).1,
        ensures
            b@.ok(),
            b@.width == w,
            b@.height == h,
            b@ == walk_step(walk_from(start, k)).0,
            walk_halts_at(start, k),
        decreases w * h - count_of(b@.inside, true), w * h + 1 - b@.stuck, if b@.tip is None {
            1int
        } else {
            0int
        },
    {
        let ghost before = b@;
        let more = b.step();
        if !more {
            break;
        }
        proof {
            lemma_walk_progress(before);
            assert(walk_from(start, k + 1) == walk_step(walk_from(start, k)).0);
            assert forall|j: nat| j < k + 1 implies #[trigger] walk_step(walk_from(start, j)).1 by {
            }
            k = k + 1;
        }
    }
    b.into_inside()
}

/// A step that goes on adds a cell, or adds to the stuck count without
/// passing the grid size, or gives a tip to a walk without one.
proof fn lemma_walk_progress(v: WalkView)
    requires
        v.ok(),
        v.stuck <= v.width * v.height,
        walk_step(v).1,
    ensures
        ({
            let v2 = walk_step(v).0;
            let c = count_of(v.inside, true);
            let c2 = count_of(v2.inside, true);
            &&& v2.stuck <= v.width * v.height
            &&& c2 <= v.width * v.height
            &&& (c2 > c || (c2 == c && v2.stuck > v.stuck) || (c2 == c && v2.stuck == v.stuck && v.tip is None
                && v2.tip is Some))
        }),
{
    let total = v.width * v.height;
    lemma_step_ok(v);
    lemma_count_bound(walk_step(v).0.inside, true);
    if v.done() || count_of(v.inside, true) >= total {
        lemma_step_halts(v);
    } else {
        match v.tip {
            None => {
                lemma_step_restart(v);
            },
            Some(t) => {
                lemma_step_draw(v, t);
                match walk_choice(v, t) {
                    Some(n) => {
                        lemma_walk_choice(v, t);
                        lemma_row_major(v.width as int, v.height as int, n.0 as int, n.1 as int);
                        lemma_count_update(v.inside, n.1 * v.width + n.0, true, true);
                    },
                    None => {
                        assert(total * 16 <= u32::MAX);
                    },
                }
            },
        }
    }
}

/// A step keeps the state of a walk generator valid and never removes a cell.
proof fn lemma_step_ok(v: WalkView)
    requires
        v.ok(),
    ensures
        walk_step(v).0.ok(),
        walk_step(v).0.width == v.width,
        walk_step(v).0.height == v.height,
        walk_step(v).0.target == v.target,
        forall|j: int| 0 <= j < v.inside.len() && #[trigger] v.inside[j] ==> walk_step(v).0.inside[j],
{
    let total = v.width * v.height;
    if v.done() || count_of(v.inside, true) >= total {
        lemma_step_halts(v);
    } else {
        match v.tip {
            None => {
                lemma_step_restart(v);
                lemma_boundary_pick(v);
                match boundary_pick(v).0 {
                    Some(c) => lemma_ok_retip(v, Some(c), boundary_pick(v).1, v.stuck),
                    None => {},
                }
            },
            Some(t) => {
                lemma_step_draw(v, t);
                match walk_choice(v, t) {
                    Some(n) => {
                        lemma_walk_choice(v, t);
                        lemma_ok_add(v, n, next_state(v.rng));
                        let s2 = v.inside.update(n.1 * v.width + n.0, true);
                        lemma_row_major(v.width as int, v.height as int, n.0 as int, n.1 as int);
                        assert forall|j: int| 0 <= j < v.inside.len() && #[trigger] v.inside[j] implies s2[j] by {
                        }
                    },
                    None => {
                        let stuck: nat = if v.stuck < usize::MAX {
                            v.stuck + 1
                        } else {
                            v.stuck
                        };
                        let v1 = WalkView { rng: next_state(v.rng), stuck: stuck, ..v };
                        lemma_ok_retip(v, v.tip, next_state(v.rng), stuck);
                        lemma_boundary_pick(v1);
                        lemma_ok_retip(v1, boundary_pick(v1).0, boundary_pick(v1).1, stuck);
                    },
                }
            },
        }
    }
}

/// Moving the tip to an inside cell keeps a state valid, whatever the
/// generator state and stuck count.
proof fn lemma_ok_retip(v: WalkView, tip: Option<(usize, usize)>, rng: u64, stuck: nat)
    requires
        v.ok(),
        stuck <= usize::MAX,
        match tip {
            Some(c) => c.0 < v.width && c.1 < v.height && v.inside[c.1 * v.width + c.0],
            None => true,
        },
    ensures
        (WalkView { tip: tip, rng: rng, stuck: stuck, ..v }).ok(),
{
}

/// Adding an outside cell that leaves a valid region, and making it the tip,
/// keeps a state valid.
proof fn lemma_ok_add(v: WalkView, n: (usize, usize), rng: u64)
    requires
        v.ok(),
        n.0 < v.width,
        n.1 < v.height,
        region_valid_spec(v.width, v.height, v.inside.update(n.1 * v.width + n.0, true)),
    ensures
        (WalkView { inside: v.inside.update(n.1 * v.width + n.0, true), tip: Some(n), rng: rng, stuck: 0, ..v }).ok(),
{
    lemma_row_major(v.width as int, v.height as int, n.0 as int, n.1 as int);
}

/// A step on a finished region, or a full one, changes nothing and halts.
proof fn lemma_step_halts(v: WalkView)
    requires
        v.done() || count_of(v.inside, true) >= v.width * v.height,
    ensures
        walk_step(v) == (v, false),
{
    reveal(walk_step);
}

/// A step without a tip restarts from a boundary cell.
proof fn lemma_step_restart(v: WalkView)
    requires
        !v.done(),
        count_of(v.inside, true) < v.width * v.height,
        v.tip is None,
    ensures
        walk_step(v) == (match boundary_pick(v).0 {
            Some(c) => (WalkView { tip: Some(c), rng: boundary_pick(v).1, ..v }, true),
            None => (v, false),
        }),
{
    reveal(walk_step);
}

/// A step from a tip draws from the lottery; a stop counts as being stuck and
/// restarts from a boundary cell, unless stuck too often.
proof fn lemma_step_draw(v: WalkView, t: (usize, usize))
    requires
        !v.done(),
        count_of(v.inside, true) < v.width * v.height,
        v.tip == Some(t),
    ensures
        walk_step(v) == (match walk_choice(v, t) {
            Some(n) => (
                WalkView {
                    inside: v.inside.update(n.1 * v.width + n.0, true),
                    tip: Some(n),
                    rng: next_state(v.rng),
                    stuck: 0,
                    ..v
                },
                true,
            ),
            None => {
                let stuck: nat = if v.stuck < usize::MAX {
                    v.stuck + 1
                } else {
                    v.stuck
                };
                let v1 = WalkView { rng: next_state(v.rng), stuck: stuck, ..v };
                if stuck > v.width * v.height {
                    (v1, false)
                } else {
                    (WalkView { tip: boundary_pick(v1).0, rng: boundary_pick(v1).1, ..v1 }, true)
                }
            },
        }),
{
    reveal(walk_step);
}

/// A row's weight is at most 16, and a row that adds a cell adds an outside
/// cell of the grid, has a positive weight and leaves a valid region.
proof fn lemma_dir_row(w: nat, h: nat, inside: Seq<bool>, tip: (usize, usize), dx: int, dy: int)
    requires
        w >= 1,
        h >= 1,
        w * h <= usize::MAX,
    ensures
        dir_row(w, h, inside, tip, dx, dy).0 <= 16,
        match dir_row(w, h, inside, tip, dx, dy).2 {
            Some(c) => {
                &&& c.0 < w
                &&& c.1 < h
                &&& !inside[c.1 * w + c.0]
                &&& dir_row(w, h, inside, tip, dx, dy).0 > 0
                &&& region_valid_spec(w, h, inside.update(c.1 * w + c.0, true))
                &&& c.0 == tip.0 + dx
                &&& c.1 == tip.1 + dy
            },
            None => dir_row(w, h, inside, tip, dx, dy).0 == 0,
        },
{
    reveal(dir_row);
    assert(w <= w * h && h <= w * h) by (nonlinear_arith)
        requires
            w >= 1,
            h >= 1,
    ;
}

/// A move that the lottery picks adds an outside cell of the grid and leaves a
/// valid region.
proof fn lemma_walk_choice(v: WalkView, tip: (usize, usize))
    requires
        v.width * v.height <= usize::MAX,
        v.width >= 1,
        v.height >= 1,
    ensures
        match walk_choice(v, tip) {
            Some(c) => {
                &&& c.0 < v.width
                &&& c.1 < v.height
                &&& !v.inside[c.1 * v.width + c.0]
                &&& region_valid_spec(v.width, v.height, v.inside.update(c.1 * v.width + c.0, true))
                &&& next_to(c, tip)
            },
            None => true,
        },
{
    reveal(walk_choice);
    let ws = lottery_weights(v.width, v.height, v.inside, tip);
    let k = select(ws, (next_draw(v.rng) as int) % weight_sum(ws));
    let lt = lottery_targets(v.width, v.height, v.inside, tip);
    assert(v.width <= v.width * v.height && v.height <= v.width * v.height) by (nonlinear_arith)
        requires
            v.width >= 1,
            v.height >= 1,
    ;
    reveal_with_fuel(weight_sum, 6);
    lemma_select_bound(ws, (next_draw(v.rng) as int) % weight_sum(ws));
    if 1 <= k <= 4 {
        let d = lottery_dir(k - 1);
        lemma_dir_row(v.width, v.height, v.inside, tip, d.0, d.1);
        assert(lt[k] == lottery_dir_row(v.width, v.height, v.inside, tip, k - 1).2);
    } else if k == 0 {
        assert(lt[k] is None);
    }
}

/// Cells `a` and `b` share a side.
pub open spec fn next_to(a: (usize, usize), b: (usize, usize)) -> bool {
    ||| a.1 == b.1 && (a.0 == b.0 + 1 || a.0 + 1 == b.0)
    ||| a.0 == b.0 && (a.1 == b.1 + 1 || a.1 + 1 == b.1)
}

/// A walk step leaves the region as it was, or adds one outside cell next to
/// the old tip (which becomes the new tip), keeping the region valid.
pub open spec fn one_cell_step(v: WalkView, v2: WalkView) -> bool {
    ||| v2.inside == v.inside
    ||| match (v.tip, v2.tip) {
        (Some(t), Some(c)) => {
            &&& next_to(c, t)
            &&& c.0 < v.width
            &&& c.1 < v.height
            &&& !v.inside[c.1 * v.width + c.0]
            &&& v2.inside == v.inside.update(c.1 * v.width + c.0, true)
            &&& region_valid_spec(v.width, v.height, v2.inside)
        },
        _ => false,
    }
}

/// Every walk step from a valid state adds at most one cell, next to the tip.
pub proof fn lemma_one_cell_step(v: WalkView)
    requires
        v.ok(),
    ensures
        one_cell_step(v, walk_step(v).0),
{
    let total = v.width * v.height;
    if v.done() || count_of(v.inside, true) >= total {
        lemma_step_halts(v);
    } else {
        match v.tip {
            None => {
                lemma_step_restart(v);
            },
            Some(t) => {
                lemma_step_draw(v, t);
                match walk_choice(v, t) {
                    Some(n) => {
                        lemma_walk_choice(v, t);
                    },
                    None => {},
                }
            },
        }
    }
}

/// The region touches the top row, the bottom row, the left column and the
/// right column of the grid.
pub open spec fn touches_four_borders(w: nat, h: nat, inside: Seq<bool>) -> bool {
    &&& exists|x: int| 0 <= x < w && #[trigger] inside[x]
    &&& exists|x: int| 0 <= x < w && #[trigger] inside[(h - 1) * w + x]
    &&& exists|y: int| 0 <= y < h && #[trigger] inside[y * w]
    &&& exists|y: int| 0 <= y < h && #[trigger] inside[y * w + w - 1]
}

/// A finished walk has reached its target size and touches all four
/// borders.
pub proof fn lemma_walk_done_means(v: WalkView)
    requires
        v.done(),
    ensures
        count_of(v.inside, true) >= v.target,
        touches_four_borders(v.width, v.height, v.inside),
{
    reveal(borders_spec);
}

/// Why a walk halts: it reached its target size and touches all four
/// borders, or it fills the grid, or a restart found no cell to go on from,
/// or it got stuck once for each cell of the grid.
pub proof fn lemma_walk_halts_why(v: WalkView)
    requires
        v.ok(),
        !walk_step(v).1,
    ensures
        (count_of(v.inside, true) >= v.target && touches_four_borders(v.width, v.height, v.inside)) || count_of(
            v.inside,
            true,
        ) >= v.width * v.height || v.tip is None || v.stuck >= v.width * v.height,
{
    let total = v.width * v.height;
    if v.done() {
        lemma_walk_done_means(v);
    } else if count_of(v.inside, true) >= total {
    } else {
        match v.tip {
            None => {
                lemma_step_restart(v);
            },
            Some(t) => {
                lemma_step_draw(v, t);
            },
        }
    }
}

/// A walk without a tip has nowhere to restart from: only a restart that
/// finds no boundary cell leaves the tip empty.
pub open spec fn walk_settled_tip(v: WalkView) -> bool {
    v.tip is None ==> boundary_pick(v).0 is None
}

/// What is left of a walk: one unit per step of stuck count still allowed,
/// and a full round of them, plus one, for each cell still outside.
pub open spec fn walk_budget(v: WalkView) -> int {
    let n = (v.width * v.height) as int;
    let c = count_of(v.inside, true) as int;
    (n - c) * (n + 1) + (n - v.stuck)
}

/// Whether a restart finds a boundary cell depends on the region alone.
proof fn lemma_pick_found(v1: WalkView, v2: WalkView)
    requires
        v1.width == v2.width,
        v1.height == v2.height,
        v1.inside == v2.inside,
    ensures
        (boundary_pick(v1).0 is None) == (boundary_pick(v2).0 is None),
{
    reveal(boundary_pick);
}

/// Stepping once and then `j` times is stepping `j + 1` times.
proof fn lemma_walk_from_shift(v: WalkView, j: nat)
    ensures
        walk_from(v, j + 1) == walk_from(walk_step(v).0, j),
    decreases j,
{
    if j > 0 {
        lemma_walk_from_shift(v, (j - 1) as nat);
        assert(walk_from(v, j + 1) == walk_step(walk_from(v, j)).0);
    } else {
        assert(walk_from(v, 0) == v);
        assert(walk_from(v, 1) == walk_step(walk_from(v, 0)).0);
    }
}

/// A step that goes on from a state whose tip is settled starts from a tip,
/// and leaves the tip settled.
proof fn lemma_settled_step(v: WalkView)
    requires
        v.ok(),
        walk_settled_tip(v),
        walk_step(v).1,
    ensures
        v.tip is Some,
        walk_settled_tip(walk_step(v).0),
{
    let total = v.width * v.height;
    if v.done() || count_of(v.inside, true) >= total {
        lemma_step_halts(v);
    } else {
        match v.tip {
            None => {
                lemma_step_restart(v);
            },
            Some(t) => {
                lemma_step_draw(v, t);
                match walk_choice(v, t) {
                    Some(n) => {},
                    None => {
                        let stuck: nat = if v.stuck < usize::MAX {
                            v.stuck + 1
                        } else {
                            v.stuck
                        };
                        let v1 = WalkView { rng: next_state(v.rng), stuck: stuck, ..v };
                        lemma_pick_found(v1, walk_step(v).0);
                    },
                }
            },
        }
    }
}

/// A step that goes on uses up at least one unit of the budget.
proof fn lemma_budget_drops(v: WalkView)
    requires
        v.ok(),
        v.stuck <= v.width * v.height,
        walk_settled_tip(v),
        walk_step(v).1,
    ensures
        0 <= walk_budget(walk_step(v).0) < walk_budget(v),
        walk_step(v).0.ok(),
        walk_step(v).0.stuck <= v.width * v.height,
        walk_step(v).0.width == v.width,
        walk_step(v).0.height == v.height,
        walk_settled_tip(walk_step(v).0),
{
    lemma_step_ok(v);
    lemma_walk_progress(v);
    lemma_settled_step(v);
    let v2 = walk_step(v).0;
    let n = (v.width * v.height) as int;
    let c = count_of(v.inside, true) as int;
    let c2 = count_of(v2.inside, true) as int;
    lemma_count_bound(v.inside, true);
    assert(0 <= (n - c2) * (n + 1)) by (nonlinear_arith)
        requires
            c2 <= n,
            n >= 0,
    ;
    if c2 > c {
        assert((n - c2) * (n + 1) <= (n - c) * (n + 1) - (n + 1)) by (nonlinear_arith)
            requires
                c2 >= c + 1,
                n >= 0,
        ;
    }
}

/// A walk halts: from a valid state whose stuck count is at most the grid
/// size and whose tip is settled (as in every state that a new generator
/// reaches), the steps that go on are at most its budget, which is below
/// N * (N + 1) for N cells.
pub proof fn lemma_walk_halts_within(v: WalkView)
    requires
        v.ok(),
        v.stuck <= v.width * v.height,
        walk_settled_tip(v),
    ensures
        exists|k: nat| k <= walk_budget(v) && #[trigger] walk_halts_at(v, k),
        walk_budget(v) < (v.width * v.height) * (v.width * v.height + 1),
    decreases walk_budget(v),
{
    let n = (v.width * v.height) as int;
    let c = count_of(v.inside, true) as int;
    lemma_count_bound(v.inside, true);
    if count_of(v.inside, true) != 1 {
        reveal(region_valid_spec);
    }
    assert((n - c) * (n + 1) <= (n - 1) * (n + 1)) by (nonlinear_arith)
        requires
            1 <= c,
            n >= 0,
    ;
    assert((n - 1) * (n + 1) + n < n * (n + 1)) by (nonlinear_arith);
    assert(0 <= (n - c) * (n + 1)) by (nonlinear_arith)
        requires
            c <= n,
            n >= 0,
    ;
    if !walk_step(v).1 {
        assert(walk_from(v, 0) == v);
        assert(walk_halts_at(v, 0));
    } else {
        let v2 = walk_step(v).0;
        lemma_budget_drops(v);
        lemma_walk_halts_within(v2);
        let k2 = choose|k: nat| k <= walk_budget(v2) && #[trigger] walk_halts_at(v2, k);
        assert forall|j: nat| j < k2 + 1 implies #[trigger] walk_step(walk_from(v, j)).1 by {
            if j == 0 {
                assert(walk_from(v, 0) == v);
            } else {
                lemma_walk_from_shift(v, (j - 1) as nat);
                assert(walk_step(walk_from(v2, (j - 1) as nat)).1);
            }
        }
        lemma_walk_from_shift(v, k2);
        assert(walk_halts_at(v, k2 + 1));
    }
}

/// How many neighbours of cell (`nx`, `ny`) other than `tip` are inside.
fn count_others(inside: &[bool], w: usize, h: usize, nx: usize, ny: usize, tip: (usize, usize)) -> (r: usize)
    requires
        nx < w,
        ny < h,
        inside@.len() == w * h,
    ensures
        r == others_inside(neighbor_list(nx, ny, w, h), w as int, inside@, tip),
{
    let n = inside.len();
    proof {
        lemma_neighbor_list(nx, ny, w, h);
    }
    let nb = neighbors(nx, ny, w, h);
    let mut other: usize = 0;
    let mut k: usize = 0;
    while k < nb.len()
        invariant
            k <= nb@.len(),
            nb@ == neighbor_list(nx, ny, w, h),
            nb@.len() <= 4,
            n == inside@.len(),
            n == w * h,
            other == others_inside(nb@.subrange(0, k as int), w as int, inside@, tip),
            other <= k,
            forall|q: int| 0 <= q < nb@.len() ==> {
                let c = #[trigger] nb@[q];
                c.0 < w && c.1 < h
            },
        decreases nb@.len() - k,
    {
        let (ax, ay) = nb[k];
        proof {
            assert(nb@.subrange(0, k + 1).drop_last() =~= nb@.subrange(0, k as int));
            let c = nb@[k as int];
            assert(c.0 < w && c.1 < h);
            lemma_row_major(w as int, h as int, ax as int, ay as int);
        }
        if !(ax == tip.0 && ay == tip.1) && inside[ay * w + ax] {
            other += 1;
        }
        k += 1;
    }
    proof {
        assert(nb@.subrange(0, nb@.len() as int) =~= nb@);
    }
    other
}

/// A sequence that holds `true` at one position only counts it once.
proof fn lemma_single_count(s: Seq<bool>, k: int)
    requires
        0 <= k < s.len(),
        forall|i: int| 0 <= i < s.len() ==> (s[i] <==> i == k),
    ensures
        count_of(s, true) == 1,
    decreases s.len(),
{
    if s.len() - 1 == k {
        lemma_count_none_bool(s.drop_last());
    } else {
        lemma_single_count(s.drop_last(), k);
    }
}

proof fn lemma_count_none_bool(s: Seq<bool>)
    requires
        forall|i: int| 0 <= i < s.len() ==> !s[i],
    ensures
        count_of(s, true) == 0,
    decreases s.len(),
{
    if s.len() > 0 {
        lemma_count_none_bool(s.drop_last());
    }
}

} // verus!
