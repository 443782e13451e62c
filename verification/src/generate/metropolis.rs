//! The Metropolis cell-toggle region generator.
use vstd::prelude::*;

use crate::generate::common::{
    border_reach_set, borders_spec, borders_touched, complement_connected_spec, count_inside,
    first_with, is_valid_region, lemma_cell_coords, lemma_count_set, lemma_count_split,
    lemma_first_with, neighbor_cells, on_border, pick_target_size, reach_set, region_connected,
    region_connected_spec, region_valid_spec, same_adj, target_high, target_low,
};
use crate::graph::{lemma_reach_closed, lemma_reach_refl, lemma_reach_step, lemma_reach_trans, reachable};
use crate::lines::{count_of, lemma_count_bound, lemma_count_update, lemma_row_major};
use crate::rng::{next_draw, next_state, shuffle_spec, Rng};

verus! {

/// One Metropolis proposal — what cell was picked, which way we tried to
/// toggle it, and whether the toggle was accepted.
#[derive(Debug)]
pub struct MetropolisProposal {
    pub cell: (usize, usize),
    pub action: ProposalAction,
    pub accepted: bool,
    pub note: String,
}

#[derive(Debug, Clone, Copy, PartialEq, Eq, Structural)]
pub enum ProposalAction {
    Add,
    Remove,
}

/// A proposal, with its note as characters.
#[verifier::ext_equal]
pub struct ProposalView {
    pub cell: (usize, usize),
    pub action: ProposalAction,
    pub accepted: bool,
    pub note: Seq<char>,
}

impl Clone for MetropolisProposal {
    fn clone(&self) -> (r: Self)
        ensures
            r@ == self@,
    {
        MetropolisProposal { cell: self.cell, action: self.action, accepted: self.accepted, note: self.note.clone() }
    }
}

impl View for MetropolisProposal {
    type V = ProposalView;

    open spec fn view(&self) -> ProposalView {
        ProposalView { cell: self.cell, action: self.action, accepted: self.accepted, note: self.note@ }
    }
}

/// What the Metropolis generator is: grid size, region, target size, generator
/// state, iteration count and limit, and the last proposal.
#[verifier::ext_equal]
pub struct MetroView {
    pub width: nat,
    pub height: nat,
    pub inside: Seq<bool>,
    pub target: nat,
    pub rng: u64,
    pub iteration: nat,
    pub max_iterations: nat,
    pub last: Option<ProposalView>,
}

/// The region is exactly two neighbouring cells.
pub open spec fn is_domino(w: nat, h: nat, inside: Seq<bool>) -> bool {
    exists|a: int, b: int|
        #[trigger] neighbor_cells(w, h, a, b) && forall|i: int| 0 <= i < inside.len() ==> (inside[i] <==> (i == a || i
            == b))
}

impl MetroView {
    /// The state every Metropolis generator is in: a grid of at least 2x2, a
    /// target size in its range, an iteration count within the limit of 100
    /// proposals per cell, and a region that is the starting pair of cells or
    /// valid.
    pub open spec fn ok(self) -> bool {
        let total = self.width * self.height;
        &&& self.width >= 2
        &&& self.height >= 2
        &&& total * 100 <= usize::MAX
        &&& self.inside.len() == total
        &&& target_low(total as int) <= self.target <= target_high(total as int)
        &&& self.max_iterations == total * 100
        &&& self.iteration <= self.max_iterations
        &&& is_domino(self.width, self.height, self.inside) || region_valid_spec(self.width, self.height, self.inside)
    }

    /// The target is reached and the region touches all four borders.
    pub open spec fn done(self) -> bool {
        count_of(self.inside, true) >= self.target && borders_spec(self.width, self.height, self.inside)
    }
}

/// Why toggling a cell to reach `flipped` was refused.
pub open spec fn refusal(w: nat, h: nat, flipped: Seq<bool>) -> Seq<char> {
    let new_count = count_of(flipped, true);
    if new_count < 2 {
        "size < 2"@
    } else if new_count == w * h {
        "size == grid"@
    } else if !region_connected_spec(w, h, flipped, true, new_count as int) {
        "R disconnected"@
    } else {
        "complement has hole"@
    }
}

/// One step of the chain: the next state, and whether to go on.
#[verifier::opaque]
pub open spec fn metro_step(v: MetroView) -> (MetroView, bool) {
    let total = v.width * v.height;
    if v.done() || v.iteration >= v.max_iterations {
        (v, false)
    } else {
        let i = (next_draw(v.rng) as int) % (total as int);
        let was_inside = v.inside[i];
        let flipped = v.inside.update(i, !was_inside);
        let valid = region_valid_spec(v.width, v.height, flipped);
        let proposal = ProposalView {
            cell: ((i % (v.width as int)) as usize, (i / (v.width as int)) as usize),
            action: if was_inside {
                ProposalAction::Remove
            } else {
                ProposalAction::Add
            },
            accepted: valid,
            note: if valid {
                "valid"@
            } else {
                refusal(v.width, v.height, flipped)
            },
        };
        (
            MetroView {
                inside: if valid {
                    flipped
                } else {
                    v.inside
                },
                rng: next_state(v.rng),
                iteration: v.iteration + 1,
                last: Some(proposal),
                ..v
            },
            true,
        )
    }
}

/// The state after `k` steps from `v`.
pub open spec fn metro_from(v: MetroView, k: nat) -> MetroView
    decreases k,
{
    if k == 0 {
        v
    } else {
        metro_step(metro_from(v, (k - 1) as nat)).0
    }
}

/// The chain from `v` goes on for the first `k` steps and halts at the next one.
pub open spec fn metro_halts_at(v: MetroView, k: nat) -> bool {
    &&& forall|j: nat| j < k ==> #[trigger] metro_step(metro_from(v, j)).1
    &&& !metro_step(metro_from(v, k)).1
}

/// A step that halts changes nothing; one that goes on takes one iteration.
proof fn lemma_metro_step_count(v: MetroView)
    ensures
        !metro_step(v).1 ==> metro_step(v).0 == v,
        metro_step(v).1 ==> metro_step(v).0.iteration == v.iteration + 1,
{
    reveal(metro_step);
}

/// A proposal that was accepted and added a cell.
pub open spec fn is_accepted_add(last: Option<ProposalView>) -> bool {
    match last {
        Some(p) => p.accepted && p.action == ProposalAction::Add,
        None => false,
    }
}

/// How a proposal that is passed over counts: a refused one as
/// `(1, 0)`, an accepted one as `(0, 1)`.
pub open spec fn skip_kind(last: Option<ProposalView>) -> (nat, nat) {
    match last {
        Some(p) => if p.accepted {
            (0, 1)
        } else {
            (1, 0)
        },
        None => (0, 0),
    }
}

/// The refused and the accepted proposals among the first `k` steps from `v`.
pub open spec fn skipped(v: MetroView, k: nat) -> (nat, nat)
    decreases k,
{
    if k == 0 {
        (0, 0)
    } else {
        let s = skipped(v, (k - 1) as nat);
        let d = skip_kind(metro_from(v, k).last);
        (s.0 + d.0, s.1 + d.1)
    }
}

/// The directions in the order they are tried before shuffling.
pub open spec fn start_dirs() -> Seq<(i32, i32)> {
    seq![(1i32, 0i32), (-1i32, 0i32), (0i32, 1i32), (0i32, -1i32)]
}

/// The first direction of `dirs` that leads from (`x`, `y`) to a cell of the
/// grid, and that cell.
pub open spec fn first_in_grid(dirs: Seq<(i32, i32)>, x: int, y: int, w: int, h: int) -> Option<(usize, usize)>
    decreases dirs.len(),
{
    if dirs.len() == 0 {
        None
    } else {
        let nx = x + dirs[0].0;
        let ny = y + dirs[0].1;
        if nx >= 0 && ny >= 0 && nx < w && ny < h {
            Some((nx as usize, ny as usize))
        } else {
            first_in_grid(dirs.drop_first(), x, y, w, h)
        }
    }
}

/// The state a Metropolis generator starts in for a `w` x `h` grid and `seed`:
/// a random target size, a random start cell and its first neighbour in a
/// shuffled order of directions.
pub open spec fn metro_start(w: nat, h: nat, seed: u64) -> MetroView {
    let total = w * h;
    let lo = target_low(total as int);
    let hi = target_high(total as int);
    let target = lo + (next_draw(seed) as int) % (hi - lo + 1);
    let s1 = next_state(seed);
    let start = (next_draw(s1) as int) % (total as int);
    let x0 = start % (w as int);
    let y0 = start / (w as int);
    let sh = shuffle_spec(start_dirs(), 4, next_state(s1));
    let nb = first_in_grid(sh.0, x0, y0, w as int, h as int);
    let inside0 = Seq::new(total, |i: int| i == y0 * w + x0);
    MetroView {
        width: w,
        height: h,
        inside: match nb {
            Some(c) => inside0.update(c.1 * w + c.0, true),
            None => inside0,
        },
        target: target as nat,
        rng: sh.1,
        iteration: 0,
        max_iterations: total * 100,
        last: None,
    }
}

/// Pure Metropolis-style region generator: each step picks a uniformly random
/// cell, proposes to toggle its inside/outside state, and accepts iff the
/// resulting region is still valid (≥2 cells, ≤ w·h-1, R connected, complement
/// hole-free).
///
/// No size bias — the chain hovers near 50 % of the grid by symmetry, which
/// lines up with the walk-based generator's target band. `done()` uses the
/// same condition as the walk (target met AND all four borders touched), so
/// final states between the two generators can be compared.
pub struct MetropolisBuilder {
    width: usize,
    height: usize,
    inside: Vec<bool>,
    target: usize,
    rng: Rng,
    iteration: usize,
    max_iterations: usize,
    last_proposal: Option<MetropolisProposal>,
}

impl View for MetropolisBuilder {
    type V = MetroView;

    closed spec fn view(&self) -> MetroView {
        MetroView {
            width: self.width as nat,
            height: self.height as nat,
            inside: self.inside@,
            target: self.target as nat,
            rng: self.rng.state(),
            iteration: self.iteration as nat,
            max_iterations: self.max_iterations as nat,
            last: match self.last_proposal {
                Some(p) => Some(p@),
                None => None,
            },
        }
    }
}

impl MetropolisBuilder {
    /// A chain on a `width` x `height` grid seeded by `seed`: a random target
    /// size, and a region of a random cell and its first neighbour in a
    /// shuffled order of directions.
    pub fn new(width: usize, height: usize, seed: u64) -> (r: Self)
        requires
            width >= 2,
            height >= 2,
            width * height * 100 <= usize::MAX,
        ensures
            r@ == metro_start(width as nat, height as nat, seed),
            r@.ok(),
    {
        let mut rng = Rng::new(seed);
        let total = width * height;
        assert(total >= 4) by (nonlinear_arith)
            requires
                total == width * height,
                width >= 2,
                height >= 2,
        ;
        let target = pick_target_size(total, &mut rng);
        let start = rng.range(total);
        proof {
            lemma_cell_coords(width as int, height as int, start as int);
        }
        let x0 = start % width;
        let y0 = start / width;
        let mut dirs: Vec<(i32, i32)> = vec![(1i32, 0i32), (-1, 0), (0, 1), (0, -1)];
        proof {
            assert(dirs@ =~= start_dirs());
        }
        rng.shuffle(&mut dirs);
        let ghost shuffled = dirs@;
        proof {
            lemma_shuffled_dirs(shuffled);
        }
        let neighbour = first_neighbour(&dirs, x0, y0, width, height);
        proof {
            let pe = choose|p: int| 0 <= p < shuffled.len() && shuffled[p] == (1i32, 0i32);
            let pw = choose|p: int| 0 <= p < shuffled.len() && shuffled[p] == (-1i32, 0i32);
            if x0 + 1 < width {
                assert(stays(shuffled[pe], x0 as int, y0 as int, width as int, height as int));
            } else {
                assert(stays(shuffled[pw], x0 as int, y0 as int, width as int, height as int));
            }
            lemma_first_in_grid(shuffled, x0 as int, y0 as int, width as int, height as int);
        }
        let (nx, ny) = match neighbour {
            Some(c) => c,
            None => {
                proof {
                    assert(false);
                }
                (x0, y0)
            },
        };
        proof {
            lemma_row_major(width as int, height as int, x0 as int, y0 as int);
            lemma_row_major(width as int, height as int, nx as int, ny as int);
        }
        let mut inside = vec![false; total];
        inside.set(y0 * width + x0, true);
        inside.set(ny * width + nx, true);
        proof {
            lemma_domino(width as nat, height as nat, inside@, x0 as int, y0 as int, nx as int, ny as int);
        }
        let max_iterations = total * 100;
        MetropolisBuilder { width, height, inside, target, rng, iteration: 0, max_iterations, last_proposal: None }
    }

    pub fn width(&self) -> (r: usize)
        ensures
            r == self@.width,
    {
        self.width
    }

    pub fn height(&self) -> (r: usize)
        ensures
            r == self@.height,
    {
        self.height
    }

    pub fn inside(&self) -> (r: &[bool])
        ensures
            r@ == self@.inside,
    {
        self.inside.as_slice()
    }

    pub fn target(&self) -> (r: usize)
        ensures
            r == self@.target,
    {
        self.target
    }

    /// How many cells are inside.
    pub fn count(&self) -> (r: usize)
        ensures
            r == count_of(self@.inside, true),
    {
        count_inside(self.inside.as_slice())
    }

    pub fn iteration(&self) -> (r: usize)
        ensures
            r == self@.iteration,
    {
        self.iteration
    }

    pub fn max_iterations(&self) -> (r: usize)
        ensures
            r == self@.max_iterations,
    {
        self.max_iterations
    }

    /// The last proposal, if any step has been taken.
    pub fn last_proposal(&self) -> (r: Option<&MetropolisProposal>)
        ensures
            match r {
                Some(p) => self@.last == Some(p@),
                None => self@.last is None,
            },
    {
        match &self.last_proposal {
            Some(p) => Some(p),
            None => None,
        }
    }

    /// Whether the region touches all four borders.
    pub fn all_borders_touched(&self) -> (r: bool)
        requires
            self@.ok(),
        ensures
            r == borders_spec(self@.width, self@.height, self@.inside),
    {
        borders_touched(self.width, self.height, self.inside.as_slice())
    }

    /// Whether the target size is reached and all four borders are touched.
    pub fn done(&self) -> (r: bool)
        requires
            self@.ok(),
        ensures
            r == self@.done(),
    {
        self.count() >= self.target && self.all_borders_touched()
    }

    /// Proposes to toggle a random cell and keeps the toggle iff the region
    /// stays valid, recording the proposal. Returns false, changing nothing,
    /// once done or out of iterations.
    pub fn step(&mut self) -> (r: bool)
        requires
            old(self)@.ok(),
        ensures
            final(self)@.ok(),
            final(self)@.width == old(self)@.width,
            final(self)@.height == old(self)@.height,
            final(self)@.max_iterations == old(self)@.max_iterations,
            final(self)@ == metro_step(old(self)@).0,
            r == metro_step(old(self)@).1,
            region_valid_spec(final(self)@.width, final(self)@.height, final(self)@.inside),
            r ==> match final(self)@.last {
                Some(p) => (p.accepted ==> region_valid_spec(final(self)@.width, final(self)@.height, final(self)@.inside))
                    && (!p.accepted ==> final(self)@.inside == old(self)@.inside),
                None => false,
            },
    {
        let ghost v = self@;
        proof {
            reveal(metro_step);
            lemma_metro_valid(v);
        }
        if self.done() {
            return false;
        }
        if self.iteration >= self.max_iterations {
            return false;
        }
        let total = self.width * self.height;
        proof {
            assert(total >= 4) by (nonlinear_arith)
                requires
                    total == self.width * self.height,
                    self.width >= 2,
                    self.height >= 2,
            ;
        }
        let i = self.rng.range(total);
        proof {
            lemma_cell_coords(self.width as int, self.height as int, i as int);
        }
        let x = i % self.width;
        let y = i / self.width;
        let was_inside = self.inside[i];
        let action = if was_inside {
            ProposalAction::Remove
        } else {
            ProposalAction::Add
        };
        self.inside.set(i, !was_inside);
        let ghost flipped = self.inside@;
        let (accepted, note) = if is_valid_region(self.width, self.height, self.inside.as_slice()) {
            (true, String::from_str("valid"))
        } else {
            self.inside.set(i, was_inside);
            proof {
                assert(self.inside@ =~= v.inside);
            }
            let count = self.count();
            proof {
                lemma_count_update(v.inside, i as int, !was_inside, true);
                lemma_count_bound(flipped, true);
            }
            let new_count = if was_inside {
                count - 1
            } else {
                count + 1
            };
            let reason: &'static str = if new_count < 2 {
                "size < 2"
            } else if new_count == total {
                "size == grid"
            } else if !region_connected(self.width, self.height, probe_toggled(&self.inside, i).as_slice(), true, new_count) {
                "R disconnected"
            } else {
                "complement has hole"
            };
            (false, String::from_str(reason))
        };
        self.last_proposal = Some(MetropolisProposal { cell: (x, y), action, accepted, note });
        self.iteration += 1;
        proof {
            lemma_metro_valid(self@);
        }
        true
    }

    /// Steps until a proposal adds a cell or the chain halts. Returns how
    /// many refused and how many accepted (removing) proposals were passed
    /// over, and whether the chain halted.
    pub fn advance_to_next_add(&mut self) -> (r: (usize, usize, bool))
        requires
            old(self)@.ok(),
        ensures
            final(self)@.ok(),
            final(self)@.width == old(self)@.width,
            final(self)@.height == old(self)@.height,
            final(self)@.max_iterations == old(self)@.max_iterations,
            exists|k: nat|
                {
                    &&& forall|j: nat| j < k ==> #[trigger] metro_step(metro_from(old(self)@, j)).1
                    &&& forall|j: nat| 0 < j < k ==> !is_accepted_add(#[trigger] metro_from(old(self)@, j).last)
                    &&& final(self)@ == metro_from(old(self)@, k)
                    &&& if r.2 {
                        &&& !metro_step(metro_from(old(self)@, k)).1
                        &&& k > 0 ==> !is_accepted_add(metro_from(old(self)@, k).last)
                        &&& (r.0 as nat, r.1 as nat) == skipped(old(self)@, k)
                    } else {
                        &&& k > 0
                        &&& is_accepted_add(metro_from(old(self)@, k).last)
                        &&& (r.0 as nat, r.1 as nat) == skipped(old(self)@, (k - 1) as nat)
                    }
                },
    {
        let ghost start = self@;
        let ghost mut k: nat = 0;
        let mut rejects: usize = 0;
        let mut removes: usize = 0;
        let mut halted = false;
        proof {
            assert(metro_from(start, 0) == start);
        }
        loop
            invariant_except_break
                self@ == metro_from(start, k),
                (rejects as nat, removes as nat) == skipped(start, k),
                !halted,
                forall|j: nat| 0 < j <= k ==> !is_accepted_add(#[trigger] metro_from(start, j).last),
            invariant
                self@.ok(),
                self@.width == start.width,
                self@.height == start.height,
                self@.max_iterations == start.max_iterations,
                self@.iteration == start.iteration + k,
                rejects + removes <= k,
                forall|j: nat| j < k ==> #[trigger] metro_step(metro_from(start, j)).1,
            ensures
                self@.ok(),
                self@.width == start.width,
                self@.height == start.height,
                self@.max_iterations == start.max_iterations,
                forall|j: nat| j < k ==> #[trigger] metro_step(metro_from(start, j)).1,
                forall|j: nat| 0 < j < k ==> !is_accepted_add(#[trigger] metro_from(start, j).last),
                self@ == metro_from(start, k),
                halted ==> k > 0 ==> !is_accepted_add(metro_from(start, k).last),
                halted ==> !metro_step(metro_from(start, k)).1 && (rejects as nat, removes as nat) == skipped(
                    start,
                    k,
                ),
                !halted ==> k > 0 && is_accepted_add(metro_from(start, k).last) && (rejects as nat, removes as nat)
                    == skipped(start, (k - 1) as nat),
            decreases self@.max_iterations - self@.iteration,
        {
            let ghost before = self@;
            let more = self.step();
            proof {
                lemma_metro_step_count(before);
            }
            if !more {
                halted = true;
                break;
            }
            proof {
                assert(metro_from(start, k + 1) == metro_step(metro_from(start, k)).0);
                assert forall|j: nat| j < k + 1 implies #[trigger] metro_step(metro_from(start, j)).1 by {}
            }
            let p = self.last_proposal().unwrap();
            if p.accepted && p.action == ProposalAction::Add {
                proof {
                    k = k + 1;
                }
                break;
            }
            if p.accepted {
                removes = removes + 1;
            } else {
                rejects = rejects + 1;
            }
            proof {
                k = k + 1;
                assert forall|j: nat| 0 < j <= k implies !is_accepted_add(#[trigger] metro_from(start, j).last) by {}
            }
        }
        (rejects, removes, halted)
    }

    /// The region, taken out of the generator.
    pub fn into_inside(self) -> (r: Vec<bool>)
        ensures
            r@ == self@.inside,
    {
        self.inside
    }
}

/// `d` is a step to a neighbouring cell.
pub open spec fn is_step(d: (i32, i32)) -> bool {
    d == (1i32, 0i32) || d == (-1i32, 0i32) || d == (0i32, 1i32) || d == (0i32, -1i32)
}

/// A shuffle of the four directions holds only steps, east and west among them.
proof fn lemma_shuffled_dirs(s: Seq<(i32, i32)>)
    requires
        s.len() == 4,
        s.to_multiset() == start_dirs().to_multiset(),
    ensures
        forall|q: int| 0 <= q < s.len() ==> #[trigger] is_step(s[q]),
        s.contains((1i32, 0i32)),
        s.contains((-1i32, 0i32)),
{
    let d = start_dirs();
    assert forall|q: int| 0 <= q < s.len() implies #[trigger] is_step(s[q]) by {
        vstd::seq_lib::to_multiset_contains(s, s[q]);
        vstd::seq_lib::to_multiset_contains(d, s[q]);
        let p = choose|p: int| 0 <= p < d.len() && d[p] == s[q];
    }
    vstd::seq_lib::to_multiset_contains(s, (1i32, 0i32));
    vstd::seq_lib::to_multiset_contains(d, (1i32, 0i32));
    assert(d[0] == (1i32, 0i32));
    vstd::seq_lib::to_multiset_contains(s, (-1i32, 0i32));
    vstd::seq_lib::to_multiset_contains(d, (-1i32, 0i32));
    assert(d[1] == (-1i32, 0i32));
}

/// The step `d` from (`x`, `y`) stays on a `w` x `h` grid.
pub open spec fn stays(d: (i32, i32), x: int, y: int, w: int, h: int) -> bool {
    x + d.0 >= 0 && y + d.1 >= 0 && x + d.0 < w && y + d.1 < h
}

/// When some step stays on the grid, the first that does leads to a
/// neighbouring cell.
proof fn lemma_first_in_grid(dirs: Seq<(i32, i32)>, x: int, y: int, w: int, h: int)
    requires
        0 <= x < w <= usize::MAX,
        0 <= y < h <= usize::MAX,
        forall|q: int| 0 <= q < dirs.len() ==> #[trigger] is_step(dirs[q]),
        exists|q: int| 0 <= q < dirs.len() && #[trigger] stays(dirs[q], x, y, w, h),
    ensures
        match first_in_grid(dirs, x, y, w, h) {
            Some(c) => {
                &&& c.0 < w
                &&& c.1 < h
                &&& (c.1 == y && (c.0 == x + 1 || c.0 == x - 1) || c.0 == x && (c.1 == y + 1 || c.1 == y - 1))
            },
            None => false,
        },
    decreases dirs.len(),
{
    assert(is_step(dirs[0]));
    if !stays(dirs[0], x, y, w, h) {
        let rest = dirs.drop_first();
        assert forall|q: int| 0 <= q < rest.len() implies #[trigger] is_step(rest[q]) by {
            assert(rest[q] == dirs[q + 1]);
            assert(is_step(dirs[q + 1]));
        }
        let q = choose|q: int| 0 <= q < dirs.len() && #[trigger] stays(dirs[q], x, y, w, h);
        assert(rest[q - 1] == dirs[q]);
        assert(stays(rest[q - 1], x, y, w, h));
        lemma_first_in_grid(rest, x, y, w, h);
    }
}

/// The cell that the first of `dirs` staying on the grid leads to from
/// (`x0`, `y0`).
fn first_neighbour(dirs: &Vec<(i32, i32)>, x0: usize, y0: usize, width: usize, height: usize) -> (r: Option<(usize, usize)>)
    requires
        x0 < width,
        y0 < height,
        forall|q: int| 0 <= q < dirs@.len() ==> #[trigger] is_step(dirs@[q]),
    ensures
        r == first_in_grid(dirs@, x0 as int, y0 as int, width as int, height as int),
{
    let ghost d = dirs@;
    let mut k: usize = 0;
    proof {
        assert(d.skip(0) =~= d);
    }
    while k < dirs.len()
        invariant
            k <= d.len(),
            dirs@ == d,
            x0 < width,
            y0 < height,
            forall|q: int| 0 <= q < d.len() ==> #[trigger] is_step(d[q]),
            first_in_grid(d, x0 as int, y0 as int, width as int, height as int) == first_in_grid(
                d.skip(k as int),
                x0 as int,
                y0 as int,
                width as int,
                height as int,
            ),
        decreases d.len() - k,
    {
        let (dx, dy) = dirs[k];
        proof {
            assert(d.skip(k as int).drop_first() =~= d.skip(k + 1));
            assert(d.skip(k as int)[0] == d[k as int]);
            assert(is_step(d[k as int]));
        }
        let nx_ok = if dx < 0 {
            x0 > 0
        } else if dx > 0 {
            x0 + 1 < width
        } else {
            true
        };
        let ny_ok = if dy < 0 {
            y0 > 0
        } else if dy > 0 {
            y0 + 1 < height
        } else {
            true
        };
        if nx_ok && ny_ok {
            let nx: usize = if dx < 0 {
                x0 - 1
            } else if dx > 0 {
                x0 + 1
            } else {
                x0
            };
            let ny: usize = if dy < 0 {
                y0 - 1
            } else if dy > 0 {
                y0 + 1
            } else {
                y0
            };
            return Some((nx, ny));
        }
        k += 1;
    }
    proof {
        assert(d.skip(k as int) =~= Seq::<(i32, i32)>::empty());
    }
    None
}

/// Two neighbouring cells make a domino.
proof fn lemma_domino(w: nat, h: nat, inside: Seq<bool>, x0: int, y0: int, nx: int, ny: int)
    requires
        0 <= x0 < w,
        0 <= y0 < h,
        0 <= nx < w,
        0 <= ny < h,
        ny == y0 && (nx == x0 + 1 || nx == x0 - 1) || nx == x0 && (ny == y0 + 1 || ny == y0 - 1),
        inside.len() == w * h,
        forall|i: int| 0 <= i < inside.len() ==> (inside[i] <==> (i == y0 * w + x0 || i == ny * w + nx)),
    ensures
        is_domino(w, h, inside),
{
    let a = y0 * w + x0;
    let b = ny * w + nx;
    lemma_row_major(w as int, h as int, x0, y0);
    lemma_row_major(w as int, h as int, nx, ny);
    vstd::arithmetic::div_mod::lemma_fundamental_div_mod_converse(a, w as int, y0, x0);
    vstd::arithmetic::div_mod::lemma_fundamental_div_mod_converse(b, w as int, ny, nx);
    assert(neighbor_cells(w, h, a, b));
}

/// Cell (`x`, `y`) of a `w` x `h` grid has index `y * w + x`, which gives
/// back its column and row.
proof fn lemma_cell_index(w: nat, h: nat, x: int, y: int)
    requires
        0 <= x < w,
        0 <= y < h,
    ensures
        0 <= y * w + x < w * h,
        (y * w + x) % (w as int) == x,
        (y * w + x) / (w as int) == y,
{
    lemma_row_major(w as int, h as int, x, y);
    vstd::arithmetic::div_mod::lemma_fundamental_div_mod_converse(y * w + x, w as int, y, x);
}

/// Along a run of outside cells of one row, each end reaches the other.
proof fn lemma_row_run(w: nat, h: nat, s: Seq<bool>, y: int, x0: int, x1: int)
    requires
        0 <= x0 <= x1 < w,
        0 <= y < h,
        forall|x: int| x0 <= x <= x1 ==> !#[trigger] s[y * w + x],
    ensures
        reachable(same_adj(w, h, s, false), y * w + x0, y * w + x1),
        reachable(same_adj(w, h, s, false), y * w + x1, y * w + x0),
    decreases x1 - x0,
{
    let adj = same_adj(w, h, s, false);
    if x0 == x1 {
        lemma_reach_refl(adj, y * w + x0);
    } else {
        lemma_row_run(w, h, s, y, x0 + 1, x1);
        lemma_cell_index(w, h, x0, y);
        lemma_cell_index(w, h, x0 + 1, y);
        assert(!s[y * w + x0]);
        assert(!s[y * w + (x0 + 1)]);
        assert(y * w + (x0 + 1) == y * w + x0 + 1);
        assert(adj(y * w + x0, y * w + x0 + 1));
        assert(adj(y * w + x0 + 1, y * w + x0));
        lemma_reach_refl(adj, y * w + x0);
        lemma_reach_step(adj, y * w + x0, y * w + x0, y * w + x0 + 1);
        lemma_reach_trans(adj, y * w + x0, y * w + x0 + 1, y * w + x1);
        lemma_reach_step(adj, y * w + x1, y * w + x0 + 1, y * w + x0);
    }
}

/// Every outside cell of a two-cell region reaches the border along its
/// row: the two cells cannot block both ways, as they are neighbours.
proof fn lemma_domino_outside(w: nat, h: nat, s: Seq<bool>, j: int)
    requires
        w >= 2,
        h >= 2,
        s.len() == w * h,
        is_domino(w, h, s),
        0 <= j < w * h,
        !s[j],
    ensures
        border_reach_set(w, h, s).contains(j),
{
    let adj = same_adj(w, h, s, false);
    let (a, b) = choose|a: int, b: int|
        #[trigger] neighbor_cells(w, h, a, b) && forall|i: int| 0 <= i < s.len() ==> (s[i] <==> (i == a || i == b));
    lemma_cell_coords(w as int, h as int, j);
    let x = j % (w as int);
    let y = j / (w as int);
    assert(j == y * w + x);
    if forall|t: int| 0 <= t < x ==> !#[trigger] s[y * w + t] {
        assert forall|t: int| 0 <= t <= x implies !#[trigger] s[y * w + t] by {
            if t == x {
                assert(y * w + t == j);
            }
        }
        lemma_row_run(w, h, s, y, 0, x);
        lemma_cell_index(w, h, 0, y);
        assert(on_border(w, h, y * w + 0));
        assert(!s[y * w + 0]);
        assert(reachable(adj, y * w + 0, j));
    } else {
        let t1 = choose|t: int| 0 <= t < x && #[trigger] s[y * w + t];
        assert forall|t: int| x <= t <= w - 1 implies !#[trigger] s[y * w + t] by {
            if t == x {
                assert(y * w + t == j);
            } else if s[y * w + t] {
                lemma_cell_index(w, h, t1, y);
                lemma_cell_index(w, h, t, y);
                let c1 = y * w + t1;
                let c2 = y * w + t;
                assert(c1 == a || c1 == b);
                assert(c2 == a || c2 == b);
                assert(c1 != c2);
                assert(neighbor_cells(w, h, a, b));
            }
        }
        let r = w - 1;
        lemma_row_run(w, h, s, y, x, r);
        lemma_cell_index(w, h, r, y);
        assert(on_border(w, h, y * w + r));
        assert(!s[y * w + r]);
        assert(reachable(adj, y * w + r, j));
    }
}

/// A region of two neighbouring cells on a grid of at least 2x2 is valid.
proof fn lemma_domino_valid(w: nat, h: nat, s: Seq<bool>)
    requires
        w >= 2,
        h >= 2,
        s.len() == w * h,
        is_domino(w, h, s),
    ensures
        region_valid_spec(w, h, s),
{
    reveal(region_valid_spec);
    let n = (w * h) as int;
    assert(n >= 4) by (nonlinear_arith)
        requires
            n == w * h,
            w >= 2,
            h >= 2,
    ;
    let (a, b) = choose|a: int, b: int|
        #[trigger] neighbor_cells(w, h, a, b) && forall|i: int| 0 <= i < s.len() ==> (s[i] <==> (i == a || i == b));
    assert(a != b);
    // two cells inside
    lemma_count_set(s, true);
    assert(Set::new(|k: int| 0 <= k < s.len() && s[k] == true) =~= set![a, b]);
    assert(count_of(s, true) == 2);
    // the inside is connected
    assert(s[a]);
    lemma_first_with(s, true, a);
    let f = first_with(s, true);
    let tadj = same_adj(w, h, s, true);
    assert(f == a || f == b);
    assert(tadj(a, b));
    assert(tadj(b, a));
    lemma_reach_refl(tadj, f);
    lemma_reach_step(tadj, f, f, if f == a {
        b
    } else {
        a
    });
    let keep = |z: int| z == a || z == b;
    assert forall|p: int, q: int| #[trigger] keep(p) && #[trigger] tadj(p, q) implies keep(q) by {}
    assert forall|j: int| #[trigger] reach_set(w, h, s, true, f).contains(j) implies j == a || j == b by {
        lemma_reach_closed(tadj, keep, f, j);
    }
    assert(reach_set(w, h, s, true, f) =~= set![a, b]);
    assert(region_connected_spec(w, h, s, true, 2));
    // the outside is connected to the border
    lemma_count_split(s);
    lemma_count_set(s, false);
    let outside = Set::new(|k: int| 0 <= k < s.len() && s[k] == false);
    let fadj = same_adj(w, h, s, false);
    assert forall|j: int| #[trigger] border_reach_set(w, h, s).contains(j) implies outside.contains(j) by {
        let bc = choose|bc: int|
            0 <= bc < w * h && on_border(w, h, bc) && !s[bc] && #[trigger] reachable(fadj, bc, j);
        let out = |z: int| 0 <= z < w * h && !s[z];
        assert forall|p: int, q: int| #[trigger] out(p) && #[trigger] fadj(p, q) implies out(q) by {}
        lemma_reach_closed(fadj, out, bc, j);
    }
    assert forall|j: int| outside.contains(j) implies #[trigger] border_reach_set(w, h, s).contains(j) by {
        lemma_domino_outside(w, h, s, j);
    }
    assert(border_reach_set(w, h, s) =~= outside);
    let c = if a != 0 && b != 0 {
        0int
    } else {
        n - 1
    };
    lemma_cell_coords(w as int, h as int, c);
    assert(c == 0 ==> c % (w as int) == 0);
    assert(c == n - 1 ==> c / (w as int) == h - 1) by {
        if c == n - 1 {
            lemma_cell_index(w, h, w - 1, h - 1);
            assert((h - 1) * w + (w - 1) == n - 1) by (nonlinear_arith)
                requires
                    n == w * h,
            ;
        }
    }
    assert(on_border(w, h, c));
    assert(!s[c]) by {
        if c == n - 1 {
            lemma_cell_coords(w as int, h as int, a);
            lemma_cell_coords(w as int, h as int, b);
            assert(0int % (w as int) == 0 && 0int / (w as int) == 0);
            let o = if a == 0 {
                b
            } else {
                a
            };
            assert(neighbor_cells(w, h, 0, o) || neighbor_cells(w, h, o, 0));
            let oy = o / (w as int);
            let ox = o % (w as int);
            assert(o == oy * w + ox);
            assert((oy == 0 && ox == 1) || (oy == 1 && ox == 0));
            if oy == 0 {
                assert(oy * w == 0) by (nonlinear_arith)
                    requires
                        oy == 0,
                ;
                assert(o == 1);
            } else {
                assert(oy * w == w) by (nonlinear_arith)
                    requires
                        oy == 1,
                ;
                assert(o == w);
            }
            assert(a <= w && b <= w);
            assert(n - 1 > w) by (nonlinear_arith)
                requires
                    n == w * h,
                    w >= 2,
                    h >= 2,
            ;
        }
    }
    assert(complement_connected_spec(w, h, s, n - 2));
}

/// Every state of a Metropolis generator has a valid region: the starting
/// pair of neighbouring cells is valid, and every accepted toggle keeps the
/// region valid.
pub proof fn lemma_metro_valid(v: MetroView)
    requires
        v.ok(),
    ensures
        region_valid_spec(v.width, v.height, v.inside),
{
    if is_domino(v.width, v.height, v.inside) {
        lemma_domino_valid(v.width, v.height, v.inside);
    }
}

/// `inside` with cell `i` toggled.
fn probe_toggled(inside: &Vec<bool>, i: usize) -> (r: Vec<bool>)
    requires
        i < inside@.len(),
    ensures
        r@ == inside@.update(i as int, !inside@[i as int]),
{
    let mut probe = inside.clone();
    proof {
        assert(probe@ =~= inside@);
    }
    let was = probe[i];
    probe.set(i, !was);
    probe
}

/// Grows a region on a `w` x `h` grid with a Metropolis chain seeded from
/// `rng`: the chain is stepped until it halts, and its region is returned.
pub fn run(w: usize, h: usize, rng: &mut Rng) -> (r: Vec<bool>)
    requires
        w >= 2,
        h >= 2,
        w * h * 100 <= usize::MAX,
    ensures
        final(rng).state() == next_state(old(rng).state()),
        exists|k: nat|
            metro_halts_at(metro_start(w as nat, h as nat, next_draw(old(rng).state())), k) && r@
                == metro_step(metro_from(metro_start(w as nat, h as nat, next_draw(old(rng).state())), k)).0.inside,
        r@.len() == w * h,
        region_valid_spec(w as nat, h as nat, r@),
{
    let seed = rng.next_u64();
    let mut b = MetropolisBuilder::new(w, h, seed);
    let ghost start = b@;
    let ghost mut k: nat = 0;
    proof {
        assert(metro_from(start, 0) == start);
    }
    loop
        invariant_except_break
            b@ == metro_from(start, k),
        invariant
            b@.ok(),
            b@.width == w,
            b@.height == h,
            b@.max_iterations == w * h * 100,
            forall|j: nat| j < k ==> #[trigger] metro_step(metro_from(start, j)).1,
        ensures
            b@.ok(),
            b@.width == w,
            b@.height == h,
            b@ == metro_step(metro_from(start, k)).0,
            metro_halts_at(start, k),
        decreases b@.max_iterations - b@.iteration,
    {
        let ghost before = b@;
        let more = b.step();
        if !more {
            break;
        }
        proof {
            reveal(metro_step);
            assert(metro_from(start, k + 1) == metro_step(metro_from(start, k)).0);
            assert forall|j: nat| j < k + 1 implies #[trigger] metro_step(metro_from(start, j)).1 by {
            }
            k = k + 1;
        }
    }
    proof {
        lemma_metro_valid(b@);
    }
    b.into_inside()
}

} // verus!
