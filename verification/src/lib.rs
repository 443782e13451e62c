//! Slitherlink puzzles: the board model, a checker, a constraint propagator and
//! region-based puzzle generation, each with its contract proved by Verus.
use vstd::prelude::*;

pub mod cell;
pub mod check;
pub mod closing;
pub mod edge;
pub mod graph;
pub mod lines;
pub mod loop_topology;
pub mod propagate;
pub mod puzzle;
pub mod seeds;
pub mod solver_lines;
pub mod rng;
pub mod generate;
pub mod parse;

pub use cell::Cell;
pub use check::is_solved;
pub use generate::metropolis::{MetropolisBuilder, MetropolisProposal, ProposalAction};
pub use generate::walk::{LotteryRow, WalkBuilder};
pub use generate::{generate, generate_seeded, generate_with, Difficulty, RegionAlgo};
pub use parse::ParseError;
pub use edge::{EdgeId, EdgeState};
pub use lines::{Lines, PlayLines};
pub use loop_topology::{DsuTopology, LoopTopology};
pub use propagate::{auto_exclude, find_problems, propagate, propagate_easy, propagate_from, Problems};
pub use puzzle::Puzzle;
pub use solver_lines::SolverLines;

verus! {

} // verus!
