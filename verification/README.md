# slitherlink_core

A Slitherlink library whose logic is proved with Verus: the puzzle and edge
grids, the solution checker, the constraint propagator, the puzzle text format,
and the region-based puzzle generators.

Layout:

- `src/` — the verified library.
  - `cell.rs`, `edge.rs`, `puzzle.rs`: cells, edges, the puzzle and its
    renderings (plain, overlaid with a solution, storage form).
  - `lines.rs`, `solver_lines.rs`, `loop_topology.rs`, `graph.rs`: edge grids,
    the union-find over loop edges, and the graph facts behind "one loop".
  - `check.rs`: whether a grid of edges solves a puzzle.
  - `propagate.rs`: deduction rules, the propagator, the problem finder and the
    play-time auto-exclusion.
  - `seeds.rs`, `closing.rs`: why the seed patterns and the loop-closing rule
    rule out no solution.
  - `parse.rs`: reading the storage form back, with the round-trip law.
  - `rng.rs`: the seeded generator (splitmix64) and Fisher-Yates shuffle.
  - `generate/`: region validity (`common.rs`), the weighted walk
    (`walk.rs`), the Metropolis chain (`metropolis.rs`), and clue
    generation and stripping (`mod.rs`).
- `tests/` — tests run against the compiled library.
- `app/` — the command-line program and the browser bindings.
