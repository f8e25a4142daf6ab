# rsolver

A verified library for grid-partition logic puzzles: the board is cut into
regions, and rules (areas, ring, brick, watchtower, compass, fence, rose
window, ...) constrain the cuts.  Every function of `src/` is written in
Verus and carries a contract proved by the verifier.

Layout of `src/`:

- `types.rs`, `dispatch.rs`: the puzzle model and the predicates that route a
  puzzle to a solving method.
- `edge_csp/`: the edge-variable solver.  `solver.rs` holds the edge store
  with its undo trail (snapshot and restore); `prop.rs`, `degree.rs`,
  `watch.rs`, `parity.rs`, `vparity.rs`, `palisade.rs`, `boxy.rs`, `areas.rs`
  and `components.rs` are the propagators; `parity_uf.rs` is a union-find
  with parity; `polyomino.rs` and `shape_laws.rs` normalise shapes and prove
  the laws of their canonical form.
- `rose/`: the rose-window solver: bit sets of cells and pre-drawn
  boundaries (`cells.rs`), candidate regions and their matching
  (`region_match.rs`), the exact-cover search that matches them to seeds
  (`cover.rs`), the reachability test on what a region leaves
  (`partition.rs`), region growth with swap repair (`growth.rs`) and pin
  placements (`pin.rs`).
- `pieces.rs`, `reach.rs`, `fence/`: polyomino enumeration, reachability and
  the fence rule.
- `clock.rs`: the only contact with the outside world, the wall clock used
  for search deadlines.

Tests live in `tests/`; they run the library on concrete boards.
