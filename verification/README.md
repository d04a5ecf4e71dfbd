# hcsn_rust

A causal hypergraph that grows by stochastic rewrite rules, with the
structural logic verified by Verus.

## Layout

- `src/` — the verified library.
  - `hypergraph.rs`: vertices, hyperedges, causal futures and pasts as bit
    sets (kept transitively closed), and every operation on them.
  - `rules.rs`: edge creation and vertex fusion, the undo record, forced
    defects, nucleation, deferred causal bridges; `laws.rs`: what an undo
    restores, what a causal link guarantees, and the lemmas behind them.
  - `interaction.rs`: the incremental interaction graph among worldlines and
    its reference counts.
  - `graph.rs`, `clusters.rs`, `radius.rs`: traversals of the interaction
    graph and of vertex regions (distances, balls, clusters, distance sums).
  - `knots.rs`, `shapes.rs`, `observables.rs`: knot regions, hyperedge
    shapes and the integer observables.
  - `bitset.rs`, `random.rs`: the trusted interfaces to `fixedbitset` and
    `rand`.
- `tests/` — tests of the library on concrete graphs.
- `app/` — the simulation program around the library: the engine's
  floating-point physics, parameters, persistence and the command line.
