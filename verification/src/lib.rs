//! HCSN: a causal hypergraph that grows by stochastic rewrite rules.
pub mod bitset;
pub mod random;
pub mod listops;
pub mod hypergraph;
pub mod laws;
pub mod rules;
pub mod engine;
pub mod observables;
pub mod interaction;
pub mod graph;
pub mod knots;
pub mod clusters;
pub mod radius;
pub mod shapes;
