//! A correlation-preserving, memoized sample-evaluation engine.
//!
//! Uncertain quantities are modelled as nodes of an acyclic expression graph.
//! Producing `count` samples of a graph's root must hand every occurrence of
//! the same underlying random source the same draw at the same sample index:
//! evaluating `x - x` yields exactly zero for every sample, never the
//! difference of two independent draws. The engine keeps a cache of drawn
//! sequences keyed by `(identity, count)` and replays the graph once per
//! sample index against those cached draws.

pub mod cache;
pub mod engine;
pub mod graph;
pub mod ident;
pub mod laws;
pub mod sampler;
