//! A poset maintained incrementally from observed rows.
//!
//! Each row is a totally ordered list of keys (a sampled linear extension).
//! The library accumulates the implied draft edges, reduces them to a Hasse
//! diagram (transitive reduction), derives the pairs left incomparable, and
//! can emit one deterministic linear extension of the result, or the set of
//! keys blocked by a cycle.

pub mod graph;
pub mod poset;
pub mod topo;
pub mod laws;

pub use poset::Poset;
