//! Verified building blocks from *The Art of Computer Programming*:
//! topological sorting (Algorithm T), Euclid's algorithm, MIX bytes and
//! Rothe's inversion diagrams.
//!
//! The topological sort is the heart of the crate. [`relation`] holds the
//! mathematics of a list of edges, [`order`] says what an ordering and a cycle
//! are and how they exclude each other, [`chain`] and [`graph`] are the table
//! of counts and successor chains, and [`toposort`] is the sort itself.

pub mod bars;
pub mod chain;
pub mod euclid;
pub mod graph;
pub mod mix;
pub mod order;
pub mod relation;
pub mod rothe;
pub mod toposort;
