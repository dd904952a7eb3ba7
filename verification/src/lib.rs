//! A canonicalizing quadtree engine for a two-state cellular automaton on an
//! unbounded grid.
//!
//! The engine stores every distinct subtree exactly once in a node store
//! (hash-consing), keeps the aggregate population of every internal node, and
//! advances a universe one generation at a time by a recursive, memoized
//! subdivision of the grid into overlapping quadrants.

pub mod coords;
pub mod node;
pub mod model;
pub mod life;
pub mod store;
pub mod universe;
pub mod evolve;
pub mod laws;
