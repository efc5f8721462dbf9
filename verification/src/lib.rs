//! A longest-path engine over small weighted multigraphs: a store that reads
//! a textual edge list into a graph with dense vertex ids, a validator that
//! maps requested vertex sequences onto edge ids, an exhaustive backtracking
//! solver with a deterministic fan-out reduction, and a highlight adapter
//! that classifies vertices and edges for an external renderer.

mod bits;
pub mod fmt;
pub mod graph;
pub mod highlight;
pub mod laws;
pub mod solver;
pub mod store;
pub mod text;
pub mod validate;
