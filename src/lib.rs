//! A retained scene graph: an arena of nodes that form a forest, world-transform
//! propagation from parent to child, and the pre-order list of draw calls.
//!
//! The graph is generic over the vector type that holds a node's local
//! transform parameters and over the matrix type of its world transform; the
//! arithmetic on them is handed in by the caller as closures.

pub mod graph;
pub mod traversal;
pub mod update;
pub mod laws;
pub mod helicopter;
pub mod input;
