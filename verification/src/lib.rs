//! An in-memory graph container with weighted directed edges, index-based
//! node handles, traversal iterators, and a shortest-path query.
//!
//! By design the quantitative queries — the shortest-path search and a
//! route's total weight — fix the edge-weight type to unsigned 64-bit
//! integers, and the undirected connection takes a weight that is `Copy`:
//! the contracts then pin down arithmetic and comparisons exactly.

pub mod dijkstra;
pub mod laws;
pub mod path;
pub mod pool;
pub mod traverse;

pub use path::Path;
pub use path::PathIterator;

pub use pool::Graph;
pub use pool::Node;
pub use pool::NodeMut;
pub use pool::WeakNode;
pub use traverse::BreadthFirst;
pub use traverse::DepthFirst;
pub use traverse::Neighbors;
