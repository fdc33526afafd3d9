//! Hypergraphs as sparse linear operators over distributions of node sets,
//! with path traversal, cardinality statistics and a node/edge identity store.

pub mod basis;
pub mod weights;
pub mod graph;
pub mod negraph;
pub mod traversal;
pub mod cardinality;
