//! The graph of tokens and the pools that connect them.

pub mod edge;
pub mod index;
pub mod node;
pub mod pool_graph;
pub mod topology;

pub use edge::PoolEdge;
pub use node::TokenNode;
pub use pool_graph::{GraphStats, PoolGraph};
