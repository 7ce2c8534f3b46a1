//! Keeping the pool graph in step with the chain.

pub mod pool_sync;

pub use pool_sync::{PoolSyncer, SyncConfig};
