//! Simulation of swaps through one pool.

pub mod swap;

pub use swap::{SwapResult, SwapSimulator};
