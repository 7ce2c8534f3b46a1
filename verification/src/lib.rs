//! Swap routing engine for a concentrated-liquidity exchange.
//!
//! The crate prices single swap steps in Q64.96 fixed point, keeps a graph of
//! liquidity pools, searches it for single-hop and multi-hop routes, splits an
//! amount over several routes and caches the results. Every function states its
//! behaviour in a contract that Verus proves.

pub mod api;
pub mod cache;
pub mod config;
pub mod graph;
pub mod routing;
pub mod simulation;
pub mod sync;
pub mod utils;
