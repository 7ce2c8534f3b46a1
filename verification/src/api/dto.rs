//! The requests and responses of the service.

use vstd::prelude::*;
use crate::routing::quote::Quote;
use crate::utils::address::Address;

verus! {

/// The slippage of a request that names none: half a percent.
pub const DEFAULT_SLIPPAGE_BPS: u32 = 50;

/// A request for a quote.
#[derive(Debug)]
pub struct QuoteRequest {
    pub token_in: Address,
    pub token_out: Address,
    /// The input as a numeral.
    pub amount_in: String,
    /// The slippage in basis points.
    pub slippage_bps: u32,
    pub max_hops: Option<usize>,
    pub max_splits: Option<usize>,
}

/// The answer to a request for a quote.
#[derive(Debug)]
pub struct QuoteResponse {
    pub quote: Quote,
    /// The time of the answer in seconds.
    pub timestamp: u64,
    /// Whether the quote came from the cache of the service.
    pub cached: bool,
}

/// The answer to a health check.
#[derive(Debug)]
pub struct HealthResponse {
    pub status: String,
    pub version: String,
    pub chain_id: u64,
    pub graph_stats: GraphStatsDto,
}

/// The numbers of the pool graph in a health check.
#[derive(Clone, Copy, Debug)]
pub struct GraphStatsDto {
    pub token_count: usize,
    pub pool_count: usize,
    pub last_update: u64,
}

/// The answer to a request that failed.
#[derive(Debug)]
pub struct ErrorResponse {
    /// The canonical reason of the status code.
    pub error: String,
    pub message: String,
}

} // verus!
