//! The errors of the engine.

use vstd::prelude::*;
use crate::utils::address::{address_checksum, Address};
use crate::utils::text::text_concat;
use crate::utils::uint::{decimal_text, U256};

verus! {

/// Why a request could not be served.
#[derive(Debug)]
pub enum RouterError {
    /// No path joins the two tokens, or every candidate pays out dust.
    NoRouteFound { from: Address, to: Address },
    /// One pool cannot take the input; both amounts are decimal numerals.
    InsufficientLiquidity { required: String, available: String },
    /// The price impact, in millionths of a percent, is above the caller's
    /// threshold.
    PriceImpactTooHigh { impact: u64 },
    InvalidTokenAddress(String),
    InvalidAmount(String),
    PoolNotFound(String),
    SimulationError(String),
    RpcError(String),
    CacheError(String),
    ConfigError(String),
    InternalError(String),
}

/// A price impact in millionths of a percent as a percentage with six
/// decimals.
pub open spec fn impact_text(impact: u64) -> Seq<char> {
    decimal_text((impact / 1_000_000) as nat) + "."@ + padded_six((impact % 1_000_000) as nat)
}

/// The six decimal digits of a number below a million, zeros in front.
pub open spec fn padded_six(n: nat) -> Seq<char> {
    crate::utils::uint::digit_chars(n, 6)
}

/// The message of an error.
pub open spec fn error_text(e: RouterError) -> Seq<char> {
    match e {
        RouterError::NoRouteFound { from, to } => "No route found from "@ + address_checksum(from@)
            + " to "@ + address_checksum(to@),
        RouterError::InsufficientLiquidity { required, available } =>
            "Insufficient liquidity: required "@ + required@ + ", available "@ + available@,
        RouterError::PriceImpactTooHigh { impact } => "Price impact too high: "@ + impact_text(
            impact,
        ) + "%"@,
        RouterError::InvalidTokenAddress(m) => "Invalid token address: "@ + m@,
        RouterError::InvalidAmount(m) => "Invalid amount: "@ + m@,
        RouterError::PoolNotFound(m) => "Pool not found: "@ + m@,
        RouterError::SimulationError(m) => "Simulation failed: "@ + m@,
        RouterError::RpcError(m) => "RPC error: "@ + m@,
        RouterError::CacheError(m) => "Cache error: "@ + m@,
        RouterError::ConfigError(m) => "Configuration error: "@ + m@,
        RouterError::InternalError(m) => "Internal error: "@ + m@,
    }
}

fn prefixed(prefix: &str, detail: &str) -> (r: String)
    ensures
        r@ == prefix@ + detail@,
{
    text_concat(prefix.to_owned(), detail)
}

impl RouterError {
    /// The message of the error.
    pub fn message(&self) -> (r: String)
        ensures
            r@ == error_text(*self),
    {
        match self {
            RouterError::NoRouteFound { from, to } => {
                let start = prefixed("No route found from ", from.to_checksum_string().as_str());
                text_concat(text_concat(start, " to "), to.to_checksum_string().as_str())
            },
            RouterError::InsufficientLiquidity { required, available } => {
                let start = prefixed("Insufficient liquidity: required ", required.as_str());
                text_concat(text_concat(start, ", available "), available.as_str())
            },
            RouterError::PriceImpactTooHigh { impact } => {
                let whole = U256::from_u64(*impact / 1_000_000).to_decimal_string();
                let parts = U256::from_u64(*impact % 1_000_000).to_padded_string(6);
                let start = prefixed("Price impact too high: ", whole.as_str());
                text_concat(text_concat(text_concat(start, "."), parts.as_str()), "%")
            },
            RouterError::InvalidTokenAddress(m) => prefixed("Invalid token address: ", m.as_str()),
            RouterError::InvalidAmount(m) => prefixed("Invalid amount: ", m.as_str()),
            RouterError::PoolNotFound(m) => prefixed("Pool not found: ", m.as_str()),
            RouterError::SimulationError(m) => prefixed("Simulation failed: ", m.as_str()),
            RouterError::RpcError(m) => prefixed("RPC error: ", m.as_str()),
            RouterError::CacheError(m) => prefixed("Cache error: ", m.as_str()),
            RouterError::ConfigError(m) => prefixed("Configuration error: ", m.as_str()),
            RouterError::InternalError(m) => prefixed("Internal error: ", m.as_str()),
        }
    }

    /// Whether the error is `NoRouteFound` between `from` and `to`.
    pub open spec fn is_no_route(self, from: Address, to: Address) -> bool {
        self matches RouterError::NoRouteFound { from: f, to: t } && f == from && t == to
    }

    /// Whether the error is `InsufficientLiquidity` with the two numerals.
    pub open spec fn is_insufficient(self, required: Seq<char>, available: Seq<char>) -> bool {
        self matches RouterError::InsufficientLiquidity { required: r, available: a } && r@
            == required && a@ == available
    }

    /// Whether the error is `SimulationError` with the message `text`.
    pub open spec fn is_simulation(self, text: Seq<char>) -> bool {
        self matches RouterError::SimulationError(m) && m@ == text
    }

    /// Whether the error is `InternalError` with the message `text`.
    pub open spec fn is_internal(self, text: Seq<char>) -> bool {
        self matches RouterError::InternalError(m) && m@ == text
    }
}

} // verus!
