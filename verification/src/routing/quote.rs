//! Quotes: a split route with the figures a caller needs to submit it.

use vstd::prelude::*;
use crate::routing::route::{hops_text, SplitRoute};
use crate::utils::math::{apply_slippage, slippage_applied};
use crate::utils::uint::decimal_text;

verus! {

/// The gas price that quotes assume, in wei: 0.01 gwei.
pub const GAS_PRICE_WEI: u64 = 10_000_000;

/// The price of the native token that quotes assume, in dollars.
pub const NATIVE_PRICE_USD: u64 = 3_000;

/// The cost of one unit of gas in billionths of a dollar, at the assumed gas
/// price and native-token price: `10^7 wei * 3000 $ / 10^18 wei`, times 10^9.
pub const GAS_COST_NANO_USD: u64 = 30;

/// A quote for a swap.
#[derive(Debug)]
pub struct Quote {
    /// The input as a decimal numeral.
    pub amount_in: String,
    /// The estimated output as a decimal numeral.
    pub amount_out: String,
    /// The least output to accept, as a decimal numeral.
    pub amount_out_min: String,
    /// The price impact in millionths of a percent.
    pub price_impact: u64,
    pub gas_estimate: u64,
    /// The estimated cost of the gas in billionths of a dollar.
    pub gas_estimate_usd: u64,
    /// The tokens of the first route, joined by arrows.
    pub route_string: String,
    pub route: SplitRoute,
}

/// The cost of `gas` units of gas in billionths of a dollar, at most the
/// greatest `u64`.
pub open spec fn gas_cost(gas: u64) -> nat {
    if gas * GAS_COST_NANO_USD > u64::MAX {
        u64::MAX as nat
    } else {
        (gas * GAS_COST_NANO_USD) as nat
    }
}

/// Whether `quote` is the quote for `split` with a slippage of `slippage_bps`
/// basis points: it holds the split, its amounts as decimal numerals, the
/// least output after the slippage, its price impact and gas, the cost of the
/// gas, and the text of its first route.
pub open spec fn quote_figures(quote: Quote, split: SplitRoute, slippage_bps: u32) -> bool {
    &&& quote.route == split
    &&& quote.amount_in@ == decimal_text(split.total_amount_in@)
    &&& quote.amount_out@ == decimal_text(split.total_amount_out@)
    &&& quote.amount_out_min@ == decimal_text(
        slippage_applied(split.total_amount_out@, slippage_bps as nat),
    )
    &&& quote.price_impact == split.combined_price_impact
    &&& quote.gas_estimate == split.total_gas_estimate
    &&& quote.gas_estimate_usd == gas_cost(split.total_gas_estimate)
    &&& quote.route_string@ == if split.routes@.len() > 0 {
        hops_text(split.routes@[0].0.hops@)
    } else {
        Seq::empty()
    }
}

impl Quote {
    /// The quote for `route` with a slippage of `slippage_bps` basis points.
    ///
    /// The least output is the output less the slippage; the text of the route
    /// is that of the first route of the split, or empty for a split without
    /// routes.
    pub fn from_route(route: SplitRoute, slippage_bps: u32) -> (q: Quote)
        ensures
            quote_figures(q, route, slippage_bps),
            q.route == route,
            q.amount_in@ == decimal_text(route.total_amount_in@),
            q.amount_out@ == decimal_text(route.total_amount_out@),
            q.amount_out_min@ == decimal_text(
                slippage_applied(route.total_amount_out@, slippage_bps as nat),
            ),
            q.price_impact == route.combined_price_impact,
            q.gas_estimate == route.total_gas_estimate,
            q.gas_estimate_usd == gas_cost(route.total_gas_estimate),
            q.route_string@ == if route.routes@.len() > 0 {
                hops_text(route.routes@[0].0.hops@)
            } else {
                Seq::empty()
            },
    {
        let amount_out_min = apply_slippage(route.total_amount_out, slippage_bps);
        let route_string = if route.routes.len() > 0 {
            route.routes[0].0.route_string()
        } else {
            String::new()
        };
        let gas_estimate_usd: u64 = match route.total_gas_estimate.checked_mul(GAS_COST_NANO_USD) {
            Some(cost) => cost,
            None => u64::MAX,
        };
        Quote {
            amount_in: route.total_amount_in.to_decimal_string(),
            amount_out: route.total_amount_out.to_decimal_string(),
            amount_out_min: amount_out_min.to_decimal_string(),
            price_impact: route.combined_price_impact,
            gas_estimate: route.total_gas_estimate,
            gas_estimate_usd,
            route_string,
            route,
        }
    }
}

impl Clone for Quote {
    fn clone(&self) -> (q: Quote)
        ensures
            crate::cache::route_cache::same_quote(q, *self),
    {
        Quote {
            amount_in: self.amount_in.clone(),
            amount_out: self.amount_out.clone(),
            amount_out_min: self.amount_out_min.clone(),
            price_impact: self.price_impact,
            gas_estimate: self.gas_estimate,
            gas_estimate_usd: self.gas_estimate_usd,
            route_string: self.route_string.clone(),
            route: self.route.clone(),
        }
    }
}

} // verus!
