//! Routes: sequences of swaps, and splits of an amount over several routes.

use vstd::prelude::*;
use crate::graph::edge::PoolEdge;
use crate::utils::address::{address_text, Address};
use crate::utils::text::text_concat;
use crate::utils::uint::U256;

verus! {

/// One percent of price impact; impacts are integers on this scale.
pub const PRICE_IMPACT_SCALE: u64 = 1_000_000;

/// The greatest price impact, 100%.
pub const MAX_PRICE_IMPACT: u64 = 100_000_000;

/// One swap through one pool.
#[derive(Clone, Copy, Debug)]
pub struct RouteHop {
    pub pool: PoolEdge,
    pub token_in: Address,
    pub token_out: Address,
    pub amount_in: U256,
    pub amount_out: U256,
}

impl RouteHop {
    /// The swap of `amount_in` of `token_in` for `amount_out` of `token_out`
    /// through `pool`.
    pub fn new(
        pool: PoolEdge,
        token_in: Address,
        token_out: Address,
        amount_in: U256,
        amount_out: U256,
    ) -> (h: RouteHop)
        ensures
            h == (RouteHop { pool, token_in, token_out, amount_in, amount_out }),
    {
        RouteHop { pool, token_in, token_out, amount_in, amount_out }
    }
}

/// A route: swaps in a row, each paying into the next.
#[derive(Debug)]
pub struct Route {
    pub hops: Vec<RouteHop>,
    pub total_amount_in: U256,
    pub total_amount_out: U256,
    /// The price impact in millionths of a percent.
    pub price_impact: u64,
    pub gas_estimate: u64,
}

/// Whether each hop pays out the token that the next hop takes in.
pub open spec fn hops_chain(hops: Seq<RouteHop>) -> bool {
    forall|i: int| 0 <= i < hops.len() - 1 ==> hops[i].token_out == (#[trigger] hops[i + 1]).token_in
}

/// The tokens that a sequence of hops passes through, the first input token
/// first; empty for no hops.
pub open spec fn hop_tokens(hops: Seq<RouteHop>) -> Seq<Address> {
    if hops.len() == 0 {
        Seq::empty()
    } else {
        seq![hops[0].token_in] + Seq::new(hops.len(), |i: int| hops[i].token_out)
    }
}

/// The text of a sequence of hops: the texts of its tokens, joined by arrows.
pub open spec fn hops_text(hops: Seq<RouteHop>) -> Seq<char>
    decreases hops.len(),
{
    if hops.len() == 0 {
        Seq::empty()
    } else if hops.len() == 1 {
        address_text(hops[0].token_in@) + " → "@ + address_text(hops[0].token_out@)
    } else {
        hops_text(hops.drop_last()) + " → "@ + address_text(hops.last().token_out@)
    }
}

impl Route {
    /// A route with the given hops and totals.
    pub fn new(
        hops: Vec<RouteHop>,
        total_amount_in: U256,
        total_amount_out: U256,
        price_impact: u64,
        gas_estimate: u64,
    ) -> (r: Route)
        ensures
            r == (Route { hops, total_amount_in, total_amount_out, price_impact, gas_estimate }),
    {
        Route { hops, total_amount_in, total_amount_out, price_impact, gas_estimate }
    }

    /// The number of swaps in the route.
    pub fn hop_count(&self) -> (n: usize)
        ensures
            n == self.hops@.len(),
    {
        self.hops.len()
    }

    /// The tokens of the route as text, joined by arrows; empty for no hops.
    pub fn route_string(&self) -> (s: String)
        ensures
            s@ == hops_text(self.hops@),
    {
        if self.hops.len() == 0 {
            return String::new();
        }
        let mut text = self.hops[0].token_in.to_hex_string();
        let mut i: usize = 0;
        while i < self.hops.len()
            invariant
                0 <= i <= self.hops@.len(),
                self.hops@.len() > 0,
                i == 0 ==> text@ == address_text(self.hops@[0].token_in@),
                i > 0 ==> text@ == hops_text(self.hops@.take(i as int)),
            decreases self.hops@.len() - i,
        {
            let next = self.hops[i].token_out.to_hex_string();
            text = text_concat(text_concat(text, " → "), next.as_str());
            proof {
                let upto = self.hops@.take(i + 1);
                assert(upto.last() == self.hops@[i as int]);
                assert(upto.drop_last() =~= self.hops@.take(i as int));
                assert(upto[0] == self.hops@[0]);
            }
            i = i + 1;
        }
        proof {
            assert(self.hops@.take(i as int) =~= self.hops@);
        }
        text
    }
}

impl Clone for Route {
    fn clone(&self) -> (r: Route)
        ensures
            r.hops@ == self.hops@,
            r.total_amount_in == self.total_amount_in,
            r.total_amount_out == self.total_amount_out,
            r.price_impact == self.price_impact,
            r.gas_estimate == self.gas_estimate,
    {
        let mut hops: Vec<RouteHop> = Vec::new();
        let mut i: usize = 0;
        while i < self.hops.len()
            invariant
                i <= self.hops@.len(),
                hops@ == self.hops@.take(i as int),
            decreases self.hops@.len() - i,
        {
            hops.push(self.hops[i]);
            proof {
                assert(self.hops@.take(i + 1) =~= self.hops@.take(i as int).push(self.hops@[i as int]));
            }
            i = i + 1;
        }
        proof {
            assert(self.hops@.take(i as int) =~= self.hops@);
        }
        Route {
            hops,
            total_amount_in: self.total_amount_in,
            total_amount_out: self.total_amount_out,
            price_impact: self.price_impact,
            gas_estimate: self.gas_estimate,
        }
    }
}

/// Several routes for one swap, each with its share of the amount in percent.
#[derive(Debug)]
pub struct SplitRoute {
    pub routes: Vec<(Route, u8)>,
    pub total_amount_in: U256,
    pub total_amount_out: U256,
    /// The price impact of the whole, in millionths of a percent.
    pub combined_price_impact: u64,
    pub total_gas_estimate: u64,
}

/// The sum of the shares of a split.
pub open spec fn percent_sum(routes: Seq<(Route, u8)>) -> nat
    decreases routes.len(),
{
    if routes.len() == 0 {
        0
    } else {
        percent_sum(routes.drop_last()) + routes.last().1 as nat
    }
}

impl SplitRoute {
    /// A split with the given routes and totals.
    pub fn new(
        routes: Vec<(Route, u8)>,
        total_amount_in: U256,
        total_amount_out: U256,
        combined_price_impact: u64,
        total_gas_estimate: u64,
    ) -> (s: SplitRoute)
        ensures
            s == (SplitRoute {
                routes,
                total_amount_in,
                total_amount_out,
                combined_price_impact,
                total_gas_estimate,
            }),
    {
        SplitRoute {
            routes,
            total_amount_in,
            total_amount_out,
            combined_price_impact,
            total_gas_estimate,
        }
    }

    /// The split that sends the whole amount down one route.
    pub fn single(route: Route) -> (s: SplitRoute)
        ensures
            s.routes@ == seq![(route, 100u8)],
            percent_sum(s.routes@) == 100,
            s.total_amount_in == route.total_amount_in,
            s.total_amount_out == route.total_amount_out,
            s.combined_price_impact == route.price_impact,
            s.total_gas_estimate == route.gas_estimate,
    {
        let total_amount_in = route.total_amount_in;
        let total_amount_out = route.total_amount_out;
        let price_impact = route.price_impact;
        let gas_estimate = route.gas_estimate;
        let mut routes: Vec<(Route, u8)> = Vec::new();
        routes.push((route, 100u8));
        proof {
            assert(routes@ =~= seq![(route, 100u8)]);
            assert(routes@.drop_last() =~= Seq::<(Route, u8)>::empty());
            reveal_with_fuel(percent_sum, 2);
        }
        SplitRoute {
            routes,
            total_amount_in,
            total_amount_out,
            combined_price_impact: price_impact,
            total_gas_estimate: gas_estimate,
        }
    }

    /// The number of routes in the split.
    pub fn split_count(&self) -> (n: usize)
        ensures
            n == self.routes@.len(),
    {
        self.routes.len()
    }
}

impl Clone for SplitRoute {
    fn clone(&self) -> (s: SplitRoute)
        ensures
            s.routes@.len() == self.routes@.len(),
            forall|i: int|
                0 <= i < self.routes@.len() ==> (#[trigger] s.routes@[i]).0.hops@
                    == self.routes@[i].0.hops@ && s.routes@[i].0.total_amount_in
                    == self.routes@[i].0.total_amount_in && s.routes@[i].0.total_amount_out
                    == self.routes@[i].0.total_amount_out && s.routes@[i].0.price_impact
                    == self.routes@[i].0.price_impact && s.routes@[i].0.gas_estimate
                    == self.routes@[i].0.gas_estimate && s.routes@[i].1 == self.routes@[i].1,
            s.total_amount_in == self.total_amount_in,
            s.total_amount_out == self.total_amount_out,
            s.combined_price_impact == self.combined_price_impact,
            s.total_gas_estimate == self.total_gas_estimate,
    {
        let mut routes: Vec<(Route, u8)> = Vec::new();
        let mut i: usize = 0;
        while i < self.routes.len()
            invariant
                i <= self.routes@.len(),
                routes@.len() == i,
                forall|j: int|
                    0 <= j < i ==> (#[trigger] routes@[j]).0.hops@ == self.routes@[j].0.hops@
                        && routes@[j].0.total_amount_in == self.routes@[j].0.total_amount_in
                        && routes@[j].0.total_amount_out == self.routes@[j].0.total_amount_out
                        && routes@[j].0.price_impact == self.routes@[j].0.price_impact
                        && routes@[j].0.gas_estimate == self.routes@[j].0.gas_estimate
                        && routes@[j].1 == self.routes@[j].1,
            decreases self.routes@.len() - i,
        {
            let copy = self.routes[i].0.clone();
            routes.push((copy, self.routes[i].1));
            i = i + 1;
        }
        SplitRoute {
            routes,
            total_amount_in: self.total_amount_in,
            total_amount_out: self.total_amount_out,
            combined_price_impact: self.combined_price_impact,
            total_gas_estimate: self.total_gas_estimate,
        }
    }
}

} // verus!
