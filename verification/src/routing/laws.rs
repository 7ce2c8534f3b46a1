//! What holds of every route that the searches produce.

use vstd::prelude::*;
use crate::graph::edge::PoolEdge;
use crate::routing::multi_hop::{is_route_along, is_trail, trail_tokens};
use crate::routing::route::{hop_tokens, hops_chain, Route, RouteHop};
use crate::routing::single_hop::{is_direct_route, DUST_FLOOR};
use crate::simulation::swap::boundary_price;
use crate::utils::address::Address;
use crate::utils::math::{lemma_swap_step_at_fair_price, q96_value, step_fits};
use crate::utils::tick::lemma_sqrt_price_positive;
use crate::utils::uint::U256;

verus! {

/// A route of a search is a simple path: each hop pays its output token into
/// the next hop, the first hop takes `token_in`, the last pays `token_out`,
/// and no token occurs twice among the tokens of the route.
pub proof fn lemma_route_is_simple(
    route: Route,
    pools: Seq<PoolEdge>,
    token_in: Address,
    token_out: Address,
    amount_in: U256,
)
    requires
        is_route_along(route, pools, token_in, token_out, amount_in),
    ensures
        hops_chain(route.hops@),
        hop_tokens(route.hops@).no_duplicates(),
        route.hops@[0].token_in == token_in,
        route.hops@.last().token_out == token_out,
{
    assert(hop_tokens(route.hops@) =~= trail_tokens(token_in, route.hops@));
}

/// A direct route between two different tokens is a simple path of one hop.
pub proof fn lemma_direct_route_is_simple(
    route: Route,
    pool: PoolEdge,
    token_in: Address,
    token_out: Address,
    amount_in: U256,
)
    requires
        is_direct_route(route, pool, token_in, token_out, amount_in),
        token_in != token_out,
    ensures
        hops_chain(route.hops@),
        hop_tokens(route.hops@).no_duplicates(),
{
    let tokens = hop_tokens(route.hops@);
    assert(tokens =~= seq![token_in, token_out]);
}

/// Every hop of a route of a search pays out at least the dust floor, so the
/// route pays out more than nothing.
pub proof fn lemma_route_output_positive(
    route: Route,
    pools: Seq<PoolEdge>,
    token_in: Address,
    token_out: Address,
    amount_in: U256,
)
    requires
        is_route_along(route, pools, token_in, token_out, amount_in),
    ensures
        route.total_amount_out@ >= DUST_FLOOR,
        forall|i: int|
            0 <= i < route.hops@.len() ==> (#[trigger] route.hops@[i]).amount_out@ >= DUST_FLOOR,
{
}

/// The price to which the swap of `hop` moves at most.
pub open spec fn hop_target(hop: RouteHop) -> nat {
    boundary_price(
        hop.pool.tick as int,
        hop.pool.tick_spacing as int,
        hop.token_in == hop.pool.token0,
    )
}

/// Whether `hop` goes through a pool that charges a fee and whose price the
/// swap moves away from one: down from a square-root price of at most 2^96, or
/// up from one of at least 2^96; with liquidity so moderate that the swap step
/// stays within 256 bits.
pub open spec fn hop_at_fair_price(hop: RouteHop) -> bool {
    &&& hop.pool.fee > 0
    &&& step_fits(
        hop.pool.sqrt_price_x96@,
        hop_target(hop),
        hop.pool.liquidity as nat,
        hop.amount_in@,
    )
    &&& if hop.pool.sqrt_price_x96@ >= hop_target(hop) {
        hop.pool.sqrt_price_x96@ <= q96_value()
    } else {
        hop.pool.sqrt_price_x96@ >= q96_value()
    }
}

/// A path through pools whose price moves away from one pays out less at
/// every hop than was paid in at its start.
proof fn lemma_trail_shrinks(
    pools: Seq<PoolEdge>,
    hops: Seq<RouteHop>,
    token_in: Address,
    amount_in: U256,
    upto: int,
)
    requires
        is_trail(pools, hops, token_in, amount_in),
        0 <= upto < hops.len(),
        forall|i: int| 0 <= i < hops.len() ==> hop_at_fair_price(#[trigger] hops[i]),
    ensures
        hops[upto].amount_out@ < amount_in@,
    decreases upto,
{
    let hop = hops[upto];
    if upto > 0 {
        lemma_trail_shrinks(pools, hops, token_in, amount_in, upto - 1);
        assert(hops[upto - 1].amount_out == hops[upto - 1 + 1].amount_in);
    }
    assert(hop.amount_in@ <= amount_in@);
    let zero_for_one = hop.token_in == hop.pool.token0;
    let target = boundary_price(hop.pool.tick as int, hop.pool.tick_spacing as int, zero_for_one);
    lemma_sqrt_price_positive(
        crate::simulation::swap::boundary_tick(
            hop.pool.tick as int,
            hop.pool.tick_spacing as int,
            zero_for_one,
        ),
    );
    lemma_swap_step_at_fair_price(
        hop.pool.sqrt_price_x96@,
        target,
        hop.pool.liquidity as nat,
        hop.amount_in@,
        hop.pool.fee as nat,
    );
}

/// A route through pools whose price moves away from one pays out less than
/// it takes in.
///
/// This holds where every pool of the route charges a fee, has its price
/// moved down from a square-root price of at most 2^96 or up from one of at
/// least 2^96, and has liquidity so moderate that no swap step leaves 256
/// bits. Where the price is moved towards one, a route may pay out more units
/// than it takes in.
pub proof fn lemma_route_output_below_input(
    route: Route,
    pools: Seq<PoolEdge>,
    token_in: Address,
    token_out: Address,
    amount_in: U256,
)
    requires
        is_route_along(route, pools, token_in, token_out, amount_in),
        forall|i: int| 0 <= i < route.hops@.len() ==> hop_at_fair_price(#[trigger] route.hops@[i]),
    ensures
        0 < route.total_amount_out@ < route.total_amount_in@,
{
    lemma_trail_shrinks(pools, route.hops@, token_in, amount_in, route.hops@.len() - 1);
}

} // verus!
