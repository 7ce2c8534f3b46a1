//! The best route between two tokens.

use vstd::prelude::*;
use crate::graph::pool_graph::{linked, pool_links, PoolGraph};
use crate::routing::multi_hop::{
    find_best_multi_hop_route, has_sure_route, hop_limit, is_route_along,
};
use crate::routing::single_hop::{output_of, pays_every_direct_quote};
use crate::routing::route::Route;
use crate::utils::address::Address;
use crate::utils::error::RouterError;
use crate::utils::uint::U256;

verus! {

/// The best route of `amount_in` from `token_in` to `token_out` over at most
/// `max_hops` hops, by the best-first search of the engine.
///
/// The result is `NoRouteFound` where no walk along pools joins the two
/// tokens, or where the search finds no route. Where both tokens are tokens
/// of the graph and differ, and one hop is allowed, the route pays at least as
/// much as every direct quote between them. There is a route wherever there
/// is one that the search cannot lose.
pub fn find_best_route(
    graph: &PoolGraph,
    token_in: Address,
    token_out: Address,
    amount_in: U256,
    max_hops: usize,
) -> (r: Result<Route, RouterError>)
    ensures
        r is Ok ==> is_route_along(r->Ok_0, graph.pools(), token_in, token_out, amount_in)
            && r->Ok_0.hops@.len() <= hop_limit(max_hops),
        r is Err ==> r->Err_0.is_no_route(token_in, token_out),
        !(graph.has_token(token_in) && graph.has_token(token_out) && linked(
            pool_links(graph.pools()),
            token_in,
            token_out,
        )) ==> r is Err,
        graph.has_token(token_in) && graph.has_token(token_out) && token_in != token_out
            && max_hops >= 1 ==> pays_every_direct_quote(
            output_of(r),
            graph.pools(),
            token_in,
            token_out,
            amount_in@,
        ),
        has_sure_route(*graph, token_in, token_out, amount_in, max_hops) ==> r is Ok,
{
    find_best_multi_hop_route(graph, token_in, token_out, amount_in, max_hops)
}

} // verus!
