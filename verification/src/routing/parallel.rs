//! Searches by hop count, and their merged results.
//!
//! A search for routes of up to `max_hops` hops is one task for every hop
//! count. The tasks do not depend on each other: a caller may run
//! [`routes_for_hop_count`] on as many threads as it likes and hand the
//! results to [`merge_routes`]. The functions of this file that take a whole
//! request run the tasks one after the other.

use vstd::prelude::*;
use crate::graph::edge::PoolEdge;
use crate::graph::pool_graph::{pools_of, PoolGraph};
use crate::routing::multi_hop::{
    find_top_routes, has_route, has_sure_route, hop_limit, is_route_along, is_sure_route,
};
use crate::routing::order::{in_rank_order, lemma_same_routes, outputs_descend, sort_routes};
use crate::routing::route::{Route, RouteHop};
use crate::routing::single_hop::{
    covers_pools, direct_quote, find_all_single_hop_routes, first_output, has_direct_pool,
    has_direct_quote, has_direct_route, is_direct_route, lemma_quoting_pool_listed,
    pays_every_direct_quote,
};
use crate::utils::address::Address;
use crate::utils::uint::U256;
use crate::utils::MAX_HOPS;

verus! {

/// The number of routes that the search of one hop count may return.
pub const ROUTES_PER_HOP_COUNT: usize = 5;

/// Whether `route` is a route of a search for `amount_in` from `token_in`
/// to `token_out` over at most `max_hops` hops: the direct route through a
/// pool of `token_in`, or a simple path through pools of the graph.
pub open spec fn is_found_route(
    route: Route,
    pools: Seq<PoolEdge>,
    token_in: Address,
    token_out: Address,
    amount_in: U256,
    max_hops: nat,
) -> bool {
    &&& 1 <= route.hops@.len() <= max_hops
    &&& is_route_along(route, pools, token_in, token_out, amount_in) || has_direct_pool(
        route,
        pools_of(pools, token_in),
        token_in,
        token_out,
        amount_in,
    )
}

/// Whether every route of `routes` is a route of the search.
pub open spec fn all_found(
    routes: Seq<Route>,
    pools: Seq<PoolEdge>,
    token_in: Address,
    token_out: Address,
    amount_in: U256,
    max_hops: nat,
) -> bool {
    forall|k: int|
        0 <= k < routes.len() ==> is_found_route(
            #[trigger] routes[k],
            pools,
            token_in,
            token_out,
            amount_in,
            max_hops,
        )
}

/// The routes of one hop count: every direct route for one hop, up to five
/// routes of at most `hops` hops for more, and none for no hop. The hop count
/// is at most `MAX_HOPS`. For more than one hop, fewer than five routes mean
/// that every route that the search cannot lose is among them.
pub fn routes_for_hop_count(
    graph: &PoolGraph,
    token_in: Address,
    token_out: Address,
    amount_in: U256,
    hops: usize,
) -> (r: Vec<Route>)
    ensures
        outputs_descend(r@),
        all_found(r@, graph.pools(), token_in, token_out, amount_in, hop_limit(hops)),
        hops == 0 ==> r@.len() == 0,
        hops > 1 ==> r@.len() <= ROUTES_PER_HOP_COUNT,
        hops == 1 ==> covers_pools(
            r@,
            pools_of(graph.pools(), token_in),
            token_in,
            token_out,
            amount_in,
        ),
        hops > 1 && graph.has_token(token_in) && graph.has_token(token_out) ==> r@.len()
            == ROUTES_PER_HOP_COUNT || forall|path: Seq<RouteHop>| #[trigger]
            is_sure_route(
                path,
                graph.pools(),
                token_in,
                token_out,
                amount_in,
                hop_limit(hops),
            ) ==> has_route(r@, path),
{
    if hops == 0 {
        Vec::new()
    } else if hops == 1 {
        let routes = find_all_single_hop_routes(graph, token_in, token_out, amount_in);
        proof {
            let pools = pools_of(graph.pools(), token_in);
            assert forall|k: int| 0 <= k < routes@.len() implies is_found_route(
                #[trigger] routes@[k],
                graph.pools(),
                token_in,
                token_out,
                amount_in,
                1,
            ) by {
                assert(has_direct_pool(routes@[k], pools, token_in, token_out, amount_in));
                let j = choose|j: int|
                    0 <= j < pools.len() && #[trigger] is_direct_route(
                        routes@[k],
                        pools[j],
                        token_in,
                        token_out,
                        amount_in,
                    );
            }
        }
        routes
    } else {
        find_top_routes(graph, token_in, token_out, amount_in, hops, ROUTES_PER_HOP_COUNT)
    }
}

/// The routes of `lists` in one sequence, list after list.
pub open spec fn concat_routes(lists: Seq<Vec<Route>>) -> Seq<Route>
    decreases lists.len(),
{
    if lists.len() == 0 {
        Seq::empty()
    } else {
        concat_routes(lists.drop_last()) + lists.last()@
    }
}

/// Every route of the concatenation is a route of one of the lists, and
/// every route of a list is a route of the concatenation.
#[verifier::rlimit(50)]
pub proof fn lemma_concat_routes(lists: Seq<Vec<Route>>)
    ensures
        forall|k: int|
            0 <= k < concat_routes(lists).len() ==> exists|i: int|
                0 <= i < lists.len() && (#[trigger] lists[i])@.contains(
                    #[trigger] concat_routes(lists)[k],
                ),
        forall|i: int, j: int|
            0 <= i < lists.len() && 0 <= j < lists[i]@.len() ==> concat_routes(lists).contains(
                #[trigger] lists[i]@[j],
            ),
    decreases lists.len(),
{
    if lists.len() > 0 {
        let shorter = lists.drop_last();
        let head = concat_routes(shorter);
        let all = concat_routes(lists);
        lemma_concat_routes(shorter);
        assert forall|k: int| 0 <= k < all.len() implies exists|i: int|
            0 <= i < lists.len() && (#[trigger] lists[i])@.contains(#[trigger] all[k]) by {
            if k < head.len() {
                assert(all[k] == head[k]);
                let i = choose|i: int|
                    0 <= i < shorter.len() && (#[trigger] shorter[i])@.contains(head[k]);
                assert(lists[i] == shorter[i]);
            } else {
                assert(all[k] == lists.last()@[k - head.len()]);
                assert(lists[lists.len() - 1]@.contains(all[k]));
            }
        }
        assert forall|i: int, j: int|
            0 <= i < lists.len() && 0 <= j < lists[i]@.len() implies all.contains(
            #[trigger] lists[i]@[j],
        ) by {
            if i < shorter.len() {
                assert(lists[i] == shorter[i]);
                assert(head.contains(shorter[i]@[j]));
                let k = choose|k: int| 0 <= k < head.len() && head[k] == shorter[i]@[j];
                assert(all[k] == head[k]);
            } else {
                assert(all[head.len() + j] == lists[i]@[j]);
            }
        }
    }
}

/// All routes of `lists` in one list, by descending output. The result holds
/// the routes of the lists, each as often as the lists do.
#[verifier::rlimit(50)]
pub fn merge_routes(lists: Vec<Vec<Route>>) -> (r: Vec<Route>)
    ensures
        outputs_descend(r@),
        in_rank_order(r@, false),
        r@.to_multiset() == concat_routes(lists@).to_multiset(),
        r@.len() == concat_routes(lists@).len(),
{
    let ghost original = lists@;
    let mut lists = lists;
    let mut all: Vec<Route> = Vec::new();
    let mut i: usize = 0;
    proof {
        assert(original.take(0) =~= Seq::<Vec<Route>>::empty());
    }
    while i < lists.len()
        invariant
            i <= lists@.len(),
            lists@.len() == original.len(),
            forall|j: int| i <= j < lists@.len() ==> lists@[j] == original[j],
            all@ == concat_routes(original.take(i as int)),
        decreases lists@.len() - i,
    {
        let ghost before = lists@;
        let mut list: Vec<Route> = Vec::new();
        core::mem::swap(&mut lists[i], &mut list);
        proof {
            assert(list == original[i as int]);
            let upto = original.take(i + 1);
            assert(upto.drop_last() =~= original.take(i as int));
            assert(upto.last() == original[i as int]);
        }
        all.append(&mut list);
        i = i + 1;
    }
    proof {
        assert(original.take(i as int) =~= original);
    }
    sort_routes(all, false)
}

/// Whether every pool of `pools` that gives a direct quote has its direct
/// route among `routes`.
pub open spec fn direct_routes_among(
    routes: Seq<Route>,
    pools: Seq<PoolEdge>,
    token_in: Address,
    token_out: Address,
    amount_in: U256,
) -> bool {
    forall|j: int|
        0 <= j < pools.len() && direct_quote(pools[j], token_in, token_out, amount_in@) is Some
            ==> #[trigger] has_direct_route(routes, pools[j], token_in, token_out, amount_in)
}

/// Routes in descending order of output that hold every direct route pay
/// every direct quote with their first.
pub proof fn lemma_head_pays_direct(
    routes: Seq<Route>,
    pools: Seq<PoolEdge>,
    token_in: Address,
    token_out: Address,
    amount_in: U256,
)
    requires
        outputs_descend(routes),
        direct_routes_among(routes, pools_of(pools, token_in), token_in, token_out, amount_in),
    ensures
        pays_every_direct_quote(first_output(routes), pools, token_in, token_out, amount_in@),
{
    let listed = pools_of(pools, token_in);
    assert forall|i: int|
        0 <= i < pools.len() && (#[trigger] direct_quote(
            pools[i],
            token_in,
            token_out,
            amount_in@,
        )) is Some implies routes.len() > 0 && routes[0].total_amount_out@ >= direct_quote(
        pools[i],
        token_in,
        token_out,
        amount_in@,
    )->0 by {
        let j = lemma_quoting_pool_listed(pools, i, token_in, token_out, amount_in@);
        assert(has_direct_route(routes, listed[j], token_in, token_out, amount_in));
        let k = choose|k: int|
            0 <= k < routes.len() && #[trigger] is_direct_route(
                routes[k],
                listed[j],
                token_in,
                token_out,
                amount_in,
            );
        if k > 0 {
            assert(routes[0].total_amount_out@ >= routes[k].total_amount_out@);
        }
    }
}

/// Whether `routes` lost no route of at most `hops` hops that the search
/// cannot lose: they hold each of them, or there are at least `full` of them.
pub open spec fn sure_routes_kept(
    routes: Seq<Route>,
    graph: PoolGraph,
    token_in: Address,
    token_out: Address,
    amount_in: U256,
    hops: usize,
    full: usize,
) -> bool {
    graph.has_token(token_in) && graph.has_token(token_out) ==> routes.len() >= full || forall|
        path: Seq<RouteHop>,
    | #[trigger]
        is_sure_route(path, graph.pools(), token_in, token_out, amount_in, hop_limit(hops))
            ==> has_route(routes, path)
}

/// Routes that were kept in one list are kept in all the lists together.
proof fn lemma_kept_in_all(
    lists: Seq<Vec<Route>>,
    merged: Seq<Route>,
    graph: PoolGraph,
    token_in: Address,
    token_out: Address,
    amount_in: U256,
    hops: usize,
    full: usize,
)
    requires
        lists.len() >= 1,
        sure_routes_kept(lists.last()@, graph, token_in, token_out, amount_in, hops, full),
        merged.to_multiset() == concat_routes(lists).to_multiset(),
        merged.len() == concat_routes(lists).len(),
    ensures
        sure_routes_kept(merged, graph, token_in, token_out, amount_in, hops, full),
{
    let last = lists.last()@;
    let all = concat_routes(lists);
    lemma_concat_routes(lists);
    lemma_same_routes(all, merged);
    if graph.has_token(token_in) && graph.has_token(token_out) && merged.len() < full {
        assert(all.len() >= last.len());
        assert forall|path: Seq<RouteHop>| #[trigger]
            is_sure_route(
                path,
                graph.pools(),
                token_in,
                token_out,
                amount_in,
                hop_limit(hops),
            ) implies has_route(merged, path) by {
            let k = choose|k: int| 0 <= k < last.len() && (#[trigger] last[k]).hops@ == path;
            assert(all.contains(lists[lists.len() - 1]@[k]));
            assert(merged.contains(last[k]));
            let at = choose|at: int| 0 <= at < merged.len() && merged[at] == last[k];
            assert(merged[at].hops@ == path);
        }
    }
}

/// The routes of `amount_in` from `token_in` to `token_out` over up to
/// `max_hops` hops, by descending output: every direct route, and up to five
/// routes for each greater hop count up to `max_hops` and `MAX_HOPS`. With a
/// hop limit of two or more, fewer than five routes mean that every route
/// within the limit that the search cannot lose is among them.
#[verifier::rlimit(50)]
pub fn find_routes_parallel(
    graph: &PoolGraph,
    token_in: Address,
    token_out: Address,
    amount_in: U256,
    max_hops: usize,
) -> (r: Vec<Route>)
    ensures
        outputs_descend(r@),
        all_found(r@, graph.pools(), token_in, token_out, amount_in, hop_limit(max_hops)),
        max_hops == 0 ==> r@.len() == 0,
        max_hops >= 1 ==> direct_routes_among(
            r@,
            pools_of(graph.pools(), token_in),
            token_in,
            token_out,
            amount_in,
        ),
        max_hops >= 2 ==> sure_routes_kept(
            r@,
            *graph,
            token_in,
            token_out,
            amount_in,
            max_hops,
            ROUTES_PER_HOP_COUNT,
        ),
{
    let limit: usize = if max_hops > MAX_HOPS {
        MAX_HOPS
    } else {
        max_hops
    };
    let ghost pools = graph.pools();
    let ghost direct = pools_of(pools, token_in);
    let mut lists: Vec<Vec<Route>> = Vec::new();
    let mut hops: usize = 1;
    while hops <= limit
        invariant
            1 <= hops <= limit + 1,
            limit <= MAX_HOPS,
            pools == graph.pools(),
            direct == pools_of(pools, token_in),
            lists@.len() == hops - 1,
            forall|j: int|
                0 <= j < lists@.len() ==> all_found(
                    (#[trigger] lists@[j])@,
                    pools,
                    token_in,
                    token_out,
                    amount_in,
                    limit as nat,
                ),
            hops > 1 ==> direct_routes_among(lists@[0]@, direct, token_in, token_out, amount_in),
            hops > 2 ==> sure_routes_kept(
                lists@.last()@,
                *graph,
                token_in,
                token_out,
                amount_in,
                (hops - 1) as usize,
                ROUTES_PER_HOP_COUNT,
            ),
        decreases limit + 1 - hops,
    {
        let ghost before = lists@;
        let list = routes_for_hop_count(graph, token_in, token_out, amount_in, hops);
        lists.push(list);
        proof {
            assert forall|j: int| 0 <= j < lists@.len() implies all_found(
                (#[trigger] lists@[j])@,
                pools,
                token_in,
                token_out,
                amount_in,
                limit as nat,
            ) by {
                if j < before.len() {
                    assert(lists@[j] == before[j]);
                }
            }
            if hops > 1 {
                assert(lists@[0] == before[0]);
            } else {
                assert(lists@[0] == list);
            }
        }
        hops = hops + 1;
    }
    let ghost gathered = lists@;
    let merged = merge_routes(lists);
    proof {
        if max_hops >= 2 {
            assert(hop_limit(limit) == hop_limit(max_hops));
            lemma_kept_in_all(
                gathered,
                merged@,
                *graph,
                token_in,
                token_out,
                amount_in,
                limit,
                ROUTES_PER_HOP_COUNT,
            );
        }
        let all = concat_routes(gathered);
        lemma_concat_routes(gathered);
        lemma_same_routes(all, merged@);
        assert forall|k: int| 0 <= k < merged@.len() implies is_found_route(
            #[trigger] merged@[k],
            pools,
            token_in,
            token_out,
            amount_in,
            limit as nat,
        ) by {
            assert(all.contains(merged@[k]));
            let u = choose|u: int| 0 <= u < all.len() && all[u] == merged@[k];
            let i = choose|i: int|
                0 <= i < gathered.len() && (#[trigger] gathered[i])@.contains(
                    #[trigger] all[u],
                );
            let j = choose|j: int| 0 <= j < gathered[i]@.len() && gathered[i]@[j] == all[u];
            assert(is_found_route(
                gathered[i]@[j],
                pools,
                token_in,
                token_out,
                amount_in,
                limit as nat,
            ));
        }
        if max_hops >= 1 {
            assert forall|i: int|
                0 <= i < direct.len() && direct_quote(
                    direct[i],
                    token_in,
                    token_out,
                    amount_in@,
                ) is Some implies #[trigger] has_direct_route(
                merged@,
                direct[i],
                token_in,
                token_out,
                amount_in,
            ) by {
                assert(has_direct_route(gathered[0]@, direct[i], token_in, token_out, amount_in));
                let j = choose|j: int|
                    0 <= j < gathered[0]@.len() && #[trigger] is_direct_route(
                        gathered[0]@[j],
                        direct[i],
                        token_in,
                        token_out,
                        amount_in,
                    );
                assert(all.contains(gathered[0]@[j]));
                assert(merged@.contains(gathered[0]@[j]));
                let k = choose|k: int| 0 <= k < merged@.len() && merged@[k] == gathered[0]@[j];
                assert(is_direct_route(merged@[k], direct[i], token_in, token_out, amount_in));
            }
        }
    }
    merged
}

/// Whether `routes` are what the searches by hop count owe together: routes
/// that were found, by descending output, every direct route among them, and
/// no route lost that the search cannot lose unless there are five.
pub open spec fn is_merged_search(
    routes: Seq<Route>,
    graph: PoolGraph,
    token_in: Address,
    token_out: Address,
    amount_in: U256,
    max_hops: usize,
) -> bool {
    &&& outputs_descend(routes)
    &&& all_found(routes, graph.pools(), token_in, token_out, amount_in, hop_limit(max_hops))
    &&& max_hops == 0 ==> routes.len() == 0
    &&& max_hops >= 1 ==> direct_routes_among(
        routes,
        pools_of(graph.pools(), token_in),
        token_in,
        token_out,
        amount_in,
    )
    &&& max_hops >= 2 ==> sure_routes_kept(
        routes,
        graph,
        token_in,
        token_out,
        amount_in,
        max_hops,
        ROUTES_PER_HOP_COUNT,
    )
}

/// The first of the merged routes pays at least as much as every route that
/// the search cannot lose, unless five routes were found.
pub proof fn lemma_merged_head_pays(
    routes: Seq<Route>,
    graph: PoolGraph,
    token_in: Address,
    token_out: Address,
    amount_in: U256,
    max_hops: usize,
    path: Seq<RouteHop>,
)
    requires
        is_merged_search(routes, graph, token_in, token_out, amount_in, max_hops),
        max_hops >= 2,
        graph.has_token(token_in),
        graph.has_token(token_out),
        is_sure_route(path, graph.pools(), token_in, token_out, amount_in, hop_limit(max_hops)),
        routes.len() < ROUTES_PER_HOP_COUNT,
    ensures
        routes.len() >= 1,
        routes[0].total_amount_out@ >= path.last().amount_out@,
{
    assert(has_route(routes, path));
    let k = choose|k: int| 0 <= k < routes.len() && (#[trigger] routes[k]).hops@ == path;
    assert(is_found_route(
        routes[k],
        graph.pools(),
        token_in,
        token_out,
        amount_in,
        hop_limit(max_hops),
    ));
    if !is_route_along(routes[k], graph.pools(), token_in, token_out, amount_in) {
        let pools = pools_of(graph.pools(), token_in);
        let j = choose|j: int|
            0 <= j < pools.len() && #[trigger] is_direct_route(
                routes[k],
                pools[j],
                token_in,
                token_out,
                amount_in,
            );
        assert(routes[k].hops@.last() == routes[k].hops@[0]);
    }
    if k > 0 {
        assert(routes[0].total_amount_out@ >= routes[k].total_amount_out@);
    }
}

/// Whether `found` is the first of the routes that the searches by hop count
/// owe together, or nothing where there is none: the route of greatest output
/// among them.
#[verifier::opaque]
pub open spec fn heads_merged_search(
    found: Option<Route>,
    graph: PoolGraph,
    token_in: Address,
    token_out: Address,
    amount_in: U256,
    max_hops: usize,
) -> bool {
    exists|routes: Seq<Route>|
        {
            &&& #[trigger] is_merged_search(
                routes,
                graph,
                token_in,
                token_out,
                amount_in,
                max_hops,
            )
            &&& found == if routes.len() > 0 {
                Some(routes[0])
            } else {
                None
            }
        }
}

/// The best route of [`find_routes_parallel`]: the one that pays out most.
pub fn find_best_route_parallel(
    graph: &PoolGraph,
    token_in: Address,
    token_out: Address,
    amount_in: U256,
    max_hops: usize,
) -> (r: Option<Route>)
    ensures
        r is Some ==> is_found_route(
            r->0,
            graph.pools(),
            token_in,
            token_out,
            amount_in,
            hop_limit(max_hops),
        ),
        max_hops == 0 ==> r is None,
        max_hops >= 1 && has_direct_quote(
            pools_of(graph.pools(), token_in),
            token_in,
            token_out,
            amount_in@,
        ) ==> r is Some,
        max_hops >= 1 ==> pays_every_direct_quote(
            match r {
                Some(route) => Some(route.total_amount_out@),
                None => None,
            },
            graph.pools(),
            token_in,
            token_out,
            amount_in@,
        ),
        heads_merged_search(r, *graph, token_in, token_out, amount_in, max_hops),
        max_hops >= 2 && has_sure_route(*graph, token_in, token_out, amount_in, max_hops) ==> r
            is Some,
{
    let mut routes = find_routes_parallel(graph, token_in, token_out, amount_in, max_hops);
    proof {
        if max_hops >= 1 {
            lemma_head_pays_direct(routes@, graph.pools(), token_in, token_out, amount_in);
        }
        let pools = pools_of(graph.pools(), token_in);
        if max_hops >= 1 && has_direct_quote(pools, token_in, token_out, amount_in@) {
            let i = choose|i: int|
                0 <= i < pools.len() && #[trigger] direct_quote(
                    pools[i],
                    token_in,
                    token_out,
                    amount_in@,
                ) is Some;
            assert(has_direct_route(routes@, pools[i], token_in, token_out, amount_in));
        }
    }
    proof {
        reveal(heads_merged_search);
        assert(is_merged_search(routes@, *graph, token_in, token_out, amount_in, max_hops));
        if max_hops >= 2 && has_sure_route(*graph, token_in, token_out, amount_in, max_hops)
            && routes@.len() == 0 {
            let path = choose|path: Seq<RouteHop>| #[trigger]
                is_sure_route(
                    path,
                    graph.pools(),
                    token_in,
                    token_out,
                    amount_in,
                    hop_limit(max_hops),
                );
            assert(has_route(routes@, path));
        }
    }
    if routes.len() > 0 {
        Some(routes.remove(0))
    } else {
        None
    }
}

/// One request of a batch: the tokens, the amount and the hop limit.
pub open spec fn request_answered(
    graph: PoolGraph,
    request: (Address, Address, U256, usize),
    answer: Option<Route>,
) -> bool {
    &&& answer is Some ==> is_found_route(
        answer->0,
        graph.pools(),
        request.0,
        request.1,
        request.2,
        hop_limit(request.3),
    )
    &&& request.3 == 0 ==> answer is None
    &&& request.3 >= 1 && has_direct_quote(
        pools_of(graph.pools(), request.0),
        request.0,
        request.1,
        request.2@,
    ) ==> answer is Some
}

/// The best route for every request of `requests`, in their order; each
/// answer is that of [`find_best_route_parallel`].
pub fn batch_find_routes(graph: &PoolGraph, requests: Vec<(Address, Address, U256, usize)>) -> (r:
    Vec<Option<Route>>)
    ensures
        r@.len() == requests@.len(),
        forall|i: int|
            0 <= i < r@.len() ==> request_answered(*graph, requests@[i], #[trigger] r@[i]),
{
    let mut answers: Vec<Option<Route>> = Vec::new();
    let mut i: usize = 0;
    while i < requests.len()
        invariant
            i <= requests@.len(),
            answers@.len() == i,
            forall|j: int|
                0 <= j < i ==> request_answered(*graph, requests@[j], #[trigger] answers@[j]),
        decreases requests@.len() - i,
    {
        let request = requests[i];
        let answer = find_best_route_parallel(
            graph,
            request.0,
            request.1,
            request.2,
            request.3,
        );
        answers.push(answer);
        i = i + 1;
    }
    answers
}

/// The best route for every amount of `amounts`, in their order; each answer
/// is that of [`find_best_route_parallel`].
pub fn simulate_amounts_parallel(
    graph: &PoolGraph,
    token_in: Address,
    token_out: Address,
    amounts: Vec<U256>,
    max_hops: usize,
) -> (r: Vec<Option<Route>>)
    ensures
        r@.len() == amounts@.len(),
        forall|i: int|
            0 <= i < r@.len() ==> request_answered(
                *graph,
                (token_in, token_out, amounts@[i], max_hops),
                #[trigger] r@[i],
            ),
{
    let mut answers: Vec<Option<Route>> = Vec::new();
    let mut i: usize = 0;
    while i < amounts.len()
        invariant
            i <= amounts@.len(),
            answers@.len() == i,
            forall|j: int|
                0 <= j < i ==> request_answered(
                    *graph,
                    (token_in, token_out, amounts@[j], max_hops),
                    #[trigger] answers@[j],
                ),
        decreases amounts@.len() - i,
    {
        let answer = find_best_route_parallel(graph, token_in, token_out, amounts[i], max_hops);
        answers.push(answer);
        i = i + 1;
    }
    answers
}

} // verus!
