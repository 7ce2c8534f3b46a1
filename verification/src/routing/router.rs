//! The router: the searches behind one front, with a cache before them.

use vstd::prelude::*;
use crate::cache::enhanced_route_cache::{
    quote_key, route_key, CacheStatistics, EnhancedRouteCache,
};
use crate::cache::lru_cache::{
    distinct_keys, is_expired, key_position, lemma_reads_keeps_values, reads, with_room,
    without_key, written, CacheEntry,
};
use crate::cache::keys::RouteKey;
use crate::graph::edge::PoolEdge;
use crate::graph::node::TokenNode;
use crate::graph::pool_graph::{linked, pool_links, pools_of, with_pool, with_token, PoolGraph};
use crate::routing::multi_hop::{
    find_best_multi_hop_route, find_top_routes, has_route, has_sure_route, hop_limit,
    is_sure_route, routes_ok,
};
use crate::routing::order::outputs_descend;
use crate::routing::parallel::{find_best_route_parallel, heads_merged_search, is_found_route};
use crate::routing::quote::{quote_figures, Quote};
use crate::routing::route::{percent_sum, Route, RouteHop, SplitRoute};
use crate::routing::single_hop::{
    find_best_single_hop_route, first_output, has_direct_quote, is_best_direct,
    lemma_best_direct_pays, lemma_no_direct_quote, output_of, pays_every_direct_quote,
};
use crate::routing::split::{
    below_split_floor, is_best_split_three, is_best_split_two, is_single_split,
    optimize_split_route, MIN_SPLIT_AMOUNT,
};
use crate::utils::address::Address;
use crate::utils::error::RouterError;
use crate::utils::math::slippage_applied;
use crate::utils::uint::{decimal_text, U256};
use crate::utils::{MAX_HOPS, MAX_SPLITS};

verus! {

/// What a router does besides searching.
#[derive(Clone, Copy, Debug)]
pub struct RouterConfig {
    /// Whether results are cached.
    pub enable_cache: bool,
    /// Whether a search over more than two hops runs one search per hop count.
    pub enable_parallel: bool,
    pub cache_ttl_seconds: u64,
    pub max_routes_cached: usize,
    pub max_quotes_cached: usize,
}

impl Default for RouterConfig {
    /// Cache and per-hop-count searches on, fifteen seconds to live, a
    /// thousand routes and two thousand quotes.
    fn default() -> (c: RouterConfig)
        ensures
            c == (RouterConfig {
                enable_cache: true,
                enable_parallel: true,
                cache_ttl_seconds: 15,
                max_routes_cached: 1000,
                max_quotes_cached: 2000,
            }),
    {
        RouterConfig {
            enable_cache: true,
            enable_parallel: true,
            cache_ttl_seconds: 15,
            max_routes_cached: 1000,
            max_quotes_cached: 2000,
        }
    }
}

/// The greatest number of hops of a route that a request for `max_hops` hops
/// can get: the hop limit, but one where the limit is none, because a direct
/// route is always tried.
pub open spec fn served_hops(max_hops: usize) -> nat {
    if hop_limit(max_hops) == 0 {
        1
    } else {
        hop_limit(max_hops)
    }
}

/// The best route for a request, by the strategy that fits the hop limit.
///
/// For one hop it is the best direct route. For more than two hops, where
/// `enable_parallel` is set, it is the best route of the searches by hop
/// count. Otherwise it is the better of the best direct route and the best
/// route of the multi-hop search, the direct one where they pay the same, and
/// whichever exists where only one does. The result is `NoRouteFound` where
/// there is no route; there is one wherever a pool gives a direct quote, and it
/// pays at least as much as every direct quote. The best route of the searches
/// by hop count is the first of their merged routes, see
/// [`heads_merged_search`].
#[verifier::rlimit(50)]
pub fn select_route(
    graph: &PoolGraph,
    enable_parallel: bool,
    token_in: Address,
    token_out: Address,
    amount_in: U256,
    max_hops: usize,
) -> (r: Result<Route, RouterError>)
    ensures
        r is Ok ==> is_found_route(
            r->Ok_0,
            graph.pools(),
            token_in,
            token_out,
            amount_in,
            served_hops(max_hops),
        ),
        r is Err ==> r->Err_0.is_no_route(token_in, token_out),
        has_direct_quote(pools_of(graph.pools(), token_in), token_in, token_out, amount_in@)
            ==> r is Ok,
        pays_every_direct_quote(output_of(r), graph.pools(), token_in, token_out, amount_in@),
        enable_parallel && max_hops > 2 ==> heads_merged_search(
            route_of(r),
            *graph,
            token_in,
            token_out,
            amount_in,
            max_hops,
        ),
        max_hops == 1 && r is Ok ==> is_best_direct(
            r->Ok_0,
            pools_of(graph.pools(), token_in),
            token_in,
            token_out,
            amount_in,
        ),
        max_hops >= 2 && has_sure_route(*graph, token_in, token_out, amount_in, max_hops) ==> r
            is Ok,
{
    if enable_parallel && max_hops > 2 {
        return match find_best_route_parallel(graph, token_in, token_out, amount_in, max_hops) {
            Some(route) => Ok(route),
            None => Err(RouterError::NoRouteFound { from: token_in, to: token_out }),
        };
    }
    let direct = find_best_single_hop_route(graph, token_in, token_out, amount_in);
    proof {
        if direct is Ok {
            lemma_best_direct_pays(direct->Ok_0, graph.pools(), token_in, token_out, amount_in);
        } else {
            lemma_no_direct_quote(graph.pools(), token_in, token_out, amount_in@);
        }
    }
    if max_hops == 1 {
        return direct;
    }
    match direct {
        Ok(single_hop) => {
            match find_best_multi_hop_route(graph, token_in, token_out, amount_in, max_hops) {
                Ok(multi_hop) => {
                    if single_hop.total_amount_out.lt(&multi_hop.total_amount_out) {
                        Ok(multi_hop)
                    } else {
                        Ok(single_hop)
                    }
                },
                Err(_) => Ok(single_hop),
            }
        },
        Err(_) => find_best_multi_hop_route(graph, token_in, token_out, amount_in, max_hops),
    }
}

/// Whether the shares of `split` add up to 100 over one to `MAX_SPLITS`
/// routes.
pub open spec fn split_ok(split: SplitRoute) -> bool {
    percent_sum(split.routes@) == 100 && 1 <= split.routes@.len() <= MAX_SPLITS
}

/// The value that a read of `key` at the time `now` finds among `entries`:
/// that of the entry of `key`, unless it has reached its time to live.
pub open spec fn cached_value<K, V>(
    entries: Seq<CacheEntry<K, V>>,
    ttl: u64,
    key: K,
    now: u64,
) -> Option<V> {
    match key_position(entries, key) {
        Some(i) => if is_expired(entries[i].inserted_at, now, ttl) {
            None
        } else {
            Some(entries[i].value)
        },
        None => None,
    }
}

/// The entries after a read of `key` at the time `now`: an entry that has
/// reached its time to live is gone, one that has not comes last with one more
/// read, and without an entry of the key nothing changes.
pub open spec fn after_read<K, V>(
    entries: Seq<CacheEntry<K, V>>,
    ttl: u64,
    key: K,
    now: u64,
) -> Seq<CacheEntry<K, V>> {
    match key_position(entries, key) {
        Some(i) => if is_expired(entries[i].inserted_at, now, ttl) {
            entries.remove(i)
        } else {
            entries.remove(i).push(
                CacheEntry {
                    key,
                    value: entries[i].value,
                    inserted_at: entries[i].inserted_at,
                    access_count: if entries[i].access_count < u64::MAX {
                        (entries[i].access_count + 1) as u64
                    } else {
                        u64::MAX
                    },
                },
            )
        },
        None => entries,
    }
}

/// A read leaves the entries of [`after_read`], and gives a value where
/// [`cached_value`] does: a clone of it.
pub proof fn lemma_reads_after<K, V: Clone>(
    before: Seq<CacheEntry<K, V>>,
    ttl: u64,
    key: K,
    now: u64,
    after: Seq<CacheEntry<K, V>>,
    result: Option<V>,
)
    requires
        reads(before, ttl, key, now, after, result),
    ensures
        after == after_read(before, ttl, key, now),
        result is Some == cached_value(before, ttl, key, now) is Some,
        result is Some ==> cloned(cached_value(before, ttl, key, now)->0, result->0),
{
    match key_position(before, key) {
        Some(i) => {
            if !is_expired(before[i].inserted_at, now, ttl) {
                let last = after.last();
                assert(after =~= after.drop_last().push(last));
            }
        },
        None => {},
    }
}

/// Whether a request with the cache `enabled` turns the entries `before` into
/// `after`, where `found` is what the request gave.
///
/// With the cache off nothing changes. With it on, the key is read. A hit,
/// and a miss without a result, leave what the read leaves; a miss with a
/// result puts a clone of the result in after the read, at the time `now`.
pub open spec fn cache_step<K, V: Clone>(
    before: Seq<CacheEntry<K, V>>,
    ttl: u64,
    max_size: usize,
    key: K,
    now: u64,
    enabled: bool,
    found: Option<V>,
    after: Seq<CacheEntry<K, V>>,
) -> bool {
    if !enabled {
        after == before
    } else if cached_value(before, ttl, key, now) is Some || found is None {
        after == after_read(before, ttl, key, now)
    } else {
        &&& after.len() >= 1
        &&& cloned(found->0, after.last().value)
        &&& after == written(
            after_read(before, ttl, key, now),
            max_size,
            key,
            after.last().value,
            now,
        )
    }
}

/// The route of a result, if it has one.
pub open spec fn route_of(found: Result<Route, RouterError>) -> Option<Route> {
    match found {
        Ok(route) => Some(route),
        Err(_) => None,
    }
}

/// A value that was put in is what the next read of its key finds, until it
/// has reached its time to live.
pub proof fn lemma_written_is_cached<K, V>(
    before: Seq<CacheEntry<K, V>>,
    ttl: u64,
    max_size: usize,
    key: K,
    value: V,
    now: u64,
    later: u64,
)
    requires
        distinct_keys(before),
    ensures
        cached_value(written(before, max_size, key, value, now), ttl, key, later) == if is_expired(
            now,
            later,
            ttl,
        ) {
            None
        } else {
            Some(value)
        },
{
    let roomy = with_room(before, max_size);
    let rest = without_key(roomy, key);
    let after = written(before, max_size, key, value, now);
    assert(distinct_keys(roomy)) by {
        assert forall|i: int, j: int| 0 <= i < j < roomy.len() implies (#[trigger] roomy[i]).key != (
        #[trigger] roomy[j]).key by {
            if roomy.len() < before.len() {
                assert(roomy[i] == before[i + 1] && roomy[j] == before[j + 1]);
            }
        }
    }
    assert forall|k: int| 0 <= k < rest.len() implies (#[trigger] rest[k]).key != key by {
        match key_position(roomy, key) {
            Some(i) => {
                if k < i {
                    assert(rest[k] == roomy[k]);
                } else {
                    assert(rest[k] == roomy[k + 1]);
                }
            },
            None => {},
        }
    }
    let last = after.len() - 1;
    assert(after[last].key == key);
    let found = key_position(after, key)->0;
    if found < last {
        assert(after[found] == rest[found]);
    }
}

/// A read keeps the keys distinct.
pub proof fn lemma_after_read_distinct<K, V>(
    entries: Seq<CacheEntry<K, V>>,
    ttl: u64,
    key: K,
    now: u64,
)
    requires
        distinct_keys(entries),
    ensures
        distinct_keys(after_read(entries, ttl, key, now)),
{
    let after = after_read(entries, ttl, key, now);
    match key_position(entries, key) {
        Some(i) => {
            let rest = entries.remove(i);
            assert forall|a: int| 0 <= a < rest.len() implies (#[trigger] rest[a]).key != key
                && exists|b: int| 0 <= b < entries.len() && b != i && entries[b] == rest[a] && (a
                < i ==> b == a) && (a >= i ==> b == a + 1) by {
                if a < i {
                    assert(rest[a] == entries[a]);
                } else {
                    assert(rest[a] == entries[a + 1]);
                }
            }
            assert forall|a: int, b: int| 0 <= a < b < after.len() implies (#[trigger] after[a]).key
                != (#[trigger] after[b]).key by {
                if b < rest.len() {
                    assert(after[a] == rest[a] && after[b] == rest[b]);
                    let x = if a < i { a } else { a + 1 };
                    let y = if b < i { b } else { b + 1 };
                    assert(entries[x] == rest[a] && entries[y] == rest[b]);
                } else {
                    assert(after[a] == rest[a]);
                }
            }
        },
        None => {},
    }
}

/// After a miss that gave a result, a request for the same key is a hit until
/// the entry has reached its time to live, and finds a clone of that result.
pub proof fn lemma_repeat_is_hit<K, V: Clone>(
    before: Seq<CacheEntry<K, V>>,
    ttl: u64,
    max_size: usize,
    key: K,
    now: u64,
    found: V,
    after: Seq<CacheEntry<K, V>>,
    later: u64,
)
    requires
        distinct_keys(before),
        cached_value(before, ttl, key, now) is None,
        cache_step(before, ttl, max_size, key, now, true, Some(found), after),
        !is_expired(now, later, ttl),
    ensures
        cached_value(after, ttl, key, later) is Some,
        cloned(found, cached_value(after, ttl, key, later)->0),
{
    lemma_after_read_distinct(before, ttl, key, now);
    lemma_written_is_cached(
        after_read(before, ttl, key, now),
        ttl,
        max_size,
        key,
        after.last().value,
        now,
        later,
    );
}

/// Whether `found` is what a search in `pools` owes a request: a route that
/// was found within the hops that are served, or `NoRouteFound`; a route
/// wherever a pool gives a direct quote, and one that pays at least as much as
/// every direct quote.
pub open spec fn is_route_answer(
    found: Result<Route, RouterError>,
    pools: Seq<PoolEdge>,
    token_in: Address,
    token_out: Address,
    amount_in: U256,
    hops: usize,
) -> bool {
    &&& found is Ok ==> is_found_route(
        found->Ok_0,
        pools,
        token_in,
        token_out,
        amount_in,
        served_hops(hops),
    )
    &&& found is Err ==> found->Err_0.is_no_route(token_in, token_out)
    &&& has_direct_quote(pools_of(pools, token_in), token_in, token_out, amount_in@) ==> found
        is Ok
    &&& pays_every_direct_quote(output_of(found), pools, token_in, token_out, amount_in@)
}

/// Whether a request for a route gives `found` and turns the cached routes
/// `before` into `after`: a hit gives a clone of the cached route, a miss
/// what the search owes, and the cache goes by [`cache_step`].
#[verifier::opaque]
pub open spec fn route_outcome(
    pools: Seq<PoolEdge>,
    before: Seq<CacheEntry<RouteKey, Route>>,
    ttl: u64,
    max_routes: usize,
    enabled: bool,
    token_in: Address,
    token_out: Address,
    amount_in: U256,
    hops: usize,
    now: u64,
    found: Result<Route, RouterError>,
    after: Seq<CacheEntry<RouteKey, Route>>,
) -> bool {
    let key = route_key(token_in, token_out, amount_in, hops);
    let cached = cached_value(before, ttl, key, now);
    &&& cache_step(before, ttl, max_routes, key, now, enabled, route_of(found), after)
    &&& if enabled && cached is Some {
        found is Ok && cloned(cached->0, found->Ok_0)
    } else {
        is_route_answer(found, pools, token_in, token_out, amount_in, hops)
    }
}

/// Whether `split` answers a request with the one route of a request for a
/// route: the whole amount down that route, or its error.
#[verifier::opaque]
pub open spec fn single_outcome(
    pools: Seq<PoolEdge>,
    before: Seq<CacheEntry<RouteKey, Route>>,
    ttl: u64,
    max_routes: usize,
    enabled: bool,
    token_in: Address,
    token_out: Address,
    amount_in: U256,
    hops: usize,
    now: u64,
    split: Result<SplitRoute, RouterError>,
    after: Seq<CacheEntry<RouteKey, Route>>,
) -> bool {
    exists|found: Result<Route, RouterError>|
        {
            &&& #[trigger] route_outcome(
                pools,
                before,
                ttl,
                max_routes,
                enabled,
                token_in,
                token_out,
                amount_in,
                hops,
                now,
                found,
                after,
            )
            &&& match found {
                Ok(route) => split is Ok && is_single_split(split->Ok_0, route),
                Err(e) => split is Err && split->Err_0 == e,
            }
        }
}

/// The number of routes that are searched for a split over `splits` routes:
/// twice as many.
pub open spec fn wanted_routes(splits: usize) -> usize {
    if splits * 2 > usize::MAX {
        usize::MAX
    } else {
        (splits * 2) as usize
    }
}

/// Whether `routes` are what the search for up to `wanted` routes owes.
#[verifier::opaque]
pub open spec fn is_top_routes(
    routes: Seq<Route>,
    graph: PoolGraph,
    token_in: Address,
    token_out: Address,
    amount_in: U256,
    hops: usize,
    wanted: usize,
) -> bool {
    &&& routes.len() <= wanted
    &&& outputs_descend(routes)
    &&& routes_ok(routes, graph.pools(), token_in, token_out, amount_in, hop_limit(hops))
    &&& !(graph.has_token(token_in) && graph.has_token(token_out) && linked(
        pool_links(graph.pools()),
        token_in,
        token_out,
    )) ==> routes.len() == 0
    &&& graph.has_token(token_in) && graph.has_token(token_out) && token_in != token_out && hops
        >= 1 && wanted >= 1 ==> pays_every_direct_quote(
        first_output(routes),
        graph.pools(),
        token_in,
        token_out,
        amount_in@,
    )
    &&& graph.has_token(token_in) && graph.has_token(token_out) ==> routes.len() == wanted
        || forall|path: Seq<RouteHop>| #[trigger]
        is_sure_route(path, graph.pools(), token_in, token_out, amount_in, hop_limit(hops))
            ==> has_route(routes, path)
}

/// Whether `split` is the best split of `amount` over `routes`: over the one
/// route, the two routes, or the first three of more.
pub open spec fn is_searched_split(split: SplitRoute, routes: Seq<Route>, amount: U256) -> bool {
    &&& routes.len() == 1 ==> is_single_split(split, routes[0])
    &&& routes.len() == 2 ==> is_best_split_two(split, routes[0], routes[1], amount)
    &&& routes.len() >= 3 ==> is_best_split_three(split, routes[0], routes[1], routes[2], amount)
}

/// The split of a result, if it has one.
pub open spec fn split_of(found: Result<SplitRoute, RouterError>) -> Option<SplitRoute> {
    match found {
        Ok(split) => Some(split),
        Err(_) => None,
    }
}

/// Whether `after` is `before` with a clone of `value` put in under `key` at
/// the time `now`; with the cache off, whether nothing changed.
pub open spec fn stored<K, V: Clone>(
    before: Seq<CacheEntry<K, V>>,
    max_size: usize,
    key: K,
    now: u64,
    enabled: bool,
    value: V,
    after: Seq<CacheEntry<K, V>>,
) -> bool {
    if enabled {
        &&& after.len() >= 1
        &&& cloned(value, after.last().value)
        &&& after == written(before, max_size, key, after.last().value, now)
    } else {
        after == before
    }
}

/// Whether a request for a split that the cache of splits did not answer
/// gives `found` and turns the cached routes and splits `routes_before` and
/// `splits_before` into `routes_after` and `splits_after`.
///
/// An amount below the floor, and one for which the search finds no routes,
/// is answered by the one route of a request for a route, and no split is
/// cached. Otherwise the split is the best over the routes that the search
/// found; it leaves the cached routes alone, and a clone of it is cached.
pub open spec fn searched_outcome(
    graph: PoolGraph,
    routes_before: Seq<CacheEntry<RouteKey, Route>>,
    splits_before: Seq<CacheEntry<RouteKey, SplitRoute>>,
    ttl: u64,
    max_routes: usize,
    max_splits: usize,
    enabled: bool,
    token_in: Address,
    token_out: Address,
    amount_in: U256,
    hops: usize,
    splits: usize,
    now: u64,
    found: Result<SplitRoute, RouterError>,
    routes_after: Seq<CacheEntry<RouteKey, Route>>,
    splits_after: Seq<CacheEntry<RouteKey, SplitRoute>>,
) -> bool {
    let single = splits_after == splits_before && single_outcome(
        graph.pools(),
        routes_before,
        ttl,
        max_routes,
        enabled,
        token_in,
        token_out,
        amount_in,
        hops,
        now,
        found,
        routes_after,
    );
    if below_split_floor(amount_in) {
        single
    } else {
        exists|routes: Seq<Route>|
            {
                &&& #[trigger] is_top_routes(
                    routes,
                    graph,
                    token_in,
                    token_out,
                    amount_in,
                    hops,
                    wanted_routes(splits),
                )
                &&& if routes.len() == 0 {
                    single
                } else {
                    &&& found is Ok
                    &&& is_searched_split(found->Ok_0, routes, amount_in)
                    &&& routes_after == routes_before
                    &&& stored(
                        splits_before,
                        max_splits,
                        route_key(token_in, token_out, amount_in, hops),
                        now,
                        enabled,
                        found->Ok_0,
                        splits_after,
                    )
                }
            }
    }
}

/// Whether a request for a split gives `found` and turns the cached routes
/// and splits `routes_before` and `splits_before` into `routes_after` and
/// `splits_after`.
///
/// With the cache on, the key is read in the cache of splits. A hit gives a
/// clone of the cached split and leaves the routes alone. Any other request
/// goes by [`searched_outcome`], from what the read left.
pub open spec fn split_outcome(
    graph: PoolGraph,
    routes_before: Seq<CacheEntry<RouteKey, Route>>,
    splits_before: Seq<CacheEntry<RouteKey, SplitRoute>>,
    ttl: u64,
    max_routes: usize,
    max_splits: usize,
    enabled: bool,
    token_in: Address,
    token_out: Address,
    amount_in: U256,
    hops: usize,
    splits: usize,
    now: u64,
    found: Result<SplitRoute, RouterError>,
    routes_after: Seq<CacheEntry<RouteKey, Route>>,
    splits_after: Seq<CacheEntry<RouteKey, SplitRoute>>,
) -> bool {
    let key = route_key(token_in, token_out, amount_in, hops);
    let cached = cached_value(splits_before, ttl, key, now);
    let splits_read = if enabled {
        after_read(splits_before, ttl, key, now)
    } else {
        splits_before
    };
    if enabled && cached is Some {
        &&& found is Ok
        &&& cloned(cached->0, found->Ok_0)
        &&& routes_after == routes_before
        &&& splits_after == splits_read
    } else {
        searched_outcome(
            graph,
            routes_before,
            splits_read,
            ttl,
            max_routes,
            max_splits,
            enabled,
            token_in,
            token_out,
            amount_in,
            hops,
            splits,
            now,
            found,
            routes_after,
            splits_after,
        )
    }
}

/// The hop limit of a request: the one it names, or `MAX_HOPS`.
pub open spec fn hops_asked(max_hops: Option<usize>) -> usize {
    match max_hops {
        Some(h) => h,
        None => MAX_HOPS,
    }
}

/// The number of routes of a split that a request asks for: the one it names,
/// or `MAX_SPLITS`.
pub open spec fn splits_asked(max_splits: Option<usize>) -> usize {
    match max_splits {
        Some(s) => s,
        None => MAX_SPLITS,
    }
}

/// Whether a request for a route to a router over `graph` gives `found` and
/// turns the caches `before` into `after`, see [`route_outcome`].
pub open spec fn answers_route(
    graph: PoolGraph,
    before: EnhancedRouteCache,
    enabled: bool,
    token_in: Address,
    token_out: Address,
    amount_in: U256,
    hops: usize,
    now: u64,
    found: Result<Route, RouterError>,
    after: EnhancedRouteCache,
) -> bool {
    &&& after.splits() == before.splits()
    &&& after.quotes() == before.quotes()
    &&& route_outcome(
        graph.pools(),
        before.routes(),
        before.ttl(),
        before.max_routes(),
        enabled,
        token_in,
        token_out,
        amount_in,
        hops,
        now,
        found,
        after.routes(),
    )
}

/// Whether a request for a split to a router over `graph` gives `found` and
/// turns the caches `before` into `after`, see [`split_outcome`].
pub open spec fn answers_split(
    graph: PoolGraph,
    before: EnhancedRouteCache,
    enabled: bool,
    token_in: Address,
    token_out: Address,
    amount_in: U256,
    hops: usize,
    splits: usize,
    now: u64,
    found: Result<SplitRoute, RouterError>,
    after: EnhancedRouteCache,
) -> bool {
    &&& after.quotes() == before.quotes()
    &&& split_outcome(
        graph,
        before.routes(),
        before.splits(),
        before.ttl(),
        before.max_routes(),
        before.max_splits(),
        enabled,
        token_in,
        token_out,
        amount_in,
        hops,
        splits,
        now,
        found,
        after.routes(),
        after.splits(),
    )
}

/// Whether `quote` is the quote for the split that a request for a split
/// gives, or its error.
pub open spec fn answers_split_quote(
    graph: PoolGraph,
    before: EnhancedRouteCache,
    enabled: bool,
    token_in: Address,
    token_out: Address,
    amount_in: U256,
    slippage_bps: u32,
    hops: usize,
    splits: usize,
    now: u64,
    quote: Result<Quote, RouterError>,
    after: EnhancedRouteCache,
) -> bool {
    exists|found: Result<SplitRoute, RouterError>|
        {
            &&& #[trigger] answers_split(
                graph,
                before,
                enabled,
                token_in,
                token_out,
                amount_in,
                hops,
                splits,
                now,
                found,
                after,
            )
            &&& match found {
                Ok(split) => quote is Ok && quote_figures(quote->Ok_0, split, slippage_bps),
                Err(e) => quote is Err && quote->Err_0 == e,
            }
        }
}

/// Whether a request for a quote to a router over `graph` gives `quote` and
/// turns the caches `before` into `after`.
///
/// With the cache on, the key is read in the cache of quotes. A hit gives a
/// clone of the cached quote and leaves the routes alone. Any other request
/// is answered by a request for a route: its error, or the quote for the
/// whole amount down its route, a clone of which is cached.
#[verifier::opaque]
pub open spec fn answers_quote(
    graph: PoolGraph,
    before: EnhancedRouteCache,
    enabled: bool,
    token_in: Address,
    token_out: Address,
    amount_in: U256,
    slippage_bps: u32,
    hops: usize,
    now: u64,
    quote: Result<Quote, RouterError>,
    after: EnhancedRouteCache,
) -> bool {
    let key = quote_key(token_in, token_out, amount_in, slippage_bps, hops);
    let cached = cached_value(before.quotes(), before.ttl(), key, now);
    let quotes_read = if enabled {
        after_read(before.quotes(), before.ttl(), key, now)
    } else {
        before.quotes()
    };
    &&& after.splits() == before.splits()
    &&& if enabled && cached is Some {
        &&& quote is Ok
        &&& cloned(cached->0, quote->Ok_0)
        &&& after.routes() == before.routes()
        &&& after.quotes() == quotes_read
    } else {
        exists|found: Result<Route, RouterError>|
            {
                &&& #[trigger] route_outcome(
                    graph.pools(),
                    before.routes(),
                    before.ttl(),
                    before.max_routes(),
                    enabled,
                    token_in,
                    token_out,
                    amount_in,
                    hops,
                    now,
                    found,
                    after.routes(),
                )
                &&& match found {
                    Ok(route) => {
                        &&& quote is Ok
                        &&& is_single_split(quote->Ok_0.route, route)
                        &&& quote_figures(quote->Ok_0, quote->Ok_0.route, slippage_bps)
                        &&& stored(
                            quotes_read,
                            before.max_quotes(),
                            key,
                            now,
                            enabled,
                            quote->Ok_0,
                            after.quotes(),
                        )
                    },
                    Err(e) => quote is Err && quote->Err_0 == e && after.quotes() == quotes_read,
                }
            }
    }
}

proof fn lemma_percent_sum_copy(a: Seq<(Route, u8)>, b: Seq<(Route, u8)>)
    requires
        a.len() == b.len(),
        forall|i: int| 0 <= i < a.len() ==> (#[trigger] a[i]).1 == b[i].1,
    ensures
        percent_sum(a) == percent_sum(b),
    decreases a.len(),
{
    if a.len() > 0 {
        assert forall|i: int| 0 <= i < a.drop_last().len() implies (#[trigger] a.drop_last()[i]).1
            == b.drop_last()[i].1 by {
            assert(a.drop_last()[i] == a[i]);
            assert(b.drop_last()[i] == b[i]);
        }
        lemma_percent_sum_copy(a.drop_last(), b.drop_last());
        assert(a[a.len() - 1].1 == b[a.len() - 1].1);
    }
}

/// The router: a pool graph, the caches, and the searches.
pub struct Router {
    graph: PoolGraph,
    cache: EnhancedRouteCache,
    config: RouterConfig,
}

impl Router {
    #[verifier::type_invariant]
    spec fn well_formed(self) -> bool {
        forall|i: int|
            0 <= i < self.cache.splits().len() ==> split_ok((#[trigger] self.cache.splits()[i]).value)
    }

    /// The pool graph of the router.
    pub closed spec fn spec_graph(&self) -> PoolGraph {
        self.graph
    }

    /// The caches of the router.
    pub closed spec fn spec_cache(&self) -> EnhancedRouteCache {
        self.cache
    }

    /// The configuration of the router.
    pub closed spec fn spec_config(&self) -> RouterConfig {
        self.config
    }

    /// A router over `graph` with the default configuration.
    pub fn new(graph: PoolGraph) -> (r: Router)
        ensures
            r.spec_graph() == graph,
            r.spec_config() == (RouterConfig {
                enable_cache: true,
                enable_parallel: true,
                cache_ttl_seconds: 15,
                max_routes_cached: 1000,
                max_quotes_cached: 2000,
            }),
            r.spec_cache().routes().len() == 0,
            r.spec_cache().splits().len() == 0,
            r.spec_cache().quotes().len() == 0,
    {
        Router::with_config(graph, RouterConfig::default())
    }

    /// A router over `graph` with empty caches of the configured sizes.
    pub fn with_config(graph: PoolGraph, config: RouterConfig) -> (r: Router)
        ensures
            r.spec_graph() == graph,
            r.spec_config() == config,
            r.spec_cache().routes().len() == 0,
            r.spec_cache().splits().len() == 0,
            r.spec_cache().quotes().len() == 0,
            r.spec_cache().max_routes() == config.max_routes_cached,
            r.spec_cache().max_quotes() == config.max_quotes_cached,
            r.spec_cache().ttl() == config.cache_ttl_seconds,
    {
        let cache = EnhancedRouteCache::new(
            config.max_routes_cached,
            config.max_quotes_cached,
            config.cache_ttl_seconds,
        );
        Router { graph, cache, config }
    }

    /// No key occurs twice in any of the caches of the router.
    pub fn distinct_cache_keys(&self)
        ensures
            distinct_keys(self.spec_cache().routes()),
            distinct_keys(self.spec_cache().splits()),
            distinct_keys(self.spec_cache().quotes()),
    {
        self.cache.distinct();
    }

    /// The pool graph of the router.
    pub fn graph(&self) -> (g: &PoolGraph)
        ensures
            *g == self.spec_graph(),
    {
        &self.graph
    }

    /// Installs `pool` in the graph of the router, see
    /// [`PoolGraph::upsert_pool`]. What is cached stays until it is too old.
    pub fn upsert_pool(
        &mut self,
        pool: PoolEdge,
        token0_node: TokenNode,
        token1_node: TokenNode,
        now: u64,
    )
        ensures
            final(self).spec_graph().tokens() == with_token(
                with_token(old(self).spec_graph().tokens(), token0_node),
                token1_node,
            ),
            final(self).spec_graph().pools() == with_pool(old(self).spec_graph().pools(), pool),
            final(self).spec_cache() == old(self).spec_cache(),
            final(self).spec_config() == old(self).spec_config(),
    {
        proof {
            use_type_invariant(&*self);
        }
        let mut graph = PoolGraph::new();
        core::mem::swap(&mut self.graph, &mut graph);
        graph.upsert_pool(pool, token0_node, token1_node, now);
        core::mem::swap(&mut self.graph, &mut graph);
    }

    /// The best route of `amount_in` from `token_in` to `token_out` over at
    /// most `max_hops` hops, `MAX_HOPS` where none is given, at the time `now`.
    ///
    /// With the cache on, a route that is cached for the bucket of the amount
    /// and has not reached its time to live is the result. Otherwise the
    /// result is that of [`select_route`], which pays at least as much as every
    /// direct quote, and a route that was found is cached. With the searches
    /// by hop count, that route is the first of their merged routes: it pays
    /// at least as much as every route that the search cannot lose, unless
    /// five routes were found.
    pub fn find_route(
        &mut self,
        token_in: Address,
        token_out: Address,
        amount_in: U256,
        max_hops: Option<usize>,
        now: u64,
    ) -> (r: Result<Route, RouterError>)
        ensures
            final(self).spec_graph() == old(self).spec_graph(),
            final(self).spec_config() == old(self).spec_config(),
            final(self).spec_cache().same_limits(&old(self).spec_cache()),
            final(self).spec_cache().splits() == old(self).spec_cache().splits(),
            final(self).spec_cache().quotes() == old(self).spec_cache().quotes(),
            !old(self).spec_config().enable_cache ==> final(self).spec_cache().routes() == old(
                self,
            ).spec_cache().routes(),
            answers_route(
                old(self).spec_graph(),
                old(self).spec_cache(),
                old(self).spec_config().enable_cache,
                token_in,
                token_out,
                amount_in,
                hops_asked(max_hops),
                now,
                r,
                final(self).spec_cache(),
            ),
            !(old(self).spec_config().enable_cache && cached_value(
                old(self).spec_cache().routes(),
                old(self).spec_cache().ttl(),
                route_key(token_in, token_out, amount_in, hops_asked(max_hops)),
                now,
            ) is Some) && old(self).spec_config().enable_parallel && hops_asked(max_hops) > 2
                ==> heads_merged_search(
                route_of(r),
                old(self).spec_graph(),
                token_in,
                token_out,
                amount_in,
                hops_asked(max_hops),
            ),
            hops_asked(max_hops) >= 2 && has_sure_route(
                old(self).spec_graph(),
                token_in,
                token_out,
                amount_in,
                hops_asked(max_hops),
            ) ==> r is Ok,
            cache_step(
                old(self).spec_cache().routes(),
                old(self).spec_cache().ttl(),
                old(self).spec_cache().max_routes(),
                route_key(token_in, token_out, amount_in, match max_hops {
                    Some(h) => h,
                    None => MAX_HOPS,
                }),
                now,
                old(self).spec_config().enable_cache,
                route_of(r),
                final(self).spec_cache().routes(),
            ),
            ({
                let hops = match max_hops {
                    Some(h) => h,
                    None => MAX_HOPS,
                };
                let cached = cached_value(
                    old(self).spec_cache().routes(),
                    old(self).spec_cache().ttl(),
                    route_key(token_in, token_out, amount_in, hops),
                    now,
                );
                if old(self).spec_config().enable_cache && cached is Some {
                    r is Ok && cloned(cached->0, r->Ok_0)
                } else {
                    &&& r is Ok ==> is_found_route(
                        r->Ok_0,
                        old(self).spec_graph().pools(),
                        token_in,
                        token_out,
                        amount_in,
                        served_hops(hops),
                    )
                    &&& r is Err ==> r->Err_0.is_no_route(token_in, token_out)
                    &&& has_direct_quote(
                        pools_of(old(self).spec_graph().pools(), token_in),
                        token_in,
                        token_out,
                        amount_in@,
                    ) ==> r is Ok
                    &&& pays_every_direct_quote(
                        output_of(r),
                        old(self).spec_graph().pools(),
                        token_in,
                        token_out,
                        amount_in@,
                    )
                    &&& old(self).spec_config().enable_cache && r is Ok ==> final(self).spec_cache().routes().len() > 0 && final(self).spec_cache().routes().last().key
                        == route_key(token_in, token_out, amount_in, hops) && cloned(
                        r->Ok_0,
                        final(self).spec_cache().routes().last().value,
                    ) && final(self).spec_cache().routes().last().inserted_at == now
                }
            }),
    {
        proof {
            use_type_invariant(&*self);
        }
        let hops: usize = match max_hops {
            Some(h) => h,
            None => MAX_HOPS,
        };
        let mut cache = EnhancedRouteCache::new(0, 0, 0);
        core::mem::swap(&mut self.cache, &mut cache);
        let found = find_route_with(
            &self.graph,
            &mut cache,
            self.config,
            token_in,
            token_out,
            amount_in,
            hops,
            now,
        );
        core::mem::swap(&mut self.cache, &mut cache);
        found
    }

    /// The best split of `amount_in` from `token_in` to `token_out` over
    /// routes of at most `max_hops` hops and at most `max_splits` routes,
    /// `MAX_HOPS` and `MAX_SPLITS` where none is given, at the time `now`.
    ///
    /// With the cache on, a split that is cached for the bucket of the amount
    /// and has not reached its time to live is the result. An amount below
    /// 10^17 is not split: the result is the best route of
    /// [`Router::find_route`] alone. Otherwise twice `max_splits` routes are
    /// searched for and the amount is split over them; where the search finds
    /// none, the best route of [`Router::find_route`] stands alone again. The
    /// shares of the result add up to 100 over at most `MAX_SPLITS` routes.
    pub fn find_split_route(
        &mut self,
        token_in: Address,
        token_out: Address,
        amount_in: U256,
        max_hops: Option<usize>,
        max_splits: Option<usize>,
        now: u64,
    ) -> (r: Result<SplitRoute, RouterError>)
        ensures
            final(self).spec_graph() == old(self).spec_graph(),
            final(self).spec_config() == old(self).spec_config(),
            final(self).spec_cache().same_limits(&old(self).spec_cache()),
            final(self).spec_cache().quotes() == old(self).spec_cache().quotes(),
            r is Ok ==> split_ok(r->Ok_0),
            r is Err ==> r->Err_0.is_no_route(token_in, token_out),
            hops_asked(max_hops) >= 2 && has_sure_route(
                old(self).spec_graph(),
                token_in,
                token_out,
                amount_in,
                hops_asked(max_hops),
            ) ==> r is Ok,
            answers_split(
                old(self).spec_graph(),
                old(self).spec_cache(),
                old(self).spec_config().enable_cache,
                token_in,
                token_out,
                amount_in,
                hops_asked(max_hops),
                splits_asked(max_splits),
                now,
                r,
                final(self).spec_cache(),
            ),
            ({
                let hops = match max_hops {
                    Some(h) => h,
                    None => MAX_HOPS,
                };
                let cached = cached_value(
                    old(self).spec_cache().splits(),
                    old(self).spec_cache().ttl(),
                    route_key(token_in, token_out, amount_in, hops),
                    now,
                );
                if old(self).spec_config().enable_cache && cached is Some {
                    r is Ok && cloned(cached->0, r->Ok_0)
                } else {
                    &&& r is Err ==> r->Err_0.is_no_route(token_in, token_out)
                    &&& r is Ok && below_split_floor(amount_in) ==> r->Ok_0.routes@.len() == 1
                    &&& has_direct_quote(
                        pools_of(old(self).spec_graph().pools(), token_in),
                        token_in,
                        token_out,
                        amount_in@,
                    ) ==> r is Ok
                }
            }),
    {
        proof {
            use_type_invariant(&*self);
        }
        let hops: usize = match max_hops {
            Some(h) => h,
            None => MAX_HOPS,
        };
        let splits: usize = match max_splits {
            Some(s) => s,
            None => MAX_SPLITS,
        };
        let mut cache = EnhancedRouteCache::new(0, 0, 0);
        core::mem::swap(&mut self.cache, &mut cache);
        let found = find_split_route_with(
            &self.graph,
            &mut cache,
            self.config,
            token_in,
            token_out,
            amount_in,
            hops,
            splits,
            now,
        );
        core::mem::swap(&mut self.cache, &mut cache);
        found
    }

    /// The quote for the best route of `amount_in` from `token_in` to
    /// `token_out` with a slippage of `slippage_bps` basis points, at the time
    /// `now`.
    ///
    /// With the cache on, a quote that is cached for the bucket of the amount
    /// and the slippage and has not reached its time to live is the result.
    /// Otherwise the quote is made from the route of [`Router::find_route`],
    /// alone in its split, and cached.
    pub fn get_quote(
        &mut self,
        token_in: Address,
        token_out: Address,
        amount_in: U256,
        slippage_bps: u32,
        max_hops: Option<usize>,
        now: u64,
    ) -> (r: Result<Quote, RouterError>)
        ensures
            final(self).spec_graph() == old(self).spec_graph(),
            final(self).spec_config() == old(self).spec_config(),
            final(self).spec_cache().same_limits(&old(self).spec_cache()),
            final(self).spec_cache().splits() == old(self).spec_cache().splits(),
            ({
                let hops = match max_hops {
                    Some(h) => h,
                    None => MAX_HOPS,
                };
                let cached = cached_value(
                    old(self).spec_cache().quotes(),
                    old(self).spec_cache().ttl(),
                    quote_key(token_in, token_out, amount_in, slippage_bps, hops),
                    now,
                );
                if old(self).spec_config().enable_cache && cached is Some {
                    r is Ok && cloned(cached->0, r->Ok_0)
                } else {
                    &&& r is Err ==> r->Err_0.is_no_route(token_in, token_out)
                    &&& r is Ok ==> r->Ok_0.route.routes@.len() == 1
                        && r->Ok_0.amount_out_min@ == decimal_text(
                        slippage_applied(r->Ok_0.route.total_amount_out@, slippage_bps as nat),
                    ) && r->Ok_0.amount_out@ == decimal_text(r->Ok_0.route.total_amount_out@)
                        && r->Ok_0.amount_in@ == decimal_text(r->Ok_0.route.total_amount_in@)
                    &&& has_direct_quote(
                        pools_of(old(self).spec_graph().pools(), token_in),
                        token_in,
                        token_out,
                        amount_in@,
                    ) ==> r is Ok
                }
            }),
            hops_asked(max_hops) >= 2 && has_sure_route(
                old(self).spec_graph(),
                token_in,
                token_out,
                amount_in,
                hops_asked(max_hops),
            ) ==> r is Ok,
            answers_quote(
                old(self).spec_graph(),
                old(self).spec_cache(),
                old(self).spec_config().enable_cache,
                token_in,
                token_out,
                amount_in,
                slippage_bps,
                hops_asked(max_hops),
                now,
                r,
                final(self).spec_cache(),
            ),
    {
        proof {
            use_type_invariant(&*self);
        }
        let hops: usize = match max_hops {
            Some(h) => h,
            None => MAX_HOPS,
        };
        let mut cache = EnhancedRouteCache::new(0, 0, 0);
        core::mem::swap(&mut self.cache, &mut cache);
        let found = get_quote_with(
            &self.graph,
            &mut cache,
            self.config,
            token_in,
            token_out,
            amount_in,
            slippage_bps,
            hops,
            now,
        );
        core::mem::swap(&mut self.cache, &mut cache);
        found
    }

    /// The quote for the best split of `amount_in` from `token_in` to
    /// `token_out`, see [`Router::find_split_route`], with a slippage of
    /// `slippage_bps` basis points.
    pub fn get_split_quote(
        &mut self,
        token_in: Address,
        token_out: Address,
        amount_in: U256,
        slippage_bps: u32,
        max_hops: Option<usize>,
        max_splits: Option<usize>,
        now: u64,
    ) -> (r: Result<Quote, RouterError>)
        ensures
            final(self).spec_graph() == old(self).spec_graph(),
            final(self).spec_config() == old(self).spec_config(),
            final(self).spec_cache().same_limits(&old(self).spec_cache()),
            final(self).spec_cache().quotes() == old(self).spec_cache().quotes(),
            r is Ok ==> split_ok(r->Ok_0.route) && r->Ok_0.amount_out_min@ == decimal_text(
                slippage_applied(r->Ok_0.route.total_amount_out@, slippage_bps as nat),
            ) && r->Ok_0.amount_out@ == decimal_text(r->Ok_0.route.total_amount_out@)
                && r->Ok_0.amount_in@ == decimal_text(r->Ok_0.route.total_amount_in@),
            has_direct_quote(
                pools_of(old(self).spec_graph().pools(), token_in),
                token_in,
                token_out,
                amount_in@,
            ) ==> r is Ok,
            r is Err ==> r->Err_0.is_no_route(token_in, token_out),
            hops_asked(max_hops) >= 2 && has_sure_route(
                old(self).spec_graph(),
                token_in,
                token_out,
                amount_in,
                hops_asked(max_hops),
            ) ==> r is Ok,
            answers_split_quote(
                old(self).spec_graph(),
                old(self).spec_cache(),
                old(self).spec_config().enable_cache,
                token_in,
                token_out,
                amount_in,
                slippage_bps,
                hops_asked(max_hops),
                splits_asked(max_splits),
                now,
                r,
                final(self).spec_cache(),
            ),
    {
        let found = self.find_split_route(
            token_in,
            token_out,
            amount_in,
            max_hops,
            max_splits,
            now,
        );
        let ghost witness = found;
        proof {
            assert(answers_split(
                old(self).spec_graph(),
                old(self).spec_cache(),
                old(self).spec_config().enable_cache,
                token_in,
                token_out,
                amount_in,
                hops_asked(max_hops),
                splits_asked(max_splits),
                now,
                witness,
                self.spec_cache(),
            ));
        }
        match found {
            Ok(split) => Ok(Quote::from_route(split, slippage_bps)),
            Err(e) => Err(e),
        }
    }

    /// The statistics of the caches.
    pub fn cache_stats(&self) -> (s: CacheStatistics)
        ensures
            s.route_stats.size == self.spec_cache().routes().len(),
            s.split_stats.size == self.spec_cache().splits().len(),
            s.quote_stats.size == self.spec_cache().quotes().len(),
            s.route_stats.max_size == self.spec_cache().max_routes(),
            s.split_stats.max_size == self.spec_cache().max_splits(),
            s.quote_stats.max_size == self.spec_cache().max_quotes(),
    {
        self.cache.stats()
    }

    /// Empties the caches.
    pub fn clear_cache(&mut self)
        ensures
            final(self).spec_graph() == old(self).spec_graph(),
            final(self).spec_config() == old(self).spec_config(),
            final(self).spec_cache().routes().len() == 0,
            final(self).spec_cache().splits().len() == 0,
            final(self).spec_cache().quotes().len() == 0,
            final(self).spec_cache().same_limits(&old(self).spec_cache()),
    {
        let mut cache = EnhancedRouteCache::new(0, 0, 0);
        core::mem::swap(&mut self.cache, &mut cache);
        cache.clear_all();
        core::mem::swap(&mut self.cache, &mut cache);
    }
}

/// The best route for a request, read from `cache` or searched in `graph`.
#[verifier::rlimit(50)]
fn find_route_with(
    graph: &PoolGraph,
    cache: &mut EnhancedRouteCache,
    config: RouterConfig,
    token_in: Address,
    token_out: Address,
    amount_in: U256,
    hops: usize,
    now: u64,
) -> (r: Result<Route, RouterError>)
    ensures
        final(cache).same_limits(old(cache)),
        final(cache).splits() == old(cache).splits(),
        final(cache).quotes() == old(cache).quotes(),
        !config.enable_cache ==> final(cache).routes() == old(cache).routes(),
        cache_step(
            old(cache).routes(),
            old(cache).ttl(),
            old(cache).max_routes(),
            route_key(token_in, token_out, amount_in, hops),
            now,
            config.enable_cache,
            route_of(r),
            final(cache).routes(),
        ),
        route_outcome(
            graph.pools(),
            old(cache).routes(),
            old(cache).ttl(),
            old(cache).max_routes(),
            config.enable_cache,
            token_in,
            token_out,
            amount_in,
            hops,
            now,
            r,
            final(cache).routes(),
        ),
        !(config.enable_cache && cached_value(
            old(cache).routes(),
            old(cache).ttl(),
            route_key(token_in, token_out, amount_in, hops),
            now,
        ) is Some) && config.enable_parallel && hops > 2 ==> heads_merged_search(
            route_of(r),
            *graph,
            token_in,
            token_out,
            amount_in,
            hops,
        ),
        hops >= 2 && has_sure_route(*graph, token_in, token_out, amount_in, hops) ==> r is Ok,
        ({
            let cached = cached_value(
                old(cache).routes(),
                old(cache).ttl(),
                route_key(token_in, token_out, amount_in, hops),
                now,
            );
            if config.enable_cache && cached is Some {
                r is Ok && cloned(cached->0, r->Ok_0)
            } else {
                &&& r is Ok ==> is_found_route(
                    r->Ok_0,
                    graph.pools(),
                    token_in,
                    token_out,
                    amount_in,
                    served_hops(hops),
                )
                &&& r is Err ==> r->Err_0.is_no_route(token_in, token_out)
                &&& has_direct_quote(
                    pools_of(graph.pools(), token_in),
                    token_in,
                    token_out,
                    amount_in@,
                ) ==> r is Ok
                &&& pays_every_direct_quote(
                    output_of(r),
                    graph.pools(),
                    token_in,
                    token_out,
                    amount_in@,
                )
                &&& config.enable_cache && r is Ok ==> final(cache).routes().len() > 0 && final(cache).routes().last().key == route_key(token_in, token_out, amount_in, hops) && cloned(
                    r->Ok_0,
                    final(cache).routes().last().value,
                ) && final(cache).routes().last().inserted_at == now
            }
        }),
{
    proof {
        reveal(route_outcome);
    }
    let ghost before = cache.routes();
    if config.enable_cache {
        let hit = cache.get_route(token_in, token_out, amount_in, hops, now);
        proof {
            lemma_reads_after(
                before,
                cache.ttl(),
                route_key(token_in, token_out, amount_in, hops),
                now,
                cache.routes(),
                hit,
            );
        }
        match hit {
            Some(cached) => {
                return Ok(cached);
            },
            None => {},
        }
    }
    match select_route(graph, config.enable_parallel, token_in, token_out, amount_in, hops) {
        Ok(route) => {
            if config.enable_cache {
                let copy = route.clone();
                proof {
                    crate::cache::lru_cache::lemma_written_members(
                        cache.routes(),
                        cache.max_routes(),
                        route_key(token_in, token_out, amount_in, hops),
                        copy,
                        now,
                    );
                }
                cache.insert_route(token_in, token_out, amount_in, hops, copy, now);
            }
            Ok(route)
        },
        Err(e) => Err(e),
    }
}

/// Whether every split among `entries` has shares that add up to 100.
pub open spec fn splits_ok(entries: Seq<CacheEntry<RouteKey, SplitRoute>>) -> bool {
    forall|i: int| 0 <= i < entries.len() ==> split_ok((#[trigger] entries[i]).value)
}

/// The split that sends the whole amount down the best route for a request.
fn single_split_with(
    graph: &PoolGraph,
    cache: &mut EnhancedRouteCache,
    config: RouterConfig,
    token_in: Address,
    token_out: Address,
    amount_in: U256,
    hops: usize,
    now: u64,
) -> (r: Result<SplitRoute, RouterError>)
    ensures
        final(cache).same_limits(old(cache)),
        final(cache).splits() == old(cache).splits(),
        final(cache).quotes() == old(cache).quotes(),
        r is Ok ==> split_ok(r->Ok_0) && r->Ok_0.routes@.len() == 1,
        single_outcome(
            graph.pools(),
            old(cache).routes(),
            old(cache).ttl(),
            old(cache).max_routes(),
            config.enable_cache,
            token_in,
            token_out,
            amount_in,
            hops,
            now,
            r,
            final(cache).routes(),
        ),
        r is Err ==> r->Err_0.is_no_route(token_in, token_out),
        has_direct_quote(pools_of(graph.pools(), token_in), token_in, token_out, amount_in@)
            ==> r is Ok,
        hops >= 2 && has_sure_route(*graph, token_in, token_out, amount_in, hops) ==> r is Ok,
{
    let ghost before = cache.routes();
    let found = find_route_with(graph, cache, config, token_in, token_out, amount_in, hops, now);
    let ghost witness = found;
    proof {
        reveal(single_outcome);
        assert(route_outcome(
            graph.pools(),
            before,
            old(cache).ttl(),
            old(cache).max_routes(),
            config.enable_cache,
            token_in,
            token_out,
            amount_in,
            hops,
            now,
            witness,
            cache.routes(),
        ));
    }
    match found {
        Ok(route) => Ok(SplitRoute::single(route)),
        Err(e) => Err(e),
    }
}

/// The best split for a request that the cache of splits did not answer.
#[verifier::rlimit(50)]
fn search_split_with(
    graph: &PoolGraph,
    cache: &mut EnhancedRouteCache,
    config: RouterConfig,
    token_in: Address,
    token_out: Address,
    amount_in: U256,
    hops: usize,
    splits: usize,
    now: u64,
) -> (r: Result<SplitRoute, RouterError>)
    requires
        splits_ok(old(cache).splits()),
    ensures
        splits_ok(final(cache).splits()),
        final(cache).same_limits(old(cache)),
        final(cache).quotes() == old(cache).quotes(),
        r is Ok ==> split_ok(r->Ok_0),
        r is Err ==> r->Err_0.is_no_route(token_in, token_out),
        r is Ok && below_split_floor(amount_in) ==> r->Ok_0.routes@.len() == 1,
        has_direct_quote(pools_of(graph.pools(), token_in), token_in, token_out, amount_in@)
            ==> r is Ok,
        hops >= 2 && has_sure_route(*graph, token_in, token_out, amount_in, hops) ==> r is Ok,
        searched_outcome(
            *graph,
            old(cache).routes(),
            old(cache).splits(),
            old(cache).ttl(),
            old(cache).max_routes(),
            old(cache).max_splits(),
            config.enable_cache,
            token_in,
            token_out,
            amount_in,
            hops,
            splits,
            now,
            r,
            final(cache).routes(),
            final(cache).splits(),
        ),
{
    if amount_in.lt(&U256::from_u128(MIN_SPLIT_AMOUNT)) {
        return single_split_with(graph, cache, config, token_in, token_out, amount_in, hops, now);
    }
    let wanted: usize = match splits.checked_mul(2) {
        Some(n) => n,
        None => usize::MAX,
    };
    let top_routes = find_top_routes(graph, token_in, token_out, amount_in, hops, wanted);
    let ghost searched = top_routes@;
    proof {
        assert(is_top_routes(searched, *graph, token_in, token_out, amount_in, hops, wanted)) by {
            reveal(is_top_routes);
        }
        assert(wanted == wanted_routes(splits));
    }
    if top_routes.len() == 0 {
        return single_split_with(graph, cache, config, token_in, token_out, amount_in, hops, now);
    }
    optimized_split_with(top_routes, cache, config, token_in, token_out, amount_in, hops, now)
}

/// The best split of `amount_in` over `routes`, cached where the cache is on.
#[verifier::rlimit(50)]
fn optimized_split_with(
    routes: Vec<Route>,
    cache: &mut EnhancedRouteCache,
    config: RouterConfig,
    token_in: Address,
    token_out: Address,
    amount_in: U256,
    hops: usize,
    now: u64,
) -> (r: Result<SplitRoute, RouterError>)
    requires
        splits_ok(old(cache).splits()),
        routes@.len() > 0,
        !below_split_floor(amount_in),
    ensures
        splits_ok(final(cache).splits()),
        final(cache).same_limits(old(cache)),
        final(cache).quotes() == old(cache).quotes(),
        final(cache).routes() == old(cache).routes(),
        r is Ok,
        split_ok(r->Ok_0),
        is_searched_split(r->Ok_0, routes@, amount_in),
        stored(
            old(cache).splits(),
            old(cache).max_splits(),
            route_key(token_in, token_out, amount_in, hops),
            now,
            config.enable_cache,
            r->Ok_0,
            final(cache).splits(),
        ),
{
    let split = match optimize_split_route(routes, amount_in) {
        Ok(split) => split,
        Err(e) => {
            return Err(e);
        },
    };
    if config.enable_cache {
        let copy = split.clone();
        let ghost splits_before = cache.splits();
        proof {
            lemma_split_copy_ok(split, copy);
            crate::cache::lru_cache::lemma_written_members(
                splits_before,
                cache.max_splits(),
                route_key(token_in, token_out, amount_in, hops),
                copy,
                now,
            );
        }
        cache.insert_split_route(token_in, token_out, amount_in, hops, copy, now);
        proof {
            assert forall|i: int| 0 <= i < cache.splits().len() implies split_ok(
                (#[trigger] cache.splits()[i]).value,
            ) by {
                if i < cache.splits().len() - 1 {
                    assert(splits_before.contains(cache.splits()[i]));
                    let j = choose|j: int|
                        0 <= j < splits_before.len() && splits_before[j] == cache.splits()[i];
                    assert(split_ok(splits_before[j].value));
                }
            }
        }
    }
    Ok(split)
}

/// The best split for a request, read from `cache` or searched in `graph`.
#[verifier::rlimit(50)]
fn find_split_route_with(
    graph: &PoolGraph,
    cache: &mut EnhancedRouteCache,
    config: RouterConfig,
    token_in: Address,
    token_out: Address,
    amount_in: U256,
    hops: usize,
    splits: usize,
    now: u64,
) -> (r: Result<SplitRoute, RouterError>)
    requires
        splits_ok(old(cache).splits()),
    ensures
        splits_ok(final(cache).splits()),
        final(cache).same_limits(old(cache)),
        final(cache).quotes() == old(cache).quotes(),
        r is Ok ==> split_ok(r->Ok_0),
        r is Err ==> r->Err_0.is_no_route(token_in, token_out),
        hops >= 2 && has_sure_route(*graph, token_in, token_out, amount_in, hops) ==> r is Ok,
        split_outcome(
            *graph,
            old(cache).routes(),
            old(cache).splits(),
            old(cache).ttl(),
            old(cache).max_routes(),
            old(cache).max_splits(),
            config.enable_cache,
            token_in,
            token_out,
            amount_in,
            hops,
            splits,
            now,
            r,
            final(cache).routes(),
            final(cache).splits(),
        ),
        ({
            let cached = cached_value(
                old(cache).splits(),
                old(cache).ttl(),
                route_key(token_in, token_out, amount_in, hops),
                now,
            );
            if config.enable_cache && cached is Some {
                r is Ok && cloned(cached->0, r->Ok_0)
            } else {
                &&& r is Ok && below_split_floor(amount_in) ==> r->Ok_0.routes@.len() == 1
                &&& has_direct_quote(
                    pools_of(graph.pools(), token_in),
                    token_in,
                    token_out,
                    amount_in@,
                ) ==> r is Ok
            }
        }),
{
    let ghost before = cache.splits();
    let ghost key = route_key(token_in, token_out, amount_in, hops);
    if config.enable_cache {
        let found = cache.get_split_route(token_in, token_out, amount_in, hops, now);
        proof {
            lemma_reads_after(before, cache.ttl(), key, now, cache.splits(), found);
            lemma_reads_keeps_values(before, cache.ttl(), key, now, cache.splits(), found);
            assert forall|i: int| 0 <= i < cache.splits().len() implies split_ok(
                (#[trigger] cache.splits()[i]).value,
            ) by {
                let j = choose|j: int|
                    0 <= j < before.len() && (#[trigger] before[j]).value
                        == cache.splits()[i].value;
                assert(split_ok(before[j].value));
            }
        }
        match found {
            Some(cached) => {
                proof {
                    let at = key_position(before, key)->0;
                    lemma_split_copy_ok(before[at].value, cached);
                }
                return Ok(cached);
            },
            None => {},
        }
    }
    search_split_with(graph, cache, config, token_in, token_out, amount_in, hops, splits, now)
}

/// A clone of a split has its shares.
proof fn lemma_split_copy_ok(split: SplitRoute, copy: SplitRoute)
    requires
        cloned(split, copy),
        split_ok(split),
    ensures
        split_ok(copy),
{
    if split != copy {
        lemma_percent_sum_copy(copy.routes@, split.routes@);
    }
}

/// The quote for a request, read from `cache` or made from the best route.
#[verifier::rlimit(50)]
fn get_quote_with(
    graph: &PoolGraph,
    cache: &mut EnhancedRouteCache,
    config: RouterConfig,
    token_in: Address,
    token_out: Address,
    amount_in: U256,
    slippage_bps: u32,
    hops: usize,
    now: u64,
) -> (r: Result<Quote, RouterError>)
    ensures
        final(cache).same_limits(old(cache)),
        final(cache).splits() == old(cache).splits(),
        hops >= 2 && has_sure_route(*graph, token_in, token_out, amount_in, hops) ==> r is Ok,
        answers_quote(
            *graph,
            *old(cache),
            config.enable_cache,
            token_in,
            token_out,
            amount_in,
            slippage_bps,
            hops,
            now,
            r,
            *final(cache),
        ),
        ({
            let cached = cached_value(
                old(cache).quotes(),
                old(cache).ttl(),
                quote_key(token_in, token_out, amount_in, slippage_bps, hops),
                now,
            );
            if config.enable_cache && cached is Some {
                r is Ok && cloned(cached->0, r->Ok_0)
            } else {
                &&& r is Err ==> r->Err_0.is_no_route(token_in, token_out)
                &&& r is Ok ==> r->Ok_0.route.routes@.len() == 1 && r->Ok_0.amount_out_min@
                    == decimal_text(
                    slippage_applied(r->Ok_0.route.total_amount_out@, slippage_bps as nat),
                ) && r->Ok_0.amount_out@ == decimal_text(r->Ok_0.route.total_amount_out@)
                    && r->Ok_0.amount_in@ == decimal_text(r->Ok_0.route.total_amount_in@)
                &&& has_direct_quote(
                    pools_of(graph.pools(), token_in),
                    token_in,
                    token_out,
                    amount_in@,
                ) ==> r is Ok
            }
        }),
{
    proof {
        reveal(answers_quote);
    }
    let ghost before = *cache;
    let ghost key = quote_key(token_in, token_out, amount_in, slippage_bps, hops);
    if config.enable_cache {
        let hit = cache.get_quote(token_in, token_out, amount_in, slippage_bps, hops, now);
        proof {
            lemma_reads_after(before.quotes(), before.ttl(), key, now, cache.quotes(), hit);
        }
        match hit {
            Some(cached) => {
                return Ok(cached);
            },
            None => {},
        }
    }
    let found = find_route_with(graph, cache, config, token_in, token_out, amount_in, hops, now);
    let ghost witness = found;
    let ghost quotes_read = cache.quotes();
    proof {
        assert(route_outcome(
            graph.pools(),
            before.routes(),
            before.ttl(),
            before.max_routes(),
            config.enable_cache,
            token_in,
            token_out,
            amount_in,
            hops,
            now,
            witness,
            cache.routes(),
        ));
    }
    match found {
        Ok(route) => {
            let quote = Quote::from_route(SplitRoute::single(route), slippage_bps);
            if config.enable_cache {
                let copy = quote.clone();
                proof {
                    crate::cache::lru_cache::lemma_written_members(
                        quotes_read,
                        cache.max_quotes(),
                        key,
                        copy,
                        now,
                    );
                }
                cache.insert_quote(token_in, token_out, amount_in, slippage_bps, hops, copy, now);
            }
            Ok(quote)
        },
        Err(e) => Err(e),
    }
}

} // verus!
