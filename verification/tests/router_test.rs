use routing_engine::graph::{PoolEdge, PoolGraph, TokenNode};
use routing_engine::routing::router::select_route;
use routing_engine::routing::{Router, RouterConfig};
use routing_engine::utils::{address_from_u64, RouterError, U256};

fn u(n: u128) -> U256 {
    U256::from_u128(n)
}

fn create_test_graph() -> PoolGraph {
    let mut graph = PoolGraph::new();

    let token_a = address_from_u64(1);
    let token_b = address_from_u64(2);
    let token_c = address_from_u64(3);

    let node_a = TokenNode::new(token_a, "A".to_string(), 18);
    let node_b = TokenNode::new(token_b, "B".to_string(), 18);
    let node_c = TokenNode::new(token_c, "C".to_string(), 18);

    let pool_ac_1 = PoolEdge::new([1u8; 32], token_a, token_c, 3000, 60, 500_000_000_000_000_000_000, u(1u128 << 96), 0);
    let pool_ac_2 = PoolEdge::new([2u8; 32], token_a, token_c, 500, 10, 1_000_000_000_000_000_000_000, u(1u128 << 96), 0);
    let pool_ab = PoolEdge::new([3u8; 32], token_a, token_b, 3000, 60, 2_000_000_000_000_000_000_000, u(1u128 << 96), 0);
    let pool_bc = PoolEdge::new([4u8; 32], token_b, token_c, 3000, 60, 2_000_000_000_000_000_000_000, u(1u128 << 96), 0);

    graph.upsert_pool(pool_ac_1, node_a.clone(), node_c.clone(), 1);
    graph.upsert_pool(pool_ac_2, node_a.clone(), node_c.clone(), 1);
    graph.upsert_pool(pool_ab, node_a, node_b.clone(), 1);
    graph.upsert_pool(pool_bc, node_b, node_c, 1);

    graph
}

#[test]
fn test_router_with_cache() {
    let graph = create_test_graph();
    let mut router = Router::new(graph);

    let token_a = address_from_u64(1);
    let token_c = address_from_u64(3);
    let amount = u(1_000_000_000_000_000_000u128);

    let route1 = router.find_route(token_a, token_c, amount, Some(4), 0).expect("Should find route");
    let route2 = router.find_route(token_a, token_c, amount, Some(4), 1).expect("Should find route");

    assert_eq!(route1.total_amount_out, route2.total_amount_out);

    let stats = router.cache_stats();
    assert_eq!(stats.route_stats.size, 1);
    assert_eq!(stats.route_stats.total_accesses, 1);
}

#[test]
fn test_router_parallel_mode() {
    let graph = create_test_graph();

    let config = RouterConfig { enable_parallel: true, ..Default::default() };

    let mut router = Router::with_config(graph, config);

    let token_a = address_from_u64(1);
    let token_c = address_from_u64(3);
    let amount = u(1_000_000_000_000_000_000u128);

    let route = router.find_route(token_a, token_c, amount, Some(4), 0).expect("Should find route");

    assert!(route.total_amount_out > U256::zero());
}

#[test]
fn test_router_config_defaults() {
    let config = RouterConfig::default();
    assert!(config.enable_cache);
    assert!(config.enable_parallel);
    assert_eq!(config.cache_ttl_seconds, 15);
    assert_eq!(config.max_routes_cached, 1000);
    assert_eq!(config.max_quotes_cached, 2000);
    let router = Router::new(PoolGraph::new());
    let stats = router.cache_stats();
    assert_eq!(stats.route_stats.max_size, 1000);
    assert_eq!(stats.split_stats.max_size, 500);
    assert_eq!(stats.quote_stats.max_size, 2000);
    assert_eq!(router.graph().stats().pool_count, 0);
}

#[test]
fn test_strategies_agree_on_the_best_output() {
    let graph = create_test_graph();
    let a = address_from_u64(1);
    let c = address_from_u64(3);
    let amount = u(1_000_000_000_000_000_000);
    let direct = select_route(&graph, true, a, c, amount, 1).unwrap();
    assert_eq!(direct.hops.len(), 1);
    assert_eq!(direct.hops[0].pool.pool_id, [1u8; 32]);
    let by_hop_count = select_route(&graph, true, a, c, amount, 4).unwrap();
    let one_after_the_other = select_route(&graph, false, a, c, amount, 4).unwrap();
    assert_eq!(by_hop_count.total_amount_out, one_after_the_other.total_amount_out);
    assert!(by_hop_count.total_amount_out >= direct.total_amount_out);
    let two = select_route(&graph, true, a, c, amount, 2).unwrap();
    assert!(two.hops.len() <= 2);
    assert!(two.total_amount_out >= direct.total_amount_out);
    // Without a hop limit a direct route is still tried.
    let zero = select_route(&graph, true, a, c, amount, 0).unwrap();
    assert_eq!(zero.hops.len(), 1);
    for parallel in [true, false] {
        for hops in [0, 1, 2, 3, 4] {
            match select_route(&graph, parallel, a, address_from_u64(9), amount, hops) {
                Err(RouterError::NoRouteFound { from, to }) => {
                    assert_eq!(from, a);
                    assert_eq!(to, address_from_u64(9));
                }
                _ => panic!("Expected NoRouteFound"),
            }
        }
    }
}

#[test]
fn test_multi_hop_wins_where_it_pays_more() {
    let a = address_from_u64(1);
    let b = address_from_u64(2);
    let c = address_from_u64(3);
    let node = |x, s: &str| TokenNode::new(x, s.to_string(), 18);
    let mut graph = PoolGraph::new();
    // A poor direct pool and a rich way round.
    graph.upsert_pool(PoolEdge::new([1u8; 32], a, c, 10_000, 200, 500_000_000_000_000_000_000, u(1u128 << 96), 0), node(a, "A"), node(c, "C"), 1);
    graph.upsert_pool(PoolEdge::new([2u8; 32], a, b, 100, 200, 5_000_000_000_000_000_000_000, u(1u128 << 96), 0), node(a, "A"), node(b, "B"), 1);
    graph.upsert_pool(PoolEdge::new([3u8; 32], b, c, 100, 200, 5_000_000_000_000_000_000_000, u(1u128 << 96), 0), node(b, "B"), node(c, "C"), 1);
    let amount = u(1_000_000_000_000_000_000);
    let direct = select_route(&graph, false, a, c, amount, 1).unwrap();
    let best = select_route(&graph, false, a, c, amount, 2).unwrap();
    assert_eq!(direct.hops.len(), 1);
    assert_eq!(best.hops.len(), 2);
    assert!(best.total_amount_out > direct.total_amount_out);
    let parallel = select_route(&graph, true, a, c, amount, 3).unwrap();
    assert_eq!(parallel.total_amount_out, best.total_amount_out);
}

#[test]
fn test_cache_serves_the_bucket_until_it_is_too_old() {
    let mut router = Router::new(create_test_graph());
    let a = address_from_u64(1);
    let c = address_from_u64(3);
    let first = router.find_route(a, c, u(1_000_000_000_000_000_000), Some(1), 100).unwrap();
    // Another amount of the same bucket is served from the cache.
    let second = router.find_route(a, c, u(1_040_000_000_000_000_000), Some(1), 114).unwrap();
    assert_eq!(second.total_amount_in, first.total_amount_in);
    assert_eq!(second.total_amount_out, first.total_amount_out);
    // After fifteen seconds it is searched for again.
    let third = router.find_route(a, c, u(1_040_000_000_000_000_000), Some(1), 115).unwrap();
    assert_eq!(third.total_amount_in, u(1_040_000_000_000_000_000));
    // Another hop limit is another key.
    let other = router.find_route(a, c, u(1_040_000_000_000_000_000), None, 115).unwrap();
    assert_eq!(other.total_amount_in, u(1_040_000_000_000_000_000));
    assert_eq!(router.cache_stats().route_stats.size, 2);
    router.clear_cache();
    assert_eq!(router.cache_stats().route_stats.size, 0);
    assert_eq!(router.cache_stats().route_stats.max_size, 1000);
}

#[test]
fn test_router_without_cache() {
    let config = RouterConfig { enable_cache: false, enable_parallel: false, ..Default::default() };
    let mut router = Router::with_config(create_test_graph(), config);
    let a = address_from_u64(1);
    let c = address_from_u64(3);
    let first = router.find_route(a, c, u(1_000_000_000_000_000_000), Some(2), 0).unwrap();
    let second = router.find_route(a, c, u(1_040_000_000_000_000_000), Some(2), 0).unwrap();
    assert_eq!(first.total_amount_in, u(1_000_000_000_000_000_000));
    assert_eq!(second.total_amount_in, u(1_040_000_000_000_000_000));
    let stats = router.cache_stats();
    assert_eq!(stats.route_stats.size, 0);
    router.get_quote(a, c, u(1_000_000_000_000_000_000), 50, Some(2), 0).unwrap();
    router.find_split_route(a, c, u(1_000_000_000_000_000_000), Some(2), Some(2), 0).unwrap();
    let stats = router.cache_stats();
    assert_eq!(stats.quote_stats.size, 0);
    assert_eq!(stats.split_stats.size, 0);
}

#[test]
fn test_router_sees_new_pools() {
    let mut router = Router::new(PoolGraph::new());
    let a = address_from_u64(1);
    let b = address_from_u64(2);
    let amount = u(1_000_000_000_000_000_000);
    assert!(router.find_route(a, b, amount, Some(1), 0).is_err());
    let pool = PoolEdge::new([1u8; 32], a, b, 3000, 60, 1_000_000_000_000_000_000_000, u(1u128 << 96), 0);
    router.upsert_pool(pool, TokenNode::new(a, "A".to_string(), 18), TokenNode::new(b, "B".to_string(), 18), 5);
    assert_eq!(router.graph().stats().pool_count, 1);
    assert_eq!(router.graph().stats().last_update, 5);
    let route = router.find_route(a, b, amount, Some(1), 0).unwrap();
    assert_eq!(route.total_amount_out, u(996_006_981_039_903_216));
}

#[test]
fn test_quotes() {
    let mut router = Router::new(create_test_graph());
    let a = address_from_u64(1);
    let c = address_from_u64(3);
    let amount = u(1_000_000_000_000_000_000);
    let quote = router.get_quote(a, c, amount, 50, Some(1), 0).unwrap();
    assert_eq!(quote.amount_in, "1000000000000000000");
    assert_eq!(quote.amount_out, quote.route.total_amount_out.to_decimal_string());
    let out = quote.route.total_amount_out;
    assert_eq!(
        quote.amount_out_min,
        out.wrapping_mul(u(9950)).div(u(10000)).to_decimal_string()
    );
    assert_eq!(quote.route.routes.len(), 1);
    assert_eq!(quote.route.routes[0].1, 100);
    assert_eq!(quote.gas_estimate, 100_000);
    assert_eq!(quote.gas_estimate_usd, 3_000_000);
    // The same request is answered from the cache; another slippage is not.
    let again = router.get_quote(a, c, amount, 50, Some(1), 1).unwrap();
    assert_eq!(again.amount_out, quote.amount_out);
    assert_eq!(router.cache_stats().quote_stats.total_accesses, 1);
    let wider = router.get_quote(a, c, amount, 100, Some(1), 1).unwrap();
    assert_eq!(wider.amount_out, quote.amount_out);
    assert_ne!(wider.amount_out_min, quote.amount_out_min);
    assert_eq!(router.cache_stats().quote_stats.size, 2);
    assert!(matches!(
        router.get_quote(a, address_from_u64(9), amount, 50, Some(4), 1),
        Err(RouterError::NoRouteFound { .. })
    ));
    let split = router.get_split_quote(a, c, amount, 50, Some(4), Some(3), 2).unwrap();
    let sum: u32 = split.route.routes.iter().map(|(_, pct)| *pct as u32).sum();
    assert_eq!(sum, 100);
    assert!(matches!(
        router.get_split_quote(a, address_from_u64(9), amount, 50, Some(4), Some(3), 2),
        Err(RouterError::NoRouteFound { .. })
    ));
}

#[test]
fn test_split_routes_of_the_router() {
    let mut router = Router::new(create_test_graph());
    let a = address_from_u64(1);
    let c = address_from_u64(3);
    // Below 10^17 the amount is not split.
    let small = router.find_split_route(a, c, u(99_999_999_999_999_999), Some(4), Some(3), 0).unwrap();
    assert_eq!(small.routes.len(), 1);
    assert_eq!(small.routes[0].1, 100);
    let large = router.find_split_route(a, c, u(50_000_000_000_000_000_000), Some(4), Some(3), 0).unwrap();
    let sum: u32 = large.routes.iter().map(|(_, pct)| *pct as u32).sum();
    assert_eq!(sum, 100);
    assert!(large.routes.len() >= 1 && large.routes.len() <= 3);
    assert_eq!(large.total_amount_in, u(50_000_000_000_000_000_000));
    let mut total = U256::zero();
    for (route, pct) in &large.routes {
        assert!(*pct > 0);
        total = total.wrapping_add(route.total_amount_out);
    }
    assert_eq!(total, large.total_amount_out);
    // The split is cached by the bucket of its amount.
    let cached = router.find_split_route(a, c, u(50_900_000_000_000_000_000), Some(4), Some(3), 1).unwrap();
    assert_eq!(cached.total_amount_in, u(50_000_000_000_000_000_000));
    assert_eq!(router.cache_stats().split_stats.size, 1);
    assert_eq!(router.cache_stats().split_stats.total_accesses, 1);
    // No splits asked for: the search finds nothing, the best route stands alone.
    let alone = router.find_split_route(a, c, u(7_000_000_000_000_000_000), Some(4), Some(0), 1).unwrap();
    assert_eq!(alone.routes.len(), 1);
    assert!(matches!(
        router.find_split_route(a, address_from_u64(9), u(7_000_000_000_000_000_000), None, None, 1),
        Err(RouterError::NoRouteFound { .. })
    ));
    assert!(matches!(
        router.find_split_route(a, address_from_u64(9), u(7), None, None, 1),
        Err(RouterError::NoRouteFound { .. })
    ));
}

#[test]
fn test_no_route_leaves_the_cache_empty() {
    let mut router = Router::new(PoolGraph::new());
    let a = address_from_u64(1);
    let b = address_from_u64(2);
    let result = router.find_route(a, b, u(1000), Some(1), 5);
    match result {
        Err(RouterError::NoRouteFound { from, to }) => {
            assert_eq!(from, a);
            assert_eq!(to, b);
        },
        _ => panic!("no route is an error"),
    }
    let stats = router.cache_stats();
    assert_eq!(stats.route_stats.size, 0);
    assert_eq!(stats.split_stats.size, 0);
    assert_eq!(stats.quote_stats.size, 0);
    assert!(router.find_split_route(a, b, u(1000), None, None, 5).is_err());
    assert!(router.get_quote(a, b, u(1000), 50, None, 5).is_err());
    assert!(router.get_split_quote(a, b, u(1000), 50, None, None, 5).is_err());
    let stats = router.cache_stats();
    assert_eq!(stats.route_stats.size, 0);
    assert_eq!(stats.split_stats.size, 0);
    assert_eq!(stats.quote_stats.size, 0);
}

#[test]
fn test_repeated_request_is_served_as_cached() {
    let mut router = Router::new(create_test_graph());
    let a = address_from_u64(1);
    let c = address_from_u64(3);
    let amount = u(1_000_000_000_000_000_000);
    let first = router.find_route(a, c, amount, Some(3), 100).unwrap();
    // The graph changes, the cached route does not.
    router.upsert_pool(
        PoolEdge::new([9u8; 32], a, c, 100, 200, 9_000_000_000_000_000_000_000, u(1u128 << 96), 0),
        TokenNode::new(a, "A".to_string(), 18),
        TokenNode::new(c, "C".to_string(), 18),
        101,
    );
    let second = router.find_route(a, c, amount, Some(3), 110).unwrap();
    assert_eq!(second.total_amount_in, first.total_amount_in);
    assert_eq!(second.total_amount_out, first.total_amount_out);
    assert_eq!(second.price_impact, first.price_impact);
    assert_eq!(second.gas_estimate, first.gas_estimate);
    assert_eq!(second.hops.len(), first.hops.len());
    for (x, y) in second.hops.iter().zip(first.hops.iter()) {
        assert_eq!(x.pool.pool_id, y.pool.pool_id);
        assert_eq!(x.amount_out, y.amount_out);
    }
    assert_eq!(router.cache_stats().route_stats.size, 1);
    // Once the entry is too old the new pool is seen.
    let third = router.find_route(a, c, amount, Some(3), 115).unwrap();
    assert!(third.total_amount_out > first.total_amount_out);
    assert_eq!(third.hops[0].pool.pool_id, [9u8; 32]);
}

#[test]
fn test_split_quote_is_the_quote_of_the_split() {
    let mut router = Router::with_config(
        create_test_graph(),
        RouterConfig {
            enable_cache: false,
            enable_parallel: true,
            cache_ttl_seconds: 15,
            max_routes_cached: 10,
            max_quotes_cached: 10,
        },
    );
    let a = address_from_u64(1);
    let c = address_from_u64(3);
    for amount in [10_000_000_000_000_000u128, 5_000_000_000_000_000_000] {
        let split = router.find_split_route(a, c, u(amount), Some(3), Some(3), 7).unwrap();
        let quote = router.get_split_quote(a, c, u(amount), 100, Some(3), Some(3), 7).unwrap();
        assert_eq!(quote.route.routes.len(), split.routes.len());
        assert_eq!(quote.route.total_amount_in, split.total_amount_in);
        assert_eq!(quote.route.total_amount_out, split.total_amount_out);
        assert_eq!(quote.amount_in, split.total_amount_in.to_decimal_string());
        assert_eq!(quote.amount_out, split.total_amount_out.to_decimal_string());
        assert_eq!(quote.price_impact, split.combined_price_impact);
        assert_eq!(quote.gas_estimate, split.total_gas_estimate);
        assert_eq!(split.total_amount_in, u(amount));
        let shares: u32 = split.routes.iter().map(|(_, share)| *share as u32).sum();
        assert_eq!(shares, 100);
        for ((route, share), (copy, copy_share)) in split.routes.iter().zip(quote.route.routes.iter()) {
            assert_eq!(share, copy_share);
            assert_eq!(route.total_amount_out, copy.total_amount_out);
            assert_eq!(route.hops.len(), copy.hops.len());
        }
    }
    // Below the floor the split is the one route of a request for a route.
    let small = u(10_000_000_000_000_000);
    let split = router.find_split_route(a, c, small, Some(3), Some(3), 7).unwrap();
    let route = router.find_route(a, c, small, Some(3), 7).unwrap();
    assert_eq!(split.routes.len(), 1);
    assert_eq!(split.routes[0].1, 100);
    assert_eq!(split.routes[0].0.total_amount_out, route.total_amount_out);
    assert_eq!(split.routes[0].0.hops.len(), route.hops.len());
    assert_eq!(split.total_amount_out, route.total_amount_out);
    assert_eq!(split.combined_price_impact, route.price_impact);
    assert_eq!(split.total_gas_estimate, route.gas_estimate);
}

#[test]
fn test_best_route_of_the_chain_has_three_hops() {
    let mut graph = PoolGraph::new();
    let t = |n: u64| address_from_u64(n);
    let node = |n: u64, s: &str| TokenNode::new(address_from_u64(n), s.to_string(), 18);
    let q96 = u(1u128 << 96);
    graph.upsert_pool(PoolEdge::new([1u8; 32], t(1), t(2), 3000, 60, 1_000_000_000_000_000_000_000, q96, 0), node(1, "A"), node(2, "B"), 1);
    graph.upsert_pool(PoolEdge::new([2u8; 32], t(2), t(3), 3000, 60, 1_000_000_000_000_000_000_000, q96, 0), node(2, "B"), node(3, "C"), 1);
    graph.upsert_pool(PoolEdge::new([3u8; 32], t(3), t(4), 3000, 60, 1_000_000_000_000_000_000_000, q96, 0), node(3, "C"), node(4, "D"), 1);
    graph.upsert_pool(PoolEdge::new([4u8; 32], t(1), t(4), 10000, 200, 500_000_000_000_000_000_000, q96, 0), node(1, "A"), node(4, "D"), 1);
    let mut router = Router::new(graph);
    let amount = u(1_000_000_000_000_000_000);
    let route = router.find_route(t(1), t(4), amount, Some(4), 10).unwrap();
    assert_eq!(route.hops.len(), 3);
    assert_eq!(route.total_amount_out, u(988_080_481_460_066_918));
    let direct = router.find_route(t(1), t(4), amount, Some(1), 10).unwrap();
    assert_eq!(direct.hops.len(), 1);
    assert!(direct.total_amount_out < route.total_amount_out);
    assert!(route.total_amount_out < route.total_amount_in);
}
