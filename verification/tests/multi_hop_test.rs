use routing_engine::graph::{PoolEdge, PoolGraph, TokenNode};
use routing_engine::routing::multi_hop::estimate_gas;
use routing_engine::routing::pathfinder::find_best_route;
use routing_engine::routing::single_hop::calculate_price_impact;
use routing_engine::routing::{find_best_multi_hop_route, find_top_routes, Route};
use routing_engine::simulation::swap::step_through_pool;
use routing_engine::utils::{address_from_u64, Address, RouterError, U256};
use std::collections::HashSet;

fn u(n: u128) -> U256 {
    U256::from_u128(n)
}

fn create_test_graph() -> PoolGraph {
    let mut graph = PoolGraph::new();

    let token_a = address_from_u64(1);
    let token_b = address_from_u64(2);
    let token_c = address_from_u64(3);
    let token_d = address_from_u64(4);

    let node_a = TokenNode::new(token_a, "A".to_string(), 18);
    let node_b = TokenNode::new(token_b, "B".to_string(), 18);
    let node_c = TokenNode::new(token_c, "C".to_string(), 18);
    let node_d = TokenNode::new(token_d, "D".to_string(), 18);

    let pool_ab = PoolEdge::new([1u8; 32], token_a, token_b, 3000, 60, 1_000_000_000_000_000_000_000, u(1u128 << 96), 0);
    let pool_bc = PoolEdge::new([2u8; 32], token_b, token_c, 3000, 60, 1_000_000_000_000_000_000_000, u(1u128 << 96), 0);
    let pool_cd = PoolEdge::new([3u8; 32], token_c, token_d, 3000, 60, 1_000_000_000_000_000_000_000, u(1u128 << 96), 0);
    let pool_ad = PoolEdge::new([4u8; 32], token_a, token_d, 10000, 200, 500_000_000_000_000_000_000, u(1u128 << 96), 0);

    graph.upsert_pool(pool_ab, node_a.clone(), node_b.clone(), 1);
    graph.upsert_pool(pool_bc, node_b, node_c.clone(), 1);
    graph.upsert_pool(pool_cd, node_c, node_d.clone(), 1);
    graph.upsert_pool(pool_ad, node_a, node_d, 1);

    graph
}

fn assert_simple_path(route: &Route, token_in: Address, token_out: Address, amount_in: U256) {
    assert!(!route.hops.is_empty());
    assert_eq!(route.hops[0].token_in, token_in);
    assert_eq!(route.hops.last().unwrap().token_out, token_out);
    assert_eq!(route.hops[0].amount_in, amount_in);
    assert_eq!(route.total_amount_in, amount_in);
    assert_eq!(route.total_amount_out, route.hops.last().unwrap().amount_out);
    let mut visited = HashSet::new();
    visited.insert(route.hops[0].token_in);
    let mut gas = 0;
    for (i, hop) in route.hops.iter().enumerate() {
        assert_eq!(hop.pool.other_token(hop.token_in), Some(hop.token_out));
        assert!(visited.insert(hop.token_out), "Route contains cycle");
        if i + 1 < route.hops.len() {
            assert_eq!(hop.token_out, route.hops[i + 1].token_in);
            assert_eq!(hop.amount_out, route.hops[i + 1].amount_in);
        }
        let step = step_through_pool(&hop.pool, hop.amount_in, hop.token_in == hop.pool.token0);
        assert_eq!(step.amount_out, hop.amount_out);
        assert!(hop.amount_out >= u(100));
        gas += estimate_gas(&hop.pool);
    }
    assert_eq!(route.gas_estimate, gas);
    assert_eq!(route.price_impact, calculate_price_impact(amount_in, route.total_amount_out));
}

#[test]
fn test_multi_hop_routing() {
    let graph = create_test_graph();

    let token_a = address_from_u64(1);
    let token_d = address_from_u64(4);

    let amount_in = u(1_000_000_000_000_000_000u128);

    let route = find_best_multi_hop_route(&graph, token_a, token_d, amount_in, 4)
        .expect("Should find route");

    assert!(route.hops.len() > 0);
    assert!(route.hops.len() <= 4);
    assert!(route.total_amount_out > U256::zero());
}

#[test]
fn test_find_top_routes() {
    let graph = create_test_graph();

    let token_a = address_from_u64(1);
    let token_d = address_from_u64(4);

    let amount_in = u(1_000_000_000_000_000_000u128);

    let routes = find_top_routes(&graph, token_a, token_d, amount_in, 4, 3);

    assert!(routes.len() > 0);

    for i in 0..routes.len() - 1 {
        assert!(routes[i].total_amount_out >= routes[i + 1].total_amount_out);
    }
}

#[test]
fn test_no_cycles() {
    let graph = create_test_graph();

    let token_a = address_from_u64(1);
    let token_d = address_from_u64(4);

    let amount_in = u(1_000_000_000_000_000_000u128);

    let routes = find_top_routes(&graph, token_a, token_d, amount_in, 4, 5);

    for route in &routes {
        let mut visited = HashSet::new();
        visited.insert(route.hops[0].token_in);

        for hop in &route.hops {
            assert!(!visited.contains(&hop.token_out), "Route contains cycle");
            visited.insert(hop.token_out);
        }
    }
}

#[test]
fn test_max_hops_limit() {
    let graph = create_test_graph();

    let token_a = address_from_u64(1);
    let token_d = address_from_u64(4);

    let amount_in = u(1_000_000_000_000_000_000u128);

    let routes = find_top_routes(&graph, token_a, token_d, amount_in, 2, 5);

    for route in &routes {
        assert!(route.hops.len() <= 2, "Route exceeds max hops");
    }
}

#[test]
fn test_top_routes_exact_result() {
    let graph = create_test_graph();
    let a = address_from_u64(1);
    let d = address_from_u64(4);
    let amount = u(1_000_000_000_000_000_000);
    let routes = find_top_routes(&graph, a, d, amount, 4, 3);
    assert_eq!(routes.len(), 2);
    assert_eq!(routes[0].hops.len(), 3);
    assert_eq!(routes[0].total_amount_out, u(988_080_481_460_066_918));
    assert_eq!(routes[0].hops[0].amount_out, u(996_006_981_039_903_216));
    assert_eq!(routes[0].hops[1].amount_out, u(992_033_851_673_014_362));
    assert_eq!(routes[0].gas_estimate, 300_000);
    assert_eq!(routes[1].hops.len(), 1);
    assert_eq!(routes[1].total_amount_out, u(988_043_673_526_417_692));
    assert_eq!(routes[1].gas_estimate, 100_000);
    for route in &routes {
        assert_simple_path(route, a, d, amount);
    }
    // The other way round every swap pays token1 in.
    let back = find_top_routes(&graph, d, a, amount, 4, 3);
    assert_eq!(back.len(), 2);
    for route in &back {
        assert_simple_path(route, d, a, amount);
    }
}

#[test]
fn test_top_routes_limits() {
    let graph = create_test_graph();
    let a = address_from_u64(1);
    let d = address_from_u64(4);
    let amount = u(1_000_000_000_000_000_000);
    assert_eq!(find_top_routes(&graph, a, d, amount, 4, 1).len(), 1);
    assert_eq!(find_top_routes(&graph, a, d, amount, 4, 0).len(), 0);
    assert_eq!(find_top_routes(&graph, a, d, amount, 0, 5).len(), 0);
    let two = find_top_routes(&graph, a, d, amount, 2, 5);
    assert_eq!(two.len(), 1);
    assert_eq!(two[0].hops.len(), 1);
    // The hop limit never exceeds the engine's four.
    let many = find_top_routes(&graph, a, d, amount, 100, 5);
    assert_eq!(many.len(), 2);
    assert!(many.iter().all(|r| r.hops.len() <= 4));
    // A token is no route to itself, and unknown tokens have none.
    assert!(find_top_routes(&graph, a, a, amount, 4, 5).is_empty());
    assert!(find_top_routes(&graph, a, address_from_u64(9), amount, 4, 5).is_empty());
    assert!(find_top_routes(&graph, address_from_u64(9), d, amount, 4, 5).is_empty());
    assert!(find_top_routes(&PoolGraph::new(), a, d, amount, 4, 5).is_empty());
    // Dust: nothing reaches the floor of 100 units.
    assert!(find_top_routes(&graph, a, d, u(50), 4, 5).is_empty());
}

#[test]
fn test_best_multi_hop_route_and_errors() {
    let graph = create_test_graph();
    let a = address_from_u64(1);
    let d = address_from_u64(4);
    let amount = u(1_000_000_000_000_000_000);
    let best = find_best_multi_hop_route(&graph, a, d, amount, 4).unwrap();
    assert_eq!(best.total_amount_out, u(988_080_481_460_066_918));
    let direct = find_best_multi_hop_route(&graph, a, d, amount, 1).unwrap();
    assert_eq!(direct.total_amount_out, u(988_043_673_526_417_692));
    match find_best_multi_hop_route(&graph, a, address_from_u64(9), amount, 4) {
        Err(RouterError::NoRouteFound { from, to }) => {
            assert_eq!(from, a);
            assert_eq!(to, address_from_u64(9));
        }
        _ => panic!("Expected NoRouteFound"),
    }
    let found = find_best_route(&graph, a, d, amount, 4).unwrap();
    assert_eq!(found.total_amount_out, best.total_amount_out);
    assert!(matches!(
        find_best_route(&PoolGraph::new(), a, d, amount, 4),
        Err(RouterError::NoRouteFound { .. })
    ));
}

#[test]
fn test_simple_swap_simulation() {
    let pool = PoolEdge::new(
        [0u8; 32],
        address_from_u64(1),
        address_from_u64(2),
        3000,
        60,
        1_000_000,
        u(1u128 << 96),
        0,
    );

    let amount_in = u(1_000_000);
    let amount_out = step_through_pool(&pool, amount_in, true).amount_out;

    assert!(amount_out < amount_in);
}

#[test]
fn test_hop_gas() {
    let a = address_from_u64(1);
    let b = address_from_u64(2);
    let plain = PoolEdge::new([1u8; 32], a, b, 10_000, 60, 1, u(1), 0);
    let hooked = PoolEdge::with_hook([1u8; 32], a, b, 3000, 60, 1, u(1), 0, address_from_u64(9));
    assert_eq!(estimate_gas(&plain), 100_000);
    assert_eq!(estimate_gas(&hooked), 150_000);
}

#[test]
fn test_search_pays_at_least_every_direct_quote() {
    let a = address_from_u64(1);
    let d = address_from_u64(4);
    let amounts = [1_000u128, 1_000_000_000, 1_000_000_000_000_000_000, 50_000_000_000_000_000_000];
    for amount in amounts {
        let graph = create_test_graph();
        let direct = graph.get_pools_for_token(a);
        for top_n in [1usize, 2, 5] {
            let routes = find_top_routes(&graph, a, d, u(amount), 4, top_n);
            let best = find_best_multi_hop_route(&graph, a, d, u(amount), 4);
            let legacy = find_best_route(&graph, a, d, u(amount), 4);
            for pool in direct.iter() {
                if pool.other_token(a) != Some(d) {
                    continue;
                }
                let quoted = step_through_pool(pool, u(amount), a == pool.token0).amount_out;
                if quoted < u(100) {
                    continue;
                }
                assert!(!routes.is_empty());
                assert!(routes[0].total_amount_out >= quoted);
                assert!(best.as_ref().unwrap().total_amount_out >= quoted);
                assert!(legacy.as_ref().unwrap().total_amount_out >= quoted);
            }
        }
    }
}
