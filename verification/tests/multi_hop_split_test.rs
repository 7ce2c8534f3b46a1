use routing_engine::graph::{PoolEdge, PoolGraph, TokenNode};
use routing_engine::routing::{
    find_best_multi_hop_route, find_top_routes, optimize_split_route, Router,
};
use routing_engine::utils::{address_from_u64, Address, U256};

fn u(n: u128) -> U256 {
    U256::from_u128(n)
}

fn create_complex_graph() -> PoolGraph {
    let mut graph = PoolGraph::new();

    let tokens: Vec<Address> = (1..=5).map(|i| address_from_u64(i)).collect();

    let nodes: Vec<TokenNode> = tokens
        .iter()
        .enumerate()
        .map(|(i, addr)| TokenNode::new(*addr, format!("TOKEN{}", (b'A' + i as u8) as char), 18))
        .collect();

    let pool_ab = PoolEdge::new([1u8; 32], tokens[0], tokens[1], 3000, 60, 2_000_000_000_000_000_000_000, u(1u128 << 96), 0);
    let pool_be = PoolEdge::new([2u8; 32], tokens[1], tokens[4], 3000, 60, 2_000_000_000_000_000_000_000, u(1u128 << 96), 0);
    let pool_ac = PoolEdge::new([3u8; 32], tokens[0], tokens[2], 500, 10, 5_000_000_000_000_000_000_000, u(1u128 << 96), 0);
    let pool_ce = PoolEdge::new([4u8; 32], tokens[2], tokens[4], 500, 10, 5_000_000_000_000_000_000_000, u(1u128 << 96), 0);
    let pool_ad = PoolEdge::new([5u8; 32], tokens[0], tokens[3], 3000, 60, 500_000_000_000_000_000_000, u(1u128 << 96), 0);
    let pool_de = PoolEdge::new([6u8; 32], tokens[3], tokens[4], 3000, 60, 500_000_000_000_000_000_000, u(1u128 << 96), 0);
    let pool_bc = PoolEdge::new([7u8; 32], tokens[1], tokens[2], 3000, 60, 3_000_000_000_000_000_000_000, u(1u128 << 96), 0);
    let pool_ae = PoolEdge::new([8u8; 32], tokens[0], tokens[4], 10000, 200, 800_000_000_000_000_000_000, u(1u128 << 96), 0);

    graph.upsert_pool(pool_ab, nodes[0].clone(), nodes[1].clone(), 1);
    graph.upsert_pool(pool_be, nodes[1].clone(), nodes[4].clone(), 1);
    graph.upsert_pool(pool_ac, nodes[0].clone(), nodes[2].clone(), 1);
    graph.upsert_pool(pool_ce, nodes[2].clone(), nodes[4].clone(), 1);
    graph.upsert_pool(pool_ad, nodes[0].clone(), nodes[3].clone(), 1);
    graph.upsert_pool(pool_de, nodes[3].clone(), nodes[4].clone(), 1);
    graph.upsert_pool(pool_bc, nodes[1].clone(), nodes[2].clone(), 1);
    graph.upsert_pool(pool_ae, nodes[0].clone(), nodes[4].clone(), 1);

    graph
}

#[test]
fn test_multi_hop_finds_all_paths() {
    let graph = create_complex_graph();

    let token_a = address_from_u64(1);
    let token_e = address_from_u64(5);

    let amount = u(1_000_000_000_000_000_000u128);

    let routes = find_top_routes(&graph, token_a, token_e, amount, 4, 5);

    assert!(routes.len() > 1, "Should find multiple routes");
    assert!(routes.len() <= 5, "Should not exceed requested count");

    for i in 0..routes.len() - 1 {
        assert!(
            routes[i].total_amount_out >= routes[i + 1].total_amount_out,
            "Routes should be sorted by output"
        );
    }
}

#[test]
fn test_multi_hop_respects_max_hops() {
    let graph = create_complex_graph();

    let token_a = address_from_u64(1);
    let token_e = address_from_u64(5);

    let amount = u(1_000_000_000_000_000_000u128);

    let routes = find_top_routes(&graph, token_a, token_e, amount, 2, 10);

    for route in &routes {
        assert!(route.hops.len() <= 2, "Route should not exceed max_hops of 2");
    }

    let routes = find_top_routes(&graph, token_a, token_e, amount, 3, 10);

    for route in &routes {
        assert!(route.hops.len() <= 3, "Route should not exceed max_hops of 3");
    }
}

#[test]
fn test_split_routing_optimization() {
    let graph = create_complex_graph();

    let token_a = address_from_u64(1);
    let token_e = address_from_u64(5);

    let amount = u(100_000_000_000_000_000_000u128);

    let routes = find_top_routes(&graph, token_a, token_e, amount, 3, 3);

    assert!(routes.len() >= 2, "Should have at least 2 routes for split");

    let split_route = optimize_split_route(routes, amount).expect("Should optimize split");

    assert!(split_route.routes.len() >= 1, "Should have at least 1 route in split");

    let total_pct: u8 = split_route.routes.iter().map(|(_, pct)| pct).sum();
    assert_eq!(total_pct, 100, "Total percentage should be 100");

    assert!(split_route.total_amount_out > U256::zero(), "Should have positive output");
}

#[test]
fn test_router_multi_hop_integration() {
    let graph = create_complex_graph();
    let mut router = Router::new(graph);

    let token_a = address_from_u64(1);
    let token_e = address_from_u64(5);

    let amount = u(1_000_000_000_000_000_000u128);

    for max_hops in [1, 2, 3, 4] {
        let route = router
            .find_route(token_a, token_e, amount, Some(max_hops), 0)
            .expect(&format!("Should find route with max_hops={}", max_hops));

        assert!(route.hops.len() <= max_hops, "Route should respect max_hops");
        assert!(route.total_amount_out > U256::zero());
    }
}

#[test]
fn test_router_split_routing_integration() {
    let graph = create_complex_graph();
    let mut router = Router::new(graph);

    let token_a = address_from_u64(1);
    let token_e = address_from_u64(5);

    let amount = u(50_000_000_000_000_000_000u128);

    let split = router
        .find_split_route(token_a, token_e, amount, Some(3), Some(3), 0)
        .expect("Should find split route");

    assert!(split.routes.len() >= 1);
    assert!(split.total_amount_out > U256::zero());

    let total_pct: u8 = split.routes.iter().map(|(_, pct)| pct).sum();
    assert_eq!(total_pct, 100);
}

#[test]
fn test_router_split_quote() {
    let graph = create_complex_graph();
    let mut router = Router::new(graph);

    let token_a = address_from_u64(1);
    let token_e = address_from_u64(5);

    let amount = u(20_000_000_000_000_000_000u128);

    let quote = router
        .get_split_quote(token_a, token_e, amount, 50, Some(4), Some(3), 0)
        .expect("Should get split quote");

    assert!(!quote.amount_in.is_empty());
    assert!(!quote.amount_out.is_empty());
    assert!(!quote.amount_out_min.is_empty());
    assert!(quote.gas_estimate > 0);
}

#[test]
fn test_small_amount_single_route() {
    let graph = create_complex_graph();
    let mut router = Router::new(graph);

    let token_a = address_from_u64(1);
    let token_e = address_from_u64(5);

    let amount = u(10_000_000_000_000_000u128);

    let split = router
        .find_split_route(token_a, token_e, amount, Some(4), Some(3), 0)
        .expect("Should find route");

    assert_eq!(split.routes.len(), 1, "Small amounts should use single route");
}

#[test]
fn test_max_splits_limit() {
    let graph = create_complex_graph();

    let token_a = address_from_u64(1);
    let token_e = address_from_u64(5);

    let amount = u(100_000_000_000_000_000_000u128);

    let routes = find_top_routes(&graph, token_a, token_e, amount, 4, 10);

    let split = optimize_split_route(routes, amount).expect("Should optimize");

    assert!(split.routes.len() <= 3, "Should not exceed max splits of 3");
}

#[test]
fn test_the_selected_route_is_the_one_that_pays_more() {
    let graph = create_complex_graph();
    let a = address_from_u64(1);
    let e = address_from_u64(5);
    let amount = u(1_000_000_000_000_000_000);
    let routes = find_top_routes(&graph, a, e, amount, 4, 10);
    let best = find_best_multi_hop_route(&graph, a, e, amount, 4).unwrap();
    assert!(routes.iter().all(|r| r.total_amount_out <= routes[0].total_amount_out));
    assert!(routes.iter().any(|r| r.total_amount_out == best.total_amount_out));
    let mut distinct: Vec<Vec<u8>> = routes
        .iter()
        .map(|r| r.hops.iter().map(|h| h.pool.pool_id[0]).collect())
        .collect();
    let found = distinct.len();
    distinct.sort();
    distinct.dedup();
    assert_eq!(distinct.len(), found, "Routes should differ");
    assert!(found >= 2);
}

#[test]
fn test_split_pays_at_least_what_each_route_pays_alone() {
    let graph = create_complex_graph();
    let a = address_from_u64(1);
    let e = address_from_u64(5);
    let amount = u(100_000_000_000_000_000_000);
    let routes = find_top_routes(&graph, a, e, amount, 3, 3);
    let alone: Vec<U256> = routes.iter().map(|r| r.total_amount_out).collect();
    let split = optimize_split_route(routes, amount).unwrap();
    for out in alone {
        assert!(split.total_amount_out >= out);
    }
}
