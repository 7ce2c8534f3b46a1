use routing_engine::graph::{PoolEdge, PoolGraph, TokenNode};
use routing_engine::routing::single_hop::{
    calculate_amount_out, calculate_price_impact, estimate_swap_gas, quote_pool,
    simulate_swap_through_pool,
};
use routing_engine::routing::{find_all_single_hop_routes, find_best_single_hop_route};
use routing_engine::utils::{address_from_u64, Address, RouterError, U256};

fn u(n: u128) -> U256 {
    U256::from_u128(n)
}

fn create_test_pool(token0: Address, token1: Address, fee: u32, liquidity: u128) -> PoolEdge {
    PoolEdge::new([1u8; 32], token0, token1, fee, 60, liquidity, u(1u128 << 96), 0)
}

#[test]
fn test_single_hop_routing() {
    let mut graph = PoolGraph::new();

    let token_a = address_from_u64(100);
    let token_b = address_from_u64(200);

    let token_a_node = TokenNode::new(token_a, "TOKEN_A".to_string(), 18);
    let token_b_node = TokenNode::new(token_b, "TOKEN_B".to_string(), 18);

    let pool = create_test_pool(token_a, token_b, 3000, 1_000_000_000_000_000_000_000);

    graph.upsert_pool(pool, token_a_node, token_b_node, 1);

    let amount_in = u(1_000_000_000_000_000_000u128);
    let route = find_best_single_hop_route(&graph, token_a, token_b, amount_in);

    assert!(route.is_ok());
    let route = route.unwrap();

    assert_eq!(route.hops.len(), 1);
    assert!(route.total_amount_out > U256::zero());
    assert!(route.total_amount_out < amount_in);
    assert!(route.price_impact <= 100_000_000);
    assert!(route.gas_estimate > 0);
}

#[test]
fn test_no_direct_pool() {
    let graph = PoolGraph::new();

    let token_a = address_from_u64(100);
    let token_b = address_from_u64(200);

    let amount_in = u(1_000_000_000_000_000_000u128);
    let result = find_best_single_hop_route(&graph, token_a, token_b, amount_in);

    assert!(result.is_err());
    match result {
        Err(RouterError::NoRouteFound { .. }) => (),
        _ => panic!("Expected NoRouteFound error"),
    }
}

#[test]
fn test_multiple_pools_same_pair() {
    let mut graph = PoolGraph::new();

    let token_a = address_from_u64(100);
    let token_b = address_from_u64(200);

    let token_a_node = TokenNode::new(token_a, "TOKEN_A".to_string(), 18);
    let token_b_node = TokenNode::new(token_b, "TOKEN_B".to_string(), 18);

    let pool1 = PoolEdge::new(
        [1u8; 32],
        token_a,
        token_b,
        500,
        10,
        1_000_000_000_000_000_000_000,
        u(1u128 << 96),
        0,
    );

    let pool2 = PoolEdge::new(
        [2u8; 32],
        token_a,
        token_b,
        3000,
        60,
        2_000_000_000_000_000_000_000,
        u(1u128 << 96),
        0,
    );

    graph.upsert_pool(pool1, token_a_node.clone(), token_b_node.clone(), 1);
    graph.upsert_pool(pool2, token_a_node, token_b_node, 1);

    let amount_in = u(1_000_000_000_000_000_000u128);
    let routes = find_all_single_hop_routes(&graph, token_a, token_b, amount_in);

    assert!(routes.len() >= 1);

    if routes.len() > 1 {
        assert!(routes[0].total_amount_out >= routes[1].total_amount_out);
    }
}

#[test]
fn test_calculate_price_impact() {
    let amount_in = u(1_000_000);
    let amount_out = u(997_000);

    let impact = calculate_price_impact(amount_in, amount_out);

    assert!(impact < 1_000_000);
    assert_eq!(impact, 300_902);
}

#[test]
fn test_insufficient_liquidity() {
    let pool = create_test_pool(address_from_u64(1), address_from_u64(2), 3000, 0);

    let result = calculate_amount_out(&pool, u(1000), true);

    assert!(result.is_err());
    match result {
        Err(RouterError::InsufficientLiquidity { .. }) => (),
        _ => panic!("Expected InsufficientLiquidity error"),
    }
}

#[test]
fn test_price_impact_exact_values() {
    assert_eq!(calculate_price_impact(u(0), u(5)), 0);
    assert_eq!(calculate_price_impact(u(5), u(0)), 0);
    assert_eq!(calculate_price_impact(u(1000), u(1000)), 0);
    assert_eq!(calculate_price_impact(u(1010), u(1000)), 1_000_000);
    assert_eq!(calculate_price_impact(u(990), u(1000)), 1_000_000);
    assert_eq!(calculate_price_impact(u(2000), u(1000)), 100_000_000);
    assert_eq!(calculate_price_impact(u(5000), u(1000)), 100_000_000);
    assert_eq!(calculate_price_impact(u(1), u(1000)), 99_900_000);
    assert_eq!(
        calculate_price_impact(u(1_000_000_000_000_000_000), u(996_006_981_039_903_216)),
        400_902
    );
}

#[test]
fn test_swap_gas() {
    let a = address_from_u64(1);
    let b = address_from_u64(2);
    assert_eq!(estimate_swap_gas(&create_test_pool(a, b, 3000, 1)), 100_000);
    assert_eq!(estimate_swap_gas(&create_test_pool(a, b, 9_999, 1)), 100_000);
    assert_eq!(estimate_swap_gas(&create_test_pool(a, b, 10_000, 1)), 105_000);
    let hooked = PoolEdge::with_hook([1u8; 32], a, b, 3000, 60, 1, u(1), 0, address_from_u64(9));
    assert_eq!(estimate_swap_gas(&hooked), 150_000);
    let both = PoolEdge::with_hook([1u8; 32], a, b, 10_000, 60, 1, u(1), 0, address_from_u64(9));
    assert_eq!(estimate_swap_gas(&both), 155_000);
}

#[test]
fn test_amount_out_and_its_errors() {
    let a = address_from_u64(1);
    let b = address_from_u64(2);
    let pool = create_test_pool(a, b, 3000, 1_000_000_000_000_000_000_000);
    assert_eq!(
        calculate_amount_out(&pool, u(1_000_000_000_000_000_000), true).unwrap(),
        u(996_006_981_039_903_216)
    );
    assert_eq!(quote_pool(&pool, a, u(1_000_000_000_000_000_000)), Some(u(996_006_981_039_903_216)));
    assert_eq!(quote_pool(&pool, b, u(1_000_000_000_000_000_000)), Some(u(996_006_981_039_903_216)));
    assert_eq!(quote_pool(&pool, address_from_u64(3), u(1_000_000_000)), None);
    // Below the dust floor of 100 units.
    match calculate_amount_out(&pool, u(100), true) {
        Err(RouterError::InsufficientLiquidity { required, available }) => {
            assert_eq!(required, "100");
            assert_eq!(available, "98");
        }
        _ => panic!("Expected InsufficientLiquidity"),
    }
    assert_eq!(quote_pool(&pool, a, u(100)), None);
    assert_eq!(calculate_amount_out(&pool, u(102), true).unwrap(), u(100));
    let dry = create_test_pool(a, b, 3000, 0);
    match calculate_amount_out(&dry, u(1000), true) {
        Err(RouterError::InsufficientLiquidity { required, available }) => {
            assert_eq!(required, "1000");
            assert_eq!(available, "0");
        }
        _ => panic!("Expected InsufficientLiquidity"),
    }
    let all_fee = create_test_pool(a, b, 1_000_000, 1_000);
    assert!(matches!(
        calculate_amount_out(&all_fee, u(1000), true),
        Err(RouterError::SimulationError(_))
    ));
    assert_eq!(quote_pool(&all_fee, a, u(1000)), None);
    match simulate_swap_through_pool(&pool, address_from_u64(3), b, u(1000)) {
        Err(RouterError::InternalError(message)) => assert_eq!(message, "Token not in pool"),
        _ => panic!("Expected InternalError"),
    }
    let (out, gas) =
        simulate_swap_through_pool(&pool, a, b, u(1_000_000_000_000_000_000)).unwrap();
    assert_eq!(out, u(996_006_981_039_903_216));
    assert_eq!(gas, 100_000);
}

fn two_pool_graph() -> PoolGraph {
    let mut graph = PoolGraph::new();
    let a = address_from_u64(100);
    let b = address_from_u64(200);
    let node_a = TokenNode::new(a, "A".to_string(), 18);
    let node_b = TokenNode::new(b, "B".to_string(), 18);
    let pool1 = PoolEdge::new([1u8; 32], a, b, 500, 10, 1_000_000_000_000_000_000_000, u(1u128 << 96), 0);
    let pool2 = PoolEdge::new([2u8; 32], a, b, 3000, 60, 2_000_000_000_000_000_000_000, u(1u128 << 96), 0);
    graph.upsert_pool(pool1, node_a.clone(), node_b.clone(), 1);
    graph.upsert_pool(pool2, node_a, node_b, 1);
    graph
}

#[test]
fn test_best_single_hop_is_the_greatest_output() {
    let graph = two_pool_graph();
    let a = address_from_u64(100);
    let b = address_from_u64(200);
    let amount = u(1_000_000_000_000_000_000);
    let best = find_best_single_hop_route(&graph, a, b, amount).unwrap();
    assert_eq!(best.hops[0].pool.pool_id, [2u8; 32]);
    assert_eq!(best.total_amount_out, u(996_503_243_133_298_050));
    assert_eq!(best.total_amount_in, amount);
    assert_eq!(best.hops[0].amount_in, amount);
    assert_eq!(best.hops[0].amount_out, best.total_amount_out);
    assert_eq!(best.hops[0].token_in, a);
    assert_eq!(best.hops[0].token_out, b);
    assert_eq!(best.gas_estimate, 100_000);
    assert_eq!(best.price_impact, calculate_price_impact(amount, best.total_amount_out));
    let all = find_all_single_hop_routes(&graph, a, b, amount);
    assert_eq!(all.len(), 2);
    assert_eq!(all[0].total_amount_out, u(996_503_243_133_298_050));
    assert_eq!(all[1].total_amount_out, u(499_850_034_993_001_259));
    // The other direction uses the same pools.
    let back = find_all_single_hop_routes(&graph, b, a, amount);
    assert_eq!(back.len(), 2);
    assert_eq!(back[0].hops[0].token_in, b);
    assert_eq!(back[0].hops[0].token_out, a);
}

#[test]
fn test_single_hop_ties_go_to_less_gas_then_smaller_pool_id() {
    let a = address_from_u64(1);
    let b = address_from_u64(2);
    let node_a = TokenNode::new(a, "A".to_string(), 18);
    let node_b = TokenNode::new(b, "B".to_string(), 18);
    let liquidity = 1_000_000_000_000_000_000_000u128;
    let plain = |id: u8| PoolEdge::new([id; 32], a, b, 3000, 60, liquidity, u(1u128 << 96), 0);
    let hooked = PoolEdge::with_hook([1u8; 32], a, b, 3000, 60, liquidity, u(1u128 << 96), 0, address_from_u64(9));
    let mut graph = PoolGraph::new();
    graph.upsert_pool(hooked, node_a.clone(), node_b.clone(), 1);
    graph.upsert_pool(plain(7), node_a.clone(), node_b.clone(), 1);
    graph.upsert_pool(plain(5), node_a.clone(), node_b.clone(), 1);
    graph.upsert_pool(plain(6), node_a, node_b, 1);
    let amount = u(1_000_000_000_000_000_000);
    let best = find_best_single_hop_route(&graph, a, b, amount).unwrap();
    assert_eq!(best.hops[0].pool.pool_id, [5u8; 32]);
    let all = find_all_single_hop_routes(&graph, a, b, amount);
    let ids: Vec<u8> = all.iter().map(|r| r.hops[0].pool.pool_id[0]).collect();
    assert_eq!(ids, vec![5, 6, 7, 1]);
}

#[test]
fn test_single_hop_skips_pools_that_cannot_be_priced() {
    let a = address_from_u64(1);
    let b = address_from_u64(2);
    let c = address_from_u64(3);
    let node = |x: Address| TokenNode::new(x, "T".to_string(), 18);
    let mut graph = PoolGraph::new();
    graph.upsert_pool(PoolEdge::new([1u8; 32], a, b, 3000, 60, 0, u(1u128 << 96), 0), node(a), node(b), 1);
    graph.upsert_pool(PoolEdge::new([2u8; 32], a, b, 1_000_000, 60, 1_000_000_000, u(1u128 << 96), 0), node(a), node(b), 1);
    graph.upsert_pool(PoolEdge::new([3u8; 32], a, c, 3000, 60, 1_000_000_000_000, u(1u128 << 96), 0), node(a), node(c), 1);
    let amount = u(1_000_000);
    match find_best_single_hop_route(&graph, a, b, amount) {
        Err(RouterError::NoRouteFound { from, to }) => {
            assert_eq!(from, a);
            assert_eq!(to, b);
        }
        _ => panic!("Expected NoRouteFound"),
    }
    assert!(find_all_single_hop_routes(&graph, a, b, amount).is_empty());
    assert!(find_best_single_hop_route(&graph, a, c, amount).is_ok());
    // Dust: the output of 98 for 100 is below the floor.
    assert!(find_best_single_hop_route(&graph, a, c, u(100)).is_err());
}
