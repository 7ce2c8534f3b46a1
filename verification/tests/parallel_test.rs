use routing_engine::graph::{PoolEdge, PoolGraph, TokenNode};
use routing_engine::routing::parallel::{merge_routes, routes_for_hop_count};
use routing_engine::routing::{
    batch_find_routes, find_best_route_parallel, find_routes_parallel, simulate_amounts_parallel,
    Route,
};
use routing_engine::utils::{address_from_u64, Address, U256};

fn u(n: u128) -> U256 {
    U256::from_u128(n)
}

fn create_test_graph() -> PoolGraph {
    let mut graph = PoolGraph::new();

    let tokens: Vec<Address> = (1..=4).map(|i| address_from_u64(i)).collect();

    let nodes: Vec<TokenNode> = tokens
        .iter()
        .enumerate()
        .map(|(i, addr)| TokenNode::new(*addr, format!("TOKEN{}", (b'A' + i as u8) as char), 18))
        .collect();

    let pool_ab = PoolEdge::new([1u8; 32], tokens[0], tokens[1], 3000, 60, 2_000_000_000_000_000_000_000, u(1u128 << 96), 0);
    let pool_bc = PoolEdge::new([2u8; 32], tokens[1], tokens[2], 3000, 60, 2_000_000_000_000_000_000_000, u(1u128 << 96), 0);
    let pool_cd = PoolEdge::new([3u8; 32], tokens[2], tokens[3], 3000, 60, 2_000_000_000_000_000_000_000, u(1u128 << 96), 0);
    let pool_ad = PoolEdge::new([4u8; 32], tokens[0], tokens[3], 10000, 200, 1_000_000_000_000_000_000_000, u(1u128 << 96), 0);

    graph.upsert_pool(pool_ab, nodes[0].clone(), nodes[1].clone(), 1);
    graph.upsert_pool(pool_bc, nodes[1].clone(), nodes[2].clone(), 1);
    graph.upsert_pool(pool_cd, nodes[2].clone(), nodes[3].clone(), 1);
    graph.upsert_pool(pool_ad, nodes[0].clone(), nodes[3].clone(), 1);

    graph
}

#[test]
fn test_parallel_route_finding() {
    let graph = create_test_graph();

    let token_a = address_from_u64(1);
    let token_d = address_from_u64(4);
    let amount = u(1_000_000_000_000_000_000u128);

    let routes = find_routes_parallel(&graph, token_a, token_d, amount, 4);

    assert!(!routes.is_empty(), "Should find routes");

    for i in 0..routes.len() - 1 {
        assert!(routes[i].total_amount_out >= routes[i + 1].total_amount_out);
    }
}

#[test]
fn test_best_route_parallel() {
    let graph = create_test_graph();

    let token_a = address_from_u64(1);
    let token_d = address_from_u64(4);
    let amount = u(1_000_000_000_000_000_000u128);

    let route = find_best_route_parallel(&graph, token_a, token_d, amount, 4);

    assert!(route.is_some());
    let route = route.unwrap();
    assert!(route.total_amount_out > U256::zero());
}

#[test]
fn test_batch_find_routes() {
    let graph = create_test_graph();

    let requests = vec![
        (address_from_u64(1), address_from_u64(2), u(1_000_000_000_000_000_000u128), 2),
        (address_from_u64(1), address_from_u64(3), u(1_000_000_000_000_000_000u128), 3),
        (address_from_u64(1), address_from_u64(4), u(1_000_000_000_000_000_000u128), 4),
    ];

    let results = batch_find_routes(&graph, requests);

    assert_eq!(results.len(), 3);
    assert!(results[0].is_some());
    assert!(results[1].is_some());
    assert!(results[2].is_some());
}

#[test]
fn test_simulate_amounts_parallel() {
    let graph = create_test_graph();

    let token_a = address_from_u64(1);
    let token_d = address_from_u64(4);

    let amounts = vec![
        u(1_000_000_000_000_000_000u128),
        u(10_000_000_000_000_000_000u128),
        u(100_000_000_000_000_000_000u128),
    ];

    let results = simulate_amounts_parallel(&graph, token_a, token_d, amounts, 4);

    assert_eq!(results.len(), 3);
    assert!(results.iter().all(|r| r.is_some()));
}

fn outputs(routes: &[Route]) -> Vec<U256> {
    routes.iter().map(|r| r.total_amount_out).collect()
}

#[test]
fn test_routes_by_hop_count_and_their_merge() {
    let graph = create_test_graph();
    let a = address_from_u64(1);
    let d = address_from_u64(4);
    let amount = u(1_000_000_000_000_000_000);
    assert!(routes_for_hop_count(&graph, a, d, amount, 0).is_empty());
    let one = routes_for_hop_count(&graph, a, d, amount, 1);
    assert_eq!(one.len(), 1);
    assert_eq!(one[0].hops.len(), 1);
    // The direct route of one hop counts the fee tier in its gas.
    assert_eq!(one[0].gas_estimate, 105_000);
    let two = routes_for_hop_count(&graph, a, d, amount, 2);
    assert_eq!(two.len(), 1);
    assert_eq!(two[0].gas_estimate, 100_000);
    let three = routes_for_hop_count(&graph, a, d, amount, 3);
    assert_eq!(three.len(), 2);
    let four = routes_for_hop_count(&graph, a, d, amount, 9);
    assert_eq!(four.len(), 2);
    let mut expected = Vec::new();
    expected.extend(outputs(&one));
    expected.extend(outputs(&two));
    expected.extend(outputs(&three));
    expected.extend(outputs(&four));
    expected.sort();
    expected.reverse();
    let merged = merge_routes(vec![one, two, three, four]);
    assert_eq!(outputs(&merged), expected);
    let all = find_routes_parallel(&graph, a, d, amount, 4);
    assert_eq!(outputs(&all), expected);
    assert!(merge_routes(Vec::new()).is_empty());
    assert!(merge_routes(vec![Vec::new(), Vec::new()]).is_empty());
}

#[test]
fn test_parallel_limits() {
    let graph = create_test_graph();
    let a = address_from_u64(1);
    let d = address_from_u64(4);
    let amount = u(1_000_000_000_000_000_000);
    assert!(find_routes_parallel(&graph, a, d, amount, 0).is_empty());
    assert!(find_best_route_parallel(&graph, a, d, amount, 0).is_none());
    let one = find_routes_parallel(&graph, a, d, amount, 1);
    assert_eq!(one.len(), 1);
    assert!(find_best_route_parallel(&graph, a, address_from_u64(9), amount, 4).is_none());
    let best = find_best_route_parallel(&graph, a, d, amount, 4).unwrap();
    let all = find_routes_parallel(&graph, a, d, amount, 4);
    assert_eq!(best.total_amount_out, all[0].total_amount_out);
    assert!(all.iter().all(|r| r.total_amount_out <= best.total_amount_out));
    let none = batch_find_routes(&graph, Vec::new());
    assert!(none.is_empty());
    let mixed = batch_find_routes(
        &graph,
        vec![(a, d, amount, 4), (a, address_from_u64(9), amount, 4), (a, d, amount, 0)],
    );
    assert!(mixed[0].is_some());
    assert!(mixed[1].is_none());
    assert!(mixed[2].is_none());
}
