use routing_engine::graph::edge::{pool_id_eq, pool_id_lt};
use routing_engine::graph::{PoolEdge, PoolGraph, TokenNode};
use routing_engine::utils::{address_from_u64, Address, U256};

fn pool(id: u8, a: u64, b: u64, liquidity: u128) -> PoolEdge {
    PoolEdge::new(
        [id; 32],
        address_from_u64(a),
        address_from_u64(b),
        3000,
        60,
        liquidity,
        U256::from_u128(1u128 << 96),
        0,
    )
}

fn node(a: u64, symbol: &str) -> TokenNode {
    TokenNode::new(address_from_u64(a), symbol.to_string(), 18)
}

#[test]
fn test_pool_graph_creation() {
    let graph = PoolGraph::new();
    let stats = graph.stats();
    assert_eq!(stats.token_count, 0);
    assert_eq!(stats.pool_count, 0);
}

#[test]
fn test_add_pool() {
    let mut graph = PoolGraph::new();

    let token0 = TokenNode::new(address_from_u64(1), "TOKEN0".to_string(), 18);
    let token1 = TokenNode::new(address_from_u64(2), "TOKEN1".to_string(), 18);

    let pool = PoolEdge::new(
        [0u8; 32],
        token0.address,
        token1.address,
        3000,
        60,
        1_000_000,
        U256::from_u128(1u128 << 96),
        0,
    );

    graph.upsert_pool(pool, token0.clone(), token1.clone(), 1);

    let stats = graph.stats();
    assert_eq!(stats.token_count, 2);
    assert_eq!(stats.pool_count, 1);

    assert!(graph.has_path(token0.address, token1.address));
}

#[test]
fn test_upsert_replaces_pool_state() {
    let mut graph = PoolGraph::default();
    graph.upsert_pool(pool(1, 1, 2, 1_000), node(1, "A"), node(2, "B"), 10);
    graph.upsert_pool(pool(2, 2, 3, 2_000), node(2, "B"), node(3, "C"), 20);
    graph.upsert_pool(pool(1, 1, 2, 5_000), node(1, "A2"), node(2, "B2"), 30);
    let stats = graph.stats();
    assert_eq!(stats.token_count, 3);
    assert_eq!(stats.pool_count, 2);
    assert_eq!(stats.last_update, 30);
    assert_eq!(graph.get_pool([1u8; 32]).unwrap().liquidity, 5_000);
    assert_eq!(graph.get_pool([2u8; 32]).unwrap().liquidity, 2_000);
    assert!(graph.get_pool([3u8; 32]).is_none());
    // A token stays as it was installed.
    let tokens = graph.get_all_tokens();
    assert_eq!(tokens.len(), 3);
    assert_eq!(tokens[0].symbol, "A");
    assert_eq!(tokens[1].symbol, "B");
    assert_eq!(tokens[2].symbol, "C");
    // Both directions of the replaced pool show the new state.
    let from_a = graph.get_pools_for_token(address_from_u64(1));
    let from_b = graph.get_pools_for_token(address_from_u64(2));
    assert_eq!(from_a.len(), 1);
    assert_eq!(from_a[0].liquidity, 5_000);
    assert_eq!(from_b.len(), 2);
    assert_eq!(from_b[0].liquidity, 5_000);
    assert_eq!(from_b[1].liquidity, 2_000);
}

#[test]
fn test_last_update_never_moves_back() {
    let mut graph = PoolGraph::new();
    assert_eq!(graph.stats().last_update, 0);
    graph.upsert_pool(pool(1, 1, 2, 1_000), node(1, "A"), node(2, "B"), 50);
    assert_eq!(graph.stats().last_update, 50);
    graph.upsert_pool(pool(2, 2, 3, 1_000), node(2, "B"), node(3, "C"), 40);
    assert_eq!(graph.stats().last_update, 50);
}

#[test]
fn test_has_path() {
    let mut graph = PoolGraph::new();
    graph.upsert_pool(pool(1, 1, 2, 1_000), node(1, "A"), node(2, "B"), 1);
    graph.upsert_pool(pool(2, 2, 3, 1_000), node(2, "B"), node(3, "C"), 1);
    graph.upsert_pool(pool(3, 4, 5, 1_000), node(4, "D"), node(5, "E"), 1);
    let a = |n: u64| address_from_u64(n);
    assert!(graph.has_path(a(1), a(3)));
    assert!(graph.has_path(a(3), a(1)));
    assert!(graph.has_path(a(1), a(1)));
    assert!(graph.has_path(a(4), a(5)));
    assert!(!graph.has_path(a(1), a(4)));
    assert!(!graph.has_path(a(5), a(2)));
    assert!(!graph.has_path(a(1), a(9)));
    assert!(!graph.has_path(a(9), a(1)));
    assert!(!graph.has_path(a(9), a(9)));
    assert!(!PoolGraph::new().has_path(a(1), a(2)));
}

#[test]
fn test_has_path_tells_large_addresses_apart() {
    let mut graph = PoolGraph::new();
    let x = Address { hi: 1, mid: 0, lo: 7 };
    let y = Address { hi: 0, mid: 1, lo: 7 };
    let z = Address { hi: 0, mid: 0, lo: 7 };
    let w = Address { hi: 2, mid: 2, lo: 2 };
    let p = PoolEdge::new([1u8; 32], x, y, 3000, 60, 1, U256::one(), 0);
    let q = PoolEdge::new([2u8; 32], z, w, 3000, 60, 1, U256::one(), 0);
    graph.upsert_pool(p, TokenNode::new(x, "X".to_string(), 18), TokenNode::new(y, "Y".to_string(), 18), 1);
    graph.upsert_pool(q, TokenNode::new(z, "Z".to_string(), 18), TokenNode::native(w, "W".to_string(), 18), 1);
    assert!(graph.has_path(x, y));
    assert!(graph.has_path(z, w));
    assert!(!graph.has_path(x, z));
    assert!(!graph.has_path(y, w));
    assert!(graph.get_all_tokens()[3].is_native);
}

#[test]
fn test_pool_edge_tokens() {
    let a = address_from_u64(1);
    let b = address_from_u64(2);
    let c = address_from_u64(3);
    let p = pool(1, 1, 2, 1_000);
    assert_eq!(p.other_token(a), Some(b));
    assert_eq!(p.other_token(b), Some(a));
    assert_eq!(p.other_token(c), None);
    assert!(p.contains_token(a));
    assert!(p.contains_token(b));
    assert!(!p.contains_token(c));
    assert_eq!(p.zero_for_one(a), Some(true));
    assert_eq!(p.zero_for_one(b), Some(false));
    assert_eq!(p.zero_for_one(c), None);
    assert!(!p.has_hook());
    assert!(p.hook_address.is_zero());
    let hooked = PoolEdge::with_hook([9u8; 32], a, b, 500, 10, 7, U256::one(), -3, c);
    assert!(hooked.has_hook());
    assert_eq!(hooked.hook_address, c);
    assert_eq!(hooked.tick, -3);
    assert_eq!(hooked.tick_spacing, 10);
    assert_eq!(hooked.fee, 500);
}

#[test]
fn test_pool_id_order() {
    let mut low = [1u8; 32];
    let high = [1u8; 32];
    assert!(pool_id_eq(&low, &high));
    assert!(!pool_id_lt(&low, &high));
    low[31] = 0;
    assert!(!pool_id_eq(&low, &high));
    assert!(pool_id_lt(&low, &high));
    assert!(!pool_id_lt(&high, &low));
    let mut first = [0u8; 32];
    first[0] = 2;
    assert!(pool_id_lt(&high, &first));
    assert!(!pool_id_lt(&first, &high));
}

#[test]
fn test_token_node_builders() {
    let token = TokenNode::new(address_from_u64(1), "A".to_string(), 6);
    assert!(!token.is_native);
    assert_eq!(token.decimals, 6);
    let native = TokenNode::native(address_from_u64(2), "ETH".to_string(), 18);
    assert!(native.is_native);
    assert_eq!(native.clone(), native);
    assert_eq!(native.symbol, "ETH");
}

#[test]
fn test_has_path_follows_a_pool_that_changes_its_tokens() {
    let mut graph = PoolGraph::new();
    graph.upsert_pool(pool(1, 1, 2, 1_000), node(1, "A"), node(2, "B"), 1);
    graph.upsert_pool(pool(2, 2, 3, 1_000), node(2, "B"), node(3, "C"), 1);
    graph.upsert_pool(pool(3, 4, 5, 1_000), node(4, "D"), node(5, "E"), 1);
    let a = |n: u64| address_from_u64(n);
    assert!(graph.has_path(a(1), a(3)));
    assert!(!graph.has_path(a(3), a(4)));

    // The second pool now joins 3 and 4 in place of 2 and 3.
    graph.upsert_pool(pool(2, 3, 4, 1_000), node(3, "C"), node(4, "D"), 2);
    assert_eq!(graph.stats().pool_count, 3);
    assert_eq!(graph.stats().token_count, 5);
    assert!(graph.has_path(a(1), a(2)));
    assert!(!graph.has_path(a(1), a(3)));
    assert!(!graph.has_path(a(2), a(3)));
    assert!(graph.has_path(a(3), a(4)));
    assert!(graph.has_path(a(3), a(5)));
    assert!(graph.has_path(a(5), a(3)));
    assert!(!graph.has_path(a(1), a(5)));

    // A change of state alone leaves every edge where it was.
    graph.upsert_pool(pool(2, 3, 4, 9_000), node(3, "C"), node(4, "D"), 3);
    assert!(graph.has_path(a(3), a(5)));
    assert!(!graph.has_path(a(2), a(3)));
    assert_eq!(graph.get_pool([2u8; 32]).unwrap().liquidity, 9_000);
}

#[test]
fn test_has_path_goes_by_the_tokens_of_the_pool() {
    let mut graph = PoolGraph::new();
    // The nodes handed in are not those of the pool's tokens.
    graph.upsert_pool(pool(1, 1, 2, 1_000), node(7, "X"), node(8, "Y"), 1);
    let a = |n: u64| address_from_u64(n);
    assert_eq!(graph.stats().token_count, 2);
    assert!(graph.has_path(a(7), a(7)));
    assert!(!graph.has_path(a(7), a(8)));
    assert!(!graph.has_path(a(1), a(2)));
    graph.upsert_pool(pool(2, 1, 2, 1_000), node(1, "A"), node(2, "B"), 1);
    assert!(graph.has_path(a(1), a(2)));
    assert!(graph.has_path(a(2), a(1)));
    assert!(!graph.has_path(a(7), a(1)));
}

#[test]
fn test_has_path_with_a_pool_of_one_token() {
    let mut graph = PoolGraph::new();
    graph.upsert_pool(pool(1, 1, 1, 1_000), node(1, "A"), node(1, "A"), 1);
    graph.upsert_pool(pool(2, 1, 2, 1_000), node(1, "A"), node(2, "B"), 1);
    let a = |n: u64| address_from_u64(n);
    assert_eq!(graph.stats().token_count, 2);
    assert!(graph.has_path(a(1), a(1)));
    assert!(graph.has_path(a(1), a(2)));
    assert!(graph.has_path(a(2), a(1)));
}
