use routing_engine::config::ContractAddresses;
use routing_engine::graph::{PoolEdge, PoolGraph, TokenNode};
use routing_engine::routing::{find_best_single_hop_route, Router};
use routing_engine::sync::pool_sync::{base_mainnet_pools, install_pools};
use routing_engine::sync::{PoolSyncer, SyncConfig};
use routing_engine::utils::addresses::{usdc, weth};
use routing_engine::utils::math::tick_to_sqrt_price_x96;
use routing_engine::utils::{address_from_u64, U256};

fn u(n: u128) -> U256 {
    U256::from_u128(n)
}

#[test]
fn test_single_hop_routing_flow() {
    let mut graph = PoolGraph::new();

    let token_weth = address_from_u64(1);
    let token_usdc = address_from_u64(2);

    let weth_node = TokenNode::native(token_weth, "WETH".to_string(), 18);
    let usdc_node = TokenNode::new(token_usdc, "USDC".to_string(), 6);

    let pool = PoolEdge::new(
        [1u8; 32],
        token_weth,
        token_usdc,
        3000,
        60,
        1_000_000_000_000_000_000_000,
        u(1u128 << 96),
        0,
    );

    graph.upsert_pool(pool, weth_node, usdc_node, 1);

    let amount_in = u(1_000_000_000_000_000_000u128);
    let route = find_best_single_hop_route(&graph, token_weth, token_usdc, amount_in)
        .expect("Should find route");

    assert_eq!(route.hops.len(), 1, "Should have exactly 1 hop");
    assert_eq!(route.hops[0].token_in, token_weth);
    assert_eq!(route.hops[0].token_out, token_usdc);
    assert!(route.total_amount_out > U256::zero(), "Should have output");
    assert!(route.total_amount_out < amount_in, "Output should be less than input due to fees");
    assert!(route.price_impact <= 100_000_000, "Price impact should be a percentage");
    assert!(route.gas_estimate > 0, "Gas estimate should be positive");
}

#[test]
fn test_router_api() {
    let mut graph = PoolGraph::new();

    let token_a = address_from_u64(10);
    let token_b = address_from_u64(20);

    let token_a_node = TokenNode::new(token_a, "TOKEN_A".to_string(), 18);
    let token_b_node = TokenNode::new(token_b, "TOKEN_B".to_string(), 18);

    let pool = PoolEdge::new(
        [1u8; 32],
        token_a,
        token_b,
        500,
        10,
        5_000_000_000_000_000_000_000,
        u(1u128 << 96),
        0,
    );

    graph.upsert_pool(pool, token_a_node, token_b_node, 1);

    let mut router = Router::new(graph);

    let amount_in = u(100_000_000_000_000_000u128);
    let route = router.find_route(token_a, token_b, amount_in, Some(1), 0).expect("Should find route");

    assert_eq!(route.hops.len(), 1);
    assert!(route.total_amount_out > U256::zero());

    let quote = router.get_quote(token_a, token_b, amount_in, 50, Some(1), 0).expect("Should get quote");

    assert_eq!(quote.amount_in, amount_in.to_decimal_string());
    assert!(!quote.amount_out.is_empty());
    assert!(!quote.amount_out_min.is_empty());
    assert!(quote.price_impact <= 100_000_000);
    assert!(quote.gas_estimate > 0);
}

#[test]
fn test_pool_syncer() {
    let mut graph = PoolGraph::new();
    let syncer = PoolSyncer::new();

    syncer.sync_pools(&mut graph, 1).expect("Should sync pools");

    let stats = graph.stats();
    assert!(stats.token_count > 0, "Should have tokens");
    assert!(stats.pool_count > 0, "Should have pools");
}

#[test]
fn test_sync_pools() {
    let mut graph = PoolGraph::new();
    let syncer = PoolSyncer::new();

    syncer.sync_pools(&mut graph, 1).expect("Should sync pools");

    let stats = graph.stats();
    assert!(stats.token_count > 0, "Should have tokens after sync");
    assert!(stats.pool_count > 0, "Should have pools after sync");

    assert!(stats.pool_count >= 5, "Should have at least 5 pools");
}

#[test]
fn test_sync_with_config() {
    let mut graph = PoolGraph::new();
    let config = SyncConfig {
        rpc_url: "https://mainnet.base.org".to_string(),
        subgraph_url: None,
        refresh_interval_secs: 30,
        cache_ttl_secs: 60,
    };

    let syncer = PoolSyncer::with_config(config);
    syncer.sync_pools(&mut graph, 1).expect("Should sync pools");

    let stats = graph.stats();
    assert!(stats.token_count > 0);
    assert_eq!(syncer.refresh_interval_secs(), 30);
}

#[test]
fn test_best_pool_selection() {
    let mut graph = PoolGraph::new();

    let token_a = address_from_u64(100);
    let token_b = address_from_u64(200);

    let token_a_node = TokenNode::new(token_a, "TOKEN_A".to_string(), 18);
    let token_b_node = TokenNode::new(token_b, "TOKEN_B".to_string(), 18);

    let pool1 = PoolEdge::new([1u8; 32], token_a, token_b, 100, 1, 100_000_000_000_000_000_000, u(1u128 << 96), 0);
    let pool2 = PoolEdge::new([2u8; 32], token_a, token_b, 3000, 60, 10_000_000_000_000_000_000_000, u(1u128 << 96), 0);

    graph.upsert_pool(pool1, token_a_node.clone(), token_b_node.clone(), 1);
    graph.upsert_pool(pool2, token_a_node, token_b_node, 1);

    let mut router = Router::new(graph);

    let large_amount = u(10_000_000_000_000_000_000u128);
    let route = router.find_route(token_a, token_b, large_amount, Some(1), 0).expect("Should find route");

    assert_eq!(route.hops.len(), 1);
    assert!(route.total_amount_out > U256::zero());
    assert_eq!(route.hops[0].pool.fee, 3000);
}

#[test]
fn test_no_route_error() {
    let graph = PoolGraph::new();
    let mut router = Router::new(graph);

    let token_a = address_from_u64(1);
    let token_b = address_from_u64(2);
    let amount = u(1000);

    let result = router.find_route(token_a, token_b, amount, Some(1), 0);

    assert!(result.is_err(), "Should return error for no route");
}

#[test]
fn test_mainnet_pools_exactly() {
    let listings = base_mainnet_pools();
    assert_eq!(listings.len(), 7);
    let figures: Vec<(u8, u32, i32, u128, i32)> = listings
        .iter()
        .map(|l| (l.pool.pool_id[0], l.pool.fee, l.pool.tick_spacing, l.pool.liquidity, l.pool.tick))
        .collect();
    assert_eq!(
        figures,
        vec![
            (1, 3000, 60, 50_000_000_000_000_000_000_000, 201240),
            (2, 500, 10, 30_000_000_000_000_000_000_000, 201240),
            (3, 3000, 60, 20_000_000_000_000_000_000_000, 0),
            (4, 100, 1, 100_000_000_000_000_000_000_000, 276324),
            (5, 3000, 60, 10_000_000_000_000_000_000_000, 0),
            (6, 500, 10, 15_000_000_000_000_000_000_000, 100),
            (7, 3000, 60, 8_000_000_000_000_000_000_000, 0),
        ]
    );
    for listing in &listings {
        assert_eq!(listing.pool.pool_id, [listing.pool.pool_id[0]; 32]);
        assert_eq!(listing.pool.sqrt_price_x96, tick_to_sqrt_price_x96(listing.pool.tick));
        assert_eq!(listing.token0.address, listing.pool.token0);
        assert_eq!(listing.token1.address, listing.pool.token1);
        assert!(listing.pool.hook_address.is_zero());
    }
    assert_eq!(listings[0].pool.token0, weth());
    assert_eq!(listings[0].pool.token1, usdc());
    assert!(listings[0].token0.is_native);
    assert_eq!(listings[0].token0.symbol, "WETH");
    assert_eq!(listings[0].token1.decimals, 6);
    assert_eq!(listings[5].pool.token0, address_from_u64(5));
    assert_eq!(listings[5].token0.symbol, "cbETH");
    assert_eq!(listings[6].pool.token0, address_from_u64(4));
    assert_eq!(listings[6].token0.decimals, 8);

    let mut graph = PoolGraph::new();
    PoolSyncer::new().add_base_mainnet_pools(&mut graph, 9);
    let stats = graph.stats();
    assert_eq!(stats.token_count, 5);
    assert_eq!(stats.pool_count, 7);
    assert_eq!(stats.last_update, 9);
    // A second round changes nothing but the time.
    PoolSyncer::new().sync_pools(&mut graph, 12).unwrap();
    assert_eq!(graph.stats().token_count, 5);
    assert_eq!(graph.stats().pool_count, 7);
    assert_eq!(graph.stats().last_update, 12);
    assert!(graph.has_path(address_from_u64(5), address_from_u64(3)));
    let mut other = PoolGraph::new();
    install_pools(&mut other, Vec::new(), 5);
    assert_eq!(other.stats().last_update, 0);
}

#[test]
fn test_contract_validation_names_the_first_unset_address() {
    let zero = "0x0000000000000000000000000000000000000000";
    let good = ContractAddresses::default();
    assert!(good.validate().is_ok());
    let testnet = ContractAddresses::for_chain(84532).unwrap();
    assert_eq!(testnet.quoter, "0x3e3D0d2cC349F42825B5cF58fd34d3bDFE25404b");
    assert_eq!(testnet.swap_router, "0xFf438e2d528F55fD1141382D1eB436201552d1A5");
    assert_eq!(testnet.position_manager, "0xCf31fbdBD7A44ba1bCF99642E64a1d0B56a372bA");
    assert_eq!(
        ContractAddresses { pool_manager: zero, ..good }.validate(),
        Err("PoolManager address not set".to_string())
    );
    assert_eq!(
        ContractAddresses { swap_router: zero, ..good }.validate(),
        Err("SwapRouter address not set".to_string())
    );
    assert_eq!(
        ContractAddresses { position_manager: zero, ..good }.validate(),
        Err("PositionManager address not set".to_string())
    );
    assert_eq!(
        ContractAddresses { quoter: zero, ..good }.validate(),
        Err("Quoter address not set".to_string())
    );
    assert_eq!(
        ContractAddresses { swap_router: zero, quoter: zero, ..good }.validate(),
        Err("SwapRouter address not set".to_string())
    );
}
