use routing_engine::api::dto::QuoteRequest;
use routing_engine::api::handlers::{get_quote, health_check};
use routing_engine::api::{ApiError, AppState};
use routing_engine::config::Settings;
use routing_engine::graph::{PoolEdge, TokenNode};
use routing_engine::utils::{address_from_u64, Address, RouterError, U256};

fn create_test_state() -> AppState {
    let mut state = AppState::new(Settings::default());

    let token_a = address_from_u64(1);
    let token_b = address_from_u64(2);
    let token_c = address_from_u64(3);

    let node_a = TokenNode::new(token_a, "TokenA".to_string(), 18);
    let node_b = TokenNode::new(token_b, "TokenB".to_string(), 18);
    let node_c = TokenNode::new(token_c, "TokenC".to_string(), 18);

    let pool_ab = PoolEdge::new(
        [1u8; 32],
        token_a,
        token_b,
        3000,
        60,
        1_000_000_000_000_000_000_000,
        U256::from_u128(1u128 << 96),
        0,
    );

    let pool_bc = PoolEdge::new(
        [2u8; 32],
        token_b,
        token_c,
        3000,
        60,
        1_000_000_000_000_000_000_000,
        U256::from_u128(1u128 << 96),
        0,
    );

    state.router.upsert_pool(pool_ab, node_a.clone(), node_b.clone(), 1);
    state.router.upsert_pool(pool_bc, node_b, node_c, 1);

    state
}

fn request(token_in: Address, token_out: Address, amount: &str) -> QuoteRequest {
    QuoteRequest {
        token_in,
        token_out,
        amount_in: amount.to_string(),
        slippage_bps: 50,
        max_hops: None,
        max_splits: None,
    }
}

#[test]
fn test_health_check_returns_ok() {
    let state = create_test_state();
    let response = health_check(&state, "0.1.0");

    assert_eq!(response.status, "healthy");
    assert_eq!(response.version, "0.1.0");
    assert_eq!(response.chain_id, 8453);
}

#[test]
fn test_health_check_shows_graph_stats() {
    let state = create_test_state();
    let response = health_check(&state, "0.1.0");

    assert_eq!(response.graph_stats.token_count, 3);
    assert_eq!(response.graph_stats.pool_count, 2);
    assert_eq!(response.graph_stats.last_update, 1);
}

#[test]
fn test_quote_endpoint_single_hop() {
    let mut state = create_test_state();
    let response = get_quote(
        &mut state,
        &request(address_from_u64(1), address_from_u64(2), "1000000000000000000"),
        1_700_000_000,
    )
    .unwrap();

    assert_eq!(response.quote.amount_in, "1000000000000000000");
    assert_eq!(response.quote.amount_out, "996006981039903216");
    assert_eq!(response.timestamp, 1_700_000_000);
    assert!(!response.cached);
}

#[test]
fn test_quote_endpoint_multi_hop() {
    let mut state = create_test_state();
    let mut multi = request(address_from_u64(1), address_from_u64(3), "1000000000000000000");
    multi.max_hops = Some(3);
    let response = get_quote(&mut state, &multi, 1_700_000_000).unwrap();

    assert!(!response.quote.route.routes.is_empty(), "Should have at least one route");
    assert_eq!(response.quote.route.routes[0].0.hops.len(), 2);
    assert_eq!(response.quote.amount_out, "992033851673014362");
}

#[test]
fn test_quote_with_invalid_amount_returns_400() {
    let mut state = create_test_state();
    let result = get_quote(
        &mut state,
        &request(address_from_u64(1), address_from_u64(2), "invalid"),
        1_700_000_000,
    );

    match result {
        Err(error) => {
            assert_eq!(error.status_code(), 400);
            let body = error.into_response();
            assert_eq!(body.error, "Bad Request");
            assert_eq!(body.message, "Invalid amount");
        }
        Ok(_) => panic!("Expected an error"),
    }
}

#[test]
fn test_quote_with_nonexistent_token_returns_404() {
    let mut state = create_test_state();
    let result = get_quote(
        &mut state,
        &request(address_from_u64(999), address_from_u64(1000), "1000000000000000000"),
        1_700_000_000,
    );

    match result {
        Err(error) => {
            assert_eq!(error.status_code(), 404);
            let body = error.into_response();
            assert_eq!(body.error, "Not Found");
            assert_eq!(
                body.message,
                "No route found from 0x00000000000000000000000000000000000003E7 to 0x00000000000000000000000000000000000003e8"
            );
        }
        Ok(_) => panic!("Expected an error"),
    }
}

#[test]
fn test_quote_with_custom_slippage() {
    let mut state = create_test_state();
    let mut wide = request(address_from_u64(1), address_from_u64(2), "1000000000000000000");
    wide.slippage_bps = 100;
    let response = get_quote(&mut state, &wide, 1_700_000_000).unwrap();

    assert_eq!(response.quote.amount_out, "996006981039903216");
    // 996006981039903216 * 9900 / 10000
    assert_eq!(response.quote.amount_out_min, "986046911229504183");
}

#[test]
fn test_quote_response_includes_timestamp() {
    let mut state = create_test_state();
    let now = 1_700_000_123;
    let response = get_quote(
        &mut state,
        &request(address_from_u64(1), address_from_u64(2), "1000000000000000000"),
        now,
    )
    .unwrap();

    assert!(response.timestamp > 0);
    assert!(now - response.timestamp < 60);
}

#[test]
fn test_app_state_creation() {
    let settings = Settings::default();
    let state = AppState::new(settings);

    let stats = state.router.graph().stats();

    assert_eq!(stats.token_count, 0);
    assert_eq!(stats.pool_count, 0);
}

#[test]
fn test_second_identical_query_is_cached() {
    let mut state = create_test_state();
    let query = request(address_from_u64(1), address_from_u64(2), "1000000000000000000");
    let first = get_quote(&mut state, &query, 100).unwrap();
    let second = get_quote(&mut state, &query, 110).unwrap();
    assert!(!first.cached);
    assert!(second.cached);
    assert_eq!(second.quote.amount_out, first.quote.amount_out);
    assert_eq!(second.quote.amount_out_min, first.quote.amount_out_min);
    assert_eq!(second.timestamp, 110);
    // The service caches by tokens and bucket: a near amount is a hit too.
    let near = request(address_from_u64(1), address_from_u64(2), "1040000000000000000");
    assert!(get_quote(&mut state, &near, 114).unwrap().cached);
    // After fifteen seconds the quote is made again.
    let third = get_quote(&mut state, &query, 115).unwrap();
    assert!(!third.cached);
}

#[test]
fn test_api_errors_from_router_errors() {
    let a = address_from_u64(1);
    let b = address_from_u64(2);
    let not_found = ApiError::from_router_error(RouterError::NoRouteFound { from: a, to: b });
    assert_eq!(not_found.status_code(), 404);
    let bad = ApiError::from_router_error(RouterError::InvalidAmount("x".to_string()));
    assert_eq!(bad.status_code(), 400);
    assert_eq!(bad.into_response().message, "Invalid amount: x");
    let others = vec![
        RouterError::InsufficientLiquidity { required: "5".to_string(), available: "3".to_string() },
        RouterError::PriceImpactTooHigh { impact: 12_345_678 },
        RouterError::InvalidTokenAddress("t".to_string()),
        RouterError::PoolNotFound("p".to_string()),
        RouterError::SimulationError("s".to_string()),
        RouterError::RpcError("r".to_string()),
        RouterError::CacheError("c".to_string()),
        RouterError::ConfigError("g".to_string()),
        RouterError::InternalError("i".to_string()),
    ];
    let messages = vec![
        "Insufficient liquidity: required 5, available 3",
        "Price impact too high: 12.345678%",
        "Invalid token address: t",
        "Pool not found: p",
        "Simulation failed: s",
        "RPC error: r",
        "Cache error: c",
        "Configuration error: g",
        "Internal error: i",
    ];
    for (error, message) in others.into_iter().zip(messages) {
        assert_eq!(error.message(), message);
        let api = ApiError::from_router_error(error);
        assert_eq!(api.status_code(), 500);
        let body = api.into_response();
        assert_eq!(body.error, "Internal Server Error");
        assert_eq!(body.message, message);
    }
    assert_eq!(
        RouterError::PriceImpactTooHigh { impact: 5 }.message(),
        "Price impact too high: 0.000005%"
    );
    assert_eq!(
        RouterError::NoRouteFound { from: a, to: b }.message(),
        "No route found from 0x0000000000000000000000000000000000000001 to 0x0000000000000000000000000000000000000002"
    );
}

#[test]
fn test_settings_defaults() {
    let settings = Settings::load();
    assert_eq!(settings.server.host, "0.0.0.0");
    assert_eq!(settings.server.port, 3001);
    assert_eq!(settings.chain.chain_id, 8453);
    assert_eq!(settings.chain.rpc_url, "https://mainnet.base.org");
    assert_eq!(settings.chain.pool_manager, "0x91B9463d0e4d99BB2D922cba2C9D4cd13c9a7C05");
    assert_eq!(settings.routing.max_hops, 4);
    assert_eq!(settings.routing.max_splits, 3);
    assert_eq!(routing_engine::api::dto::DEFAULT_SLIPPAGE_BPS, 50);
}
