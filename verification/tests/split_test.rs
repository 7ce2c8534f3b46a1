use routing_engine::graph::PoolEdge;
use routing_engine::routing::split::{
    calculate_combined_price_impact, scale_route, simulate_route_output,
};
use routing_engine::routing::{optimize_split_route, Route, RouteHop, SplitRoute};
use routing_engine::utils::{address_from_u64, RouterError, U256};

fn u(n: u128) -> U256 {
    U256::from_u128(n)
}

fn create_test_route(amount_in: U256, amount_out: U256, price_impact: u64, gas: u64) -> Route {
    let pool = PoolEdge::new(
        [1u8; 32],
        address_from_u64(1),
        address_from_u64(2),
        3000,
        60,
        1_000_000,
        u(1u128 << 96),
        0,
    );

    let hop = RouteHop::new(pool, address_from_u64(1), address_from_u64(2), amount_in, amount_out);

    Route::new(vec![hop], amount_in, amount_out, price_impact, gas)
}

fn shares(split: &SplitRoute) -> Vec<u8> {
    split.routes.iter().map(|(_, pct)| *pct).collect()
}

#[test]
fn test_single_route_split() {
    let route = create_test_route(u(1000), u(990), 100_000, 100_000);

    let split = optimize_split_route(vec![route], u(1000)).expect("Should optimize");

    assert_eq!(split.routes.len(), 1);
    assert_eq!(split.routes[0].1, 100);
}

#[test]
fn test_two_route_split() {
    let route1 = create_test_route(u(1000), u(990), 100_000, 100_000);
    let route2 = create_test_route(u(1000), u(985), 150_000, 110_000);

    let split = optimize_split_route(vec![route1, route2], u(1000)).expect("Should optimize");

    assert!(split.routes.len() >= 1);
    assert!(split.total_amount_out > U256::zero());

    let total_pct: u8 = split.routes.iter().map(|(_, pct)| pct).sum();
    assert_eq!(total_pct, 100);
}

#[test]
fn test_three_route_split() {
    let route1 = create_test_route(u(1000), u(990), 100_000, 100_000);
    let route2 = create_test_route(u(1000), u(985), 150_000, 110_000);
    let route3 = create_test_route(u(1000), u(980), 200_000, 120_000);

    let split =
        optimize_split_route(vec![route1, route2, route3], u(1000)).expect("Should optimize");

    assert!(split.routes.len() >= 1);
    assert!(split.total_amount_out > U256::zero());

    let total_pct: u8 = split.routes.iter().map(|(_, pct)| pct).sum();
    assert_eq!(total_pct, 100);
}

#[test]
fn test_simulate_route_output() {
    let route = create_test_route(u(1000), u(990), 100_000, 100_000);

    let output = simulate_route_output(&route, u(500));
    assert!(output > U256::zero());
    assert!(output < u(990));
    assert_eq!(output, u(495));
}

#[test]
fn test_scale_route() {
    let route = create_test_route(u(1000), u(990), 100_000, 100_000);

    let scaled = scale_route(&route, u(500));

    assert_eq!(scaled.total_amount_in, u(500));
    assert!(scaled.total_amount_out > U256::zero());
    assert!(scaled.total_amount_out < route.total_amount_out);
}

#[test]
fn test_combined_price_impact() {
    let route1 = create_test_route(u(500), u(495), 100_000, 100_000);
    let route2 = create_test_route(u(500), u(490), 200_000, 100_000);

    let routes = vec![(route1, 50u8), (route2, 50u8)];

    let impact = calculate_combined_price_impact(&routes);

    assert!(impact >= 140_000 && impact <= 160_000);
    assert_eq!(impact, 150_000);
}

#[test]
fn test_no_routes_is_an_internal_error() {
    match optimize_split_route(Vec::new(), u(1_000_000_000_000_000_000)) {
        Err(RouterError::InternalError(message)) => {
            assert_eq!(message, "No routes provided for split optimization")
        }
        _ => panic!("Expected InternalError"),
    }
}

#[test]
fn test_small_amounts_are_not_split() {
    let worse = create_test_route(u(1000), u(985), 150_000, 110_000);
    let best = create_test_route(u(1000), u(990), 100_000, 100_000);
    let last = create_test_route(u(1000), u(990), 100_000, 90_000);
    let below = u(99_999_999_999_999_999);
    let split = optimize_split_route(vec![worse, best, last], below).unwrap();
    assert_eq!(shares(&split), vec![100]);
    // The first of the routes with the greatest output stands alone, as it is.
    assert_eq!(split.routes[0].0.total_amount_out, u(990));
    assert_eq!(split.routes[0].0.gas_estimate, 100_000);
    assert_eq!(split.total_amount_in, u(1000));
    assert_eq!(split.total_amount_out, u(990));
    assert_eq!(split.combined_price_impact, 100_000);
    assert_eq!(split.total_gas_estimate, 100_000);
}

#[test]
fn test_scaling_exact_values() {
    let route = create_test_route(u(1000), u(990), 100_000, 100_000);
    let scaled = scale_route(&route, u(500));
    assert_eq!(scaled.total_amount_out, u(495));
    // The impact grows with the square root of the scale: 0.1% * sqrt(0.5).
    assert_eq!(scaled.price_impact, 70_710);
    assert_eq!(scaled.gas_estimate, 100_000);
    assert_eq!(scaled.hops.len(), 1);
    assert_eq!(scaled.hops[0].amount_in, u(1000));
    let doubled = scale_route(&route, u(4000));
    assert_eq!(doubled.total_amount_out, u(3960));
    assert_eq!(doubled.price_impact, 200_000);
    let nothing = scale_route(&route, u(0));
    assert_eq!(nothing.total_amount_out, u(0));
    assert_eq!(nothing.price_impact, 0);
    let empty = create_test_route(u(0), u(990), 100_000, 100_000);
    assert_eq!(simulate_route_output(&empty, u(500)), u(0));
    assert_eq!(scale_route(&empty, u(500)).price_impact, 100_000);
    assert_eq!(simulate_route_output(&route, u(0)), u(0));
    assert_eq!(simulate_route_output(&route, u(1)), u(0));
    assert_eq!(simulate_route_output(&route, u(1000)), u(990));
}

#[test]
fn test_two_way_split_takes_the_best_grid_point() {
    let total = u(200_000_000_000_000_000);
    let first = create_test_route(u(1000), u(990), 100_000, 100_000);
    let second = create_test_route(u(1000), u(985), 150_000, 110_000);
    let split = optimize_split_route(vec![first, second], total).unwrap();
    assert_eq!(shares(&split), vec![100]);
    assert_eq!(split.total_amount_in, total);
    assert_eq!(split.total_amount_out, u(198_000_000_000_000_000));
    assert_eq!(split.routes[0].0.total_amount_in, total);
    assert_eq!(split.routes[0].0.total_amount_out, u(198_000_000_000_000_000));
    assert_eq!(split.total_gas_estimate, 100_000);
    // With the better route second, everything goes there.
    let first = create_test_route(u(1000), u(985), 150_000, 110_000);
    let second = create_test_route(u(1000), u(990), 100_000, 100_000);
    let split = optimize_split_route(vec![first, second], total).unwrap();
    assert_eq!(shares(&split), vec![100]);
    assert_eq!(split.routes[0].0.gas_estimate, 100_000);
    assert_eq!(split.total_amount_out, u(198_000_000_000_000_000));
}

#[test]
fn test_equal_routes_take_the_first_best_shares() {
    let total = u(1_000_000_000_000_000_000);
    let route = || create_test_route(u(1000), u(990), 100_000, 100_000);
    // Every split in two pays the same but for rounding; the first with the
    // greatest output is taken.
    let two = optimize_split_route(vec![route(), route()], total).unwrap();
    let sum: u32 = shares(&two).iter().map(|s| *s as u32).sum();
    assert_eq!(sum, 100);
    assert_eq!(two.total_amount_out, u(990_000_000_000_000_000));
    let three = optimize_split_route(vec![route(), route(), route()], total).unwrap();
    let sum: u32 = shares(&three).iter().map(|s| *s as u32).sum();
    assert_eq!(sum, 100);
    assert!(three.routes.len() <= 3);
    assert_eq!(three.total_amount_out, u(990_000_000_000_000_000));
}

#[test]
fn test_more_than_three_routes_use_the_first_three() {
    let total = u(1_000_000_000_000_000_000);
    let routes = vec![
        create_test_route(u(1000), u(900), 100_000, 1),
        create_test_route(u(1000), u(910), 100_000, 2),
        create_test_route(u(1000), u(920), 100_000, 3),
        create_test_route(u(1000), u(999), 100_000, 4),
    ];
    let split = optimize_split_route(routes, total).unwrap();
    assert_eq!(shares(&split), vec![100]);
    assert_eq!(split.routes[0].0.gas_estimate, 3);
    assert_eq!(split.total_amount_out, u(920_000_000_000_000_000));
}

#[test]
fn test_routes_without_output_send_everything_down_the_first() {
    let total = u(1_000_000_000_000_000_000);
    let dead = |gas: u64| create_test_route(u(1000), u(0), 0, gas);
    let two = optimize_split_route(vec![dead(1), dead(2)], total).unwrap();
    assert_eq!(shares(&two), vec![100]);
    assert_eq!(two.routes[0].0.gas_estimate, 1);
    assert_eq!(two.total_amount_out, u(0));
    let three = optimize_split_route(vec![dead(1), dead(2), dead(3)], total).unwrap();
    assert_eq!(shares(&three), vec![100]);
    assert_eq!(three.routes[0].0.gas_estimate, 1);
    assert_eq!(three.routes[0].0.total_amount_in, total);
}

#[test]
fn test_split_route_single_and_counts() {
    let route = create_test_route(u(1000), u(990), 100_000, 100_000);
    assert_eq!(route.hop_count(), 1);
    let single = SplitRoute::single(route);
    assert_eq!(single.split_count(), 1);
    assert_eq!(single.routes[0].1, 100);
    assert_eq!(single.total_amount_in, u(1000));
    assert_eq!(single.total_amount_out, u(990));
    assert_eq!(single.combined_price_impact, 100_000);
    assert_eq!(single.total_gas_estimate, 100_000);
    let copy = single.clone();
    assert_eq!(copy.routes.len(), 1);
    assert_eq!(copy.routes[0].0.hops.len(), 1);
    assert_eq!(copy.total_amount_out, u(990));
    let built = SplitRoute::new(Vec::new(), u(1), u(2), 3, 4);
    assert_eq!(built.split_count(), 0);
    assert_eq!(built.total_gas_estimate, 4);
    assert_eq!(calculate_combined_price_impact(&Vec::new()), 0);
}

#[test]
fn test_route_string() {
    let route = create_test_route(u(1000), u(990), 100_000, 100_000);
    assert_eq!(
        route.route_string(),
        "0x0000000000000000000000000000000000000001 → 0x0000000000000000000000000000000000000002"
    );
    let empty = Route::new(Vec::new(), u(0), u(0), 0, 0);
    assert_eq!(empty.route_string(), "");
    assert_eq!(empty.hop_count(), 0);
    let pool = PoolEdge::new([1u8; 32], address_from_u64(2), address_from_u64(3), 3000, 60, 1, u(1), 0);
    let mut hops = route.clone().hops;
    hops.push(RouteHop::new(pool, address_from_u64(2), address_from_u64(3), u(990), u(980)));
    let longer = Route::new(hops, u(1000), u(980), 0, 0);
    assert_eq!(
        longer.route_string(),
        "0x0000000000000000000000000000000000000001 → 0x0000000000000000000000000000000000000002 → 0x0000000000000000000000000000000000000003"
    );
}
