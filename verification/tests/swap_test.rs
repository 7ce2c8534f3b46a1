use routing_engine::graph::PoolEdge;
use routing_engine::simulation::swap::{boundary_sqrt_price, step_through_pool};
use routing_engine::simulation::SwapSimulator;
use routing_engine::utils::math::tick_to_sqrt_price_x96;
use routing_engine::utils::{address_from_u64, RouterError, U256};

fn u(n: u128) -> U256 {
    U256::from_u128(n)
}

fn create_test_pool(fee: u32, liquidity: u128, tick: i32) -> PoolEdge {
    PoolEdge::new(
        [1u8; 32],
        address_from_u64(1),
        address_from_u64(2),
        fee,
        60,
        liquidity,
        tick_to_sqrt_price_x96(tick),
        tick,
    )
}

#[test]
fn test_simulate_swap_zero_for_one() {
    let pool = create_test_pool(3000, 1_000_000_000_000_000_000_000, 0);
    let sim = SwapSimulator::new();
    let amount_in = u(1_000_000_000_000_000_000u128);

    let result = sim.simulate_swap(&pool, amount_in, true).unwrap();

    assert!(result.amount_out > U256::zero(), "Should produce output");
    assert!(result.tick_after <= pool.tick, "Tick should move down for zero_for_one");
}

#[test]
fn test_simulate_swap_one_for_zero() {
    let pool = create_test_pool(3000, 1_000_000_000_000_000_000_000, 0);
    let sim = SwapSimulator::new();
    let amount_in = u(1_000_000_000_000_000_000u128);

    let result = sim.simulate_swap(&pool, amount_in, false).unwrap();

    assert!(result.amount_out > U256::zero(), "Should produce output");
}

#[test]
fn test_simulate_swap_zero_amount() {
    let pool = create_test_pool(3000, 1_000_000_000_000_000_000_000, 0);
    let sim = SwapSimulator::new();

    let result = sim.simulate_swap(&pool, U256::zero(), true).unwrap();
    assert_eq!(result.amount_out, U256::zero());
}

#[test]
fn test_simulate_swap_no_liquidity() {
    let pool = create_test_pool(3000, 0, 0);
    let sim = SwapSimulator::new();
    let amount_in = u(1000);

    let result = sim.simulate_swap(&pool, amount_in, true);
    assert!(result.is_err());
}

#[test]
fn test_multi_step_swap() {
    let pool = create_test_pool(3000, 1_000_000_000_000_000_000_000, 0);
    let sim = SwapSimulator::new();
    let amount_in = u(1_000_000_000_000_000_000u128);

    let single = sim.simulate_swap(&pool, amount_in, true).unwrap();
    let multi = sim.simulate_swap_multi_step(&pool, amount_in, true, 5).unwrap();

    assert!(multi.amount_out >= single.amount_out);
}

#[test]
fn test_simulate_swap_exact_result() {
    let pool = create_test_pool(3000, 1_000_000_000_000_000_000_000, 0);
    let sim = SwapSimulator::default();
    let result = sim.simulate_swap(&pool, u(1_000_000_000_000_000_000), true).unwrap();
    assert_eq!(result.amount_out, u(996_006_981_039_903_216));
    assert_eq!(result.sqrt_price_after, u(79149250711305166342700278159));
    assert_eq!(result.tick_after, -20);
    let zero = sim.simulate_swap(&pool, U256::zero(), false).unwrap();
    assert_eq!(zero.sqrt_price_after, pool.sqrt_price_x96);
    assert_eq!(zero.tick_after, pool.tick);
}

#[test]
fn test_simulate_swap_errors() {
    let sim = SwapSimulator::new();
    let dry = create_test_pool(3000, 0, 0);
    match sim.simulate_swap(&dry, u(1000), true) {
        Err(RouterError::InsufficientLiquidity { required, available }) => {
            assert_eq!(required, "1000");
            assert_eq!(available, "0");
        }
        _ => panic!("Expected InsufficientLiquidity"),
    }
    let all_fee = create_test_pool(1_000_000, 1_000_000_000, 0);
    match sim.simulate_swap(&all_fee, u(1000), true) {
        Err(RouterError::SimulationError(message)) => assert_eq!(message, "Fee out of range"),
        _ => panic!("Expected SimulationError"),
    }
    assert!(matches!(
        sim.simulate_swap_multi_step(&dry, u(1000), true, 3),
        Err(RouterError::InsufficientLiquidity { .. })
    ));
    assert!(matches!(
        sim.simulate_swap_multi_step(&all_fee, u(1000), true, 3),
        Err(RouterError::SimulationError(_))
    ));
}

#[test]
fn test_multi_step_swap_steps() {
    let pool = create_test_pool(3000, 1_000_000_000_000_000_000_000, 0);
    let sim = SwapSimulator::new();
    let amount = u(1_000_000_000_000_000_000);
    let one = sim.simulate_swap_multi_step(&pool, amount, true, 1).unwrap();
    let single = sim.simulate_swap(&pool, amount, true).unwrap();
    assert_eq!(one.amount_out, single.amount_out);
    assert_eq!(one.sqrt_price_after, single.sqrt_price_after);
    assert_eq!(one.tick_after, single.tick_after);
    let none = sim.simulate_swap_multi_step(&pool, amount, true, 0).unwrap();
    assert_eq!(none.amount_out, U256::zero());
    assert_eq!(none.sqrt_price_after, pool.sqrt_price_x96);
    let zero = sim.simulate_swap_multi_step(&pool, U256::zero(), true, 5).unwrap();
    assert_eq!(zero.amount_out, U256::zero());
    assert_eq!(zero.tick_after, pool.tick);
}

#[test]
fn test_boundary_price_and_step() {
    assert_eq!(boundary_sqrt_price(0, 60, true), tick_to_sqrt_price_x96(-60));
    assert_eq!(boundary_sqrt_price(0, 60, false), tick_to_sqrt_price_x96(60));
    assert_eq!(boundary_sqrt_price(i32::MAX, i32::MAX, false), u(1u128 << 96));
    assert_eq!(boundary_sqrt_price(i32::MIN, i32::MAX, true), u(1u128 << 96));
    let pool = create_test_pool(3000, 1_000_000, 0);
    let step = step_through_pool(&pool, u(1_000_000), true);
    assert_eq!(step.amount_in, u(3005));
    assert_eq!(step.amount_out, u(2995));
    assert_eq!(step.fee_amount, u(10));
    assert_eq!(step.sqrt_price_next, tick_to_sqrt_price_x96(-60));
}
