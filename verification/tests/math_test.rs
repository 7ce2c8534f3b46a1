use routing_engine::utils::math::{
    apply_slippage, compute_swap_step, get_amount0_delta, get_amount1_delta,
    get_next_sqrt_price_from_amount0, get_next_sqrt_price_from_amount1, q96, sqrt_price_x96_to_tick,
    sqrt_u256, tick_to_sqrt_price_x96,
};
use routing_engine::utils::U256;

fn u(n: u128) -> U256 {
    U256::from_u128(n)
}

#[test]
fn test_sqrt() {
    assert_eq!(sqrt_u256(u(0)), u(0));
    assert_eq!(sqrt_u256(u(1)), u(1));
    assert_eq!(sqrt_u256(u(4)), u(2));
    assert_eq!(sqrt_u256(u(9)), u(3));
    assert_eq!(sqrt_u256(u(16)), u(4));
}

#[test]
fn test_sqrt_rounds_down() {
    assert_eq!(sqrt_u256(u(2)), u(1));
    assert_eq!(sqrt_u256(u(3)), u(1));
    assert_eq!(sqrt_u256(u(8)), u(2));
    assert_eq!(sqrt_u256(u(99)), u(9));
    assert_eq!(sqrt_u256(u(100)), u(10));
    assert_eq!(sqrt_u256(u(1_000_000_000_000)), u(1_000_000));
    assert_eq!(sqrt_u256(u(u128::MAX)), u(u64::MAX as u128));
    let max = U256 { w3: u64::MAX, w2: u64::MAX, w1: u64::MAX, w0: u64::MAX };
    assert_eq!(sqrt_u256(max), u(u128::MAX));
}

#[test]
fn test_slippage() {
    let amount = u(1000);
    let result = apply_slippage(amount, 50);
    assert_eq!(result, u(995));
}

#[test]
fn test_slippage_edges() {
    assert_eq!(apply_slippage(u(1000), 0), u(1000));
    assert_eq!(apply_slippage(u(1000), 10_000), u(0));
    assert_eq!(apply_slippage(u(999), 50), u(994));
    assert_eq!(apply_slippage(u(0), 50), u(0));
}

#[test]
fn test_q96_is_two_to_the_96() {
    assert_eq!(q96(), u(1u128 << 96));
    assert_eq!(routing_engine::utils::Q96, 1u128 << 96);
}

#[test]
fn test_compute_swap_step_zero_for_one() {
    let sqrt_price_current = u(1u128 << 96);
    let sqrt_price_target = tick_to_sqrt_price_x96(-100);
    let liquidity: u128 = 1_000_000_000_000_000_000_000;
    let amount_remaining = u(1_000_000_000_000_000_000u128);
    let fee_pips = 3000u32;

    let result = compute_swap_step(
        sqrt_price_current,
        sqrt_price_target,
        liquidity,
        amount_remaining,
        fee_pips,
    );

    assert!(result.amount_out > U256::zero(), "Should have output");
    assert!(result.amount_in > U256::zero(), "Should consume input");
    assert!(result.fee_amount > U256::zero(), "Should have fee");
}

#[test]
fn test_compute_swap_step_one_for_zero() {
    let sqrt_price_current = u(1u128 << 96);
    let sqrt_price_target = tick_to_sqrt_price_x96(100);
    let liquidity: u128 = 1_000_000_000_000_000_000_000;
    let amount_remaining = u(1_000_000_000_000_000_000u128);
    let fee_pips = 3000u32;

    let result = compute_swap_step(
        sqrt_price_current,
        sqrt_price_target,
        liquidity,
        amount_remaining,
        fee_pips,
    );

    assert!(result.amount_out > U256::zero(), "Should have output");
    assert!(result.amount_in > U256::zero(), "Should consume input");
}

#[test]
fn test_compute_swap_step_zero_remaining() {
    let sqrt_price_current = u(1u128 << 96);
    let sqrt_price_target = tick_to_sqrt_price_x96(-60);
    let liquidity: u128 = 1_000_000_000_000_000_000_000;
    let fee_pips = 3000u32;

    let result = compute_swap_step(
        sqrt_price_current,
        sqrt_price_target,
        liquidity,
        U256::zero(),
        fee_pips,
    );

    assert_eq!(result.amount_in, U256::zero());
    assert_eq!(result.amount_out, U256::zero());
    assert_eq!(result.sqrt_price_next, sqrt_price_current);
}

#[test]
fn test_compute_swap_step_zero_liquidity() {
    let current = u(1u128 << 96);
    let result = compute_swap_step(current, tick_to_sqrt_price_x96(-60), 0, u(1000), 3000);
    assert_eq!(result.amount_in, U256::zero());
    assert_eq!(result.amount_out, U256::zero());
    assert_eq!(result.fee_amount, U256::zero());
    assert_eq!(result.sqrt_price_next, current);
}

#[test]
fn test_compute_swap_step_exact_values_token0_in() {
    let result = compute_swap_step(
        u(1u128 << 96),
        tick_to_sqrt_price_x96(-100),
        1_000_000_000_000_000_000_000,
        u(1_000_000_000_000_000_000),
        3000,
    );
    assert_eq!(result.sqrt_price_next, u(79149250711305166342700278159));
    assert_eq!(result.amount_in, u(997_000_000_000_000_000));
    assert_eq!(result.amount_out, u(996_006_981_039_903_216));
    assert_eq!(result.fee_amount, u(3_000_000_000_000_000));
}

#[test]
fn test_compute_swap_step_exact_values_token1_in() {
    let result = compute_swap_step(
        u(1u128 << 96),
        tick_to_sqrt_price_x96(100),
        1_000_000_000_000_000_000_000,
        u(1_000_000_000_000_000_000),
        3000,
    );
    assert_eq!(result.sqrt_price_next, u(79307152992291059138124713654));
    assert_eq!(result.amount_in, u(997_000_000_000_000_000));
    assert_eq!(result.amount_out, u(996_006_981_039_903_216));
    assert_eq!(result.fee_amount, u(3_000_000_000_000_000));
}

#[test]
fn test_compute_swap_step_accounting_closes() {
    let remaining = u(1_000_000_000_000_000_000);
    let result = compute_swap_step(
        u(1u128 << 96),
        tick_to_sqrt_price_x96(-60),
        1_000_000_000_000_000_000_000,
        remaining,
        3000,
    );
    assert_eq!(result.amount_in.wrapping_add(result.fee_amount), remaining);
    assert!(result.amount_out > U256::zero());
    assert!(result.amount_out < remaining);
}

#[test]
fn test_compute_swap_step_reaching_target_charges_one_unit_more() {
    // The input is exactly the amount less the fee, so the fee of a reached
    // target lifts the total one unit above the amount.
    let q = 1u128 << 96;
    let result = compute_swap_step(u(q), u(2 * q), 997_000, u(1_000_000), 3000);
    assert_eq!(result.sqrt_price_next, u(2 * q));
    assert_eq!(result.amount_in, u(997_000));
    assert_eq!(result.amount_out, u(498_500));
    assert_eq!(result.fee_amount, u(3_001));
}

#[test]
fn test_compute_swap_step_without_fee() {
    let q = 1u128 << 96;
    let result = compute_swap_step(u(q), u(2 * q), 997_000, u(1_000_000), 0);
    assert_eq!(result.amount_in, u(997_000));
    assert_eq!(result.fee_amount, u(0));
}

#[test]
fn test_compute_swap_step_above_price_one_pays_more_than_it_takes() {
    let q = 1u128 << 96;
    let result = compute_swap_step(
        u(2 * q),
        tick_to_sqrt_price_x96(13803),
        1_000_000_000_000_000_000_000,
        u(1_000_000_000_000_000_000),
        3000,
    );
    assert_eq!(result.amount_out, u(3_980_063_752_876_763_733));
    assert!(result.amount_out > u(1_000_000_000_000_000_000));
}

#[test]
fn test_tick_to_sqrt_price_roundtrip() {
    for tick in [-10000, -1000, -100, 0, 100, 1000, 10000] {
        let sqrt_price = tick_to_sqrt_price_x96(tick);
        let recovered_tick = sqrt_price_x96_to_tick(sqrt_price);
        assert!(
            (recovered_tick - tick).abs() <= 1,
            "Tick roundtrip failed: {} -> {:?} -> {}",
            tick,
            sqrt_price,
            recovered_tick
        );
    }
}

#[test]
fn test_tick_roundtrip_is_exact_over_the_range() {
    let mut tick = -100_000;
    while tick <= 100_000 {
        assert_eq!(sqrt_price_x96_to_tick(tick_to_sqrt_price_x96(tick)), tick);
        tick += 997;
    }
    for tick in [-887272, -887271, -1, 0, 1, 887271, 887272] {
        assert_eq!(sqrt_price_x96_to_tick(tick_to_sqrt_price_x96(tick)), tick);
    }
}

#[test]
fn test_tick_prices_exact_values() {
    assert_eq!(tick_to_sqrt_price_x96(0), u(1u128 << 96));
    assert_eq!(tick_to_sqrt_price_x96(-60), u(78990846045029531151608375686));
    assert_eq!(tick_to_sqrt_price_x96(60), u(79466191966197645195421774833));
    assert_eq!(tick_to_sqrt_price_x96(100), u(79625275426524748796330556128));
    assert_eq!(tick_to_sqrt_price_x96(-100), u(78833030112140176575862854579));
    assert_eq!(tick_to_sqrt_price_x96(-887272), u(4295128739));
    assert_eq!(
        tick_to_sqrt_price_x96(887272).to_decimal_string(),
        "1461446703485210103287273052203988822378723970342"
    );
}

#[test]
fn test_tick_outside_the_range_has_price_one() {
    assert_eq!(tick_to_sqrt_price_x96(887273), u(1u128 << 96));
    assert_eq!(tick_to_sqrt_price_x96(-887273), u(1u128 << 96));
    assert_eq!(tick_to_sqrt_price_x96(i32::MAX), u(1u128 << 96));
    assert_eq!(tick_to_sqrt_price_x96(i32::MIN), u(1u128 << 96));
}

#[test]
fn test_price_to_tick_edges() {
    assert_eq!(sqrt_price_x96_to_tick(U256::zero()), 0);
    assert_eq!(sqrt_price_x96_to_tick(u(1)), -887272);
    assert_eq!(sqrt_price_x96_to_tick(u(4295128738)), -887272);
    let max = U256 { w3: u64::MAX, w2: u64::MAX, w1: u64::MAX, w0: u64::MAX };
    assert_eq!(sqrt_price_x96_to_tick(max), 887272);
    assert_eq!(sqrt_price_x96_to_tick(u((1u128 << 96) + 1)), 0);
    assert_eq!(sqrt_price_x96_to_tick(u((1u128 << 96) - 1)), -1);
}

#[test]
fn test_amount0_delta_basic() {
    let q96 = u(1u128 << 96);
    let sqrt_lower = q96;
    let sqrt_upper = q96.wrapping_mul(u(2));
    let liq = u(1_000_000_000_000_000_000u128);

    let delta = get_amount0_delta(sqrt_lower, sqrt_upper, liq, true);
    assert!(delta > U256::zero());
}

#[test]
fn test_amount1_delta_basic() {
    let q96 = u(1u128 << 96);
    let sqrt_lower = q96;
    let sqrt_upper = q96.wrapping_mul(u(2));
    let liq = u(1_000_000_000_000_000_000u128);

    let delta = get_amount1_delta(sqrt_lower, sqrt_upper, liq, true);
    assert!(delta > U256::zero());
}

#[test]
fn test_deltas_exact_values_and_rounding() {
    let q = 1u128 << 96;
    // liquidity * (upper - lower) / 2^96 between prices one and four.
    assert_eq!(get_amount1_delta(u(q), u(2 * q), u(1_000_000), true), u(1_000_000));
    // liquidity * 2^96 * (upper - lower) / (upper * lower).
    assert_eq!(get_amount0_delta(u(q), u(2 * q), u(1_000_000), true), u(500_000));
    assert_eq!(get_amount0_delta(u(q), u(3 * q), u(1_000_000), true), u(666_667));
    assert_eq!(get_amount0_delta(u(q), u(3 * q), u(1_000_000), false), u(666_666));
    assert_eq!(get_amount1_delta(u(q), u(q + 1), u(1), true), u(1));
    assert_eq!(get_amount1_delta(u(q), u(q + 1), u(1), false), u(0));
    assert_eq!(get_amount0_delta(u(2 * q), u(q), u(1_000_000), true), u(0));
    assert_eq!(get_amount0_delta(u(0), u(q), u(1_000_000), true), u(0));
    assert_eq!(get_amount1_delta(u(q), u(q), u(1_000_000), true), u(0));
}

#[test]
fn test_next_prices_exact_values() {
    let q = 1u128 << 96;
    // price + amount * 2^96 / liquidity
    assert_eq!(get_next_sqrt_price_from_amount1(u(q), u(1000), u(500)), u(q + q / 2));
    assert_eq!(get_next_sqrt_price_from_amount1(u(q), u(0), u(500)), u(q));
    // liquidity * price / (liquidity + amount * price / 2^96), rounded up
    assert_eq!(get_next_sqrt_price_from_amount0(u(q), u(1000), u(1000)), u(q / 2));
    assert_eq!(get_next_sqrt_price_from_amount0(u(q), u(1000), u(0)), u(q));
    assert_eq!(
        get_next_sqrt_price_from_amount0(u(q), u(1000), u(500)),
        u((1000 * q + 1499) / 1500)
    );
}
