//! Fixed-point arithmetic of a concentrated-liquidity pool.
//!
//! Square-root prices are Q64.96 numbers held in a [`U256`]. All arithmetic is
//! 256-bit and wraps, so each formula below is stated with the wrapping
//! operations of [`crate::uint`]; the laws at the end of the file say what the
//! formulas mean where no intermediate value leaves 256 bits.

use vstd::prelude::*;
pub use crate::utils::tick::{sqrt_price_x96_to_tick, tick_to_sqrt_price_x96};
use crate::utils::uint::{
    ceil_div, lemma_ceil_at_least, lemma_ceil_at_most, lemma_ceil_bounds, lemma_floor_bounds,
    lemma_product_fits, lemma_view_bound, modulus, pow2_128, wrap_add, wrap_mul, wrap_sub, U256,
};

verus! {

/// The denominator of a fee given in pips.
pub const FEE_DENOMINATOR: u32 = 1_000_000;

/// The denominator of a slippage given in basis points.
pub const BPS_DENOMINATOR: u32 = 10_000;

/// 2^96, the scale of a square-root price.
pub open spec fn q96_value() -> nat {
    0x1_0000_0000_0000_0000_0000_0000
}

/// 2^96 as a [`U256`].
pub fn q96() -> (r: U256)
    ensures
        r@ == q96_value(),
{
    U256 { w3: 0, w2: 0, w1: 0x1_0000_0000, w0: 0 }
}

/// `amount` reduced by `slippage_bps` basis points, in wrapping arithmetic.
pub open spec fn slippage_applied(amount: nat, slippage_bps: nat) -> nat {
    wrap_mul(amount, wrap_sub(BPS_DENOMINATOR as nat, slippage_bps)) / (BPS_DENOMINATOR as nat)
}

/// The least amount a taker accepts: `amount * (10000 - slippage_bps) / 10000`.
pub fn apply_slippage(amount: U256, slippage_bps: u32) -> (r: U256)
    ensures
        r@ == slippage_applied(amount@, slippage_bps as nat),
{
    let basis_points = U256::from_u64(BPS_DENOMINATOR as u64);
    let kept = basis_points.wrapping_sub(U256::from_u64(slippage_bps as u64));
    amount.wrapping_mul(kept).div(basis_points)
}

/// Where the slippage is at most 100% and the product fits in 256 bits, the
/// result is the exact share of `amount`, and never more than `amount`.
pub proof fn lemma_slippage_exact(amount: nat, slippage_bps: nat)
    requires
        slippage_bps <= BPS_DENOMINATOR,
        amount * BPS_DENOMINATOR < modulus(),
    ensures
        slippage_applied(amount, slippage_bps) == amount * (BPS_DENOMINATOR - slippage_bps)
            / (BPS_DENOMINATOR as int),
        slippage_applied(amount, slippage_bps) <= amount,
{
    let kept = (BPS_DENOMINATOR - slippage_bps) as nat;
    assert(wrap_sub(BPS_DENOMINATOR as nat, slippage_bps) == kept);
    assert(amount * kept <= amount * BPS_DENOMINATOR) by (nonlinear_arith)
        requires
            kept <= BPS_DENOMINATOR,
    ;
    assert(wrap_mul(amount, kept) == amount * kept);
    assert(amount * kept / 10000 <= amount) by (nonlinear_arith)
        requires
            amount * kept <= amount * 10000,
    ;
}

/// Whether `root` is the square root of `value` rounded down.
pub open spec fn is_floor_sqrt(value: nat, root: nat) -> bool {
    root * root <= value < (root + 1) * (root + 1)
}

/// The square root of `value`, rounded down.
pub open spec fn floor_sqrt(value: nat) -> nat {
    choose|root: nat| is_floor_sqrt(value, root)
}

/// A number has one square root rounded down.
pub proof fn lemma_floor_sqrt_unique(value: nat, a: nat, b: nat)
    requires
        is_floor_sqrt(value, a),
        is_floor_sqrt(value, b),
    ensures
        a == b,
{
    assert(a == b) by (nonlinear_arith)
        requires
            a * a <= value,
            value < (a + 1) * (a + 1),
            b * b <= value,
            value < (b + 1) * (b + 1),
    {
        if a < b {
            assert((a + 1) * (a + 1) <= b * b);
        } else if b < a {
            assert((b + 1) * (b + 1) <= a * a);
        }
    }
}

/// One step of Newton's iteration from `z`: the mean of `z` and `value / z`.
pub open spec fn newton_step(value: nat, z: nat) -> nat {
    (value / z + z) / 2
}

/// Whether `z` is at least the square root of `value` rounded down.
#[verifier::opaque]
pub open spec fn covers_root(value: nat, z: nat) -> bool {
    (z + 1) * (z + 1) > value
}

/// Newton's step never falls below the square root, and a step that does not
/// descend shows that the square root is reached.
proof fn lemma_newton_step(value: nat, z: nat)
    requires
        z > 0,
        covers_root(value, z),
    ensures
        covers_root(value, newton_step(value, z)),
        newton_step(value, z) >= z ==> is_floor_sqrt(value, z),
        value >= z ==> newton_step(value, z) >= 1,
        value / z <= z + 2,
        value / z * z <= value,
{
    reveal(covers_root);
    let q = value / z;
    let x = (q + z) / 2;
    lemma_floor_bounds(value, z);
    assert(q <= z + 2) by (nonlinear_arith)
        requires
            q * z <= value,
            (z + 1) * (z + 1) > value,
            z > 0,
    ;
    assert((x + 1) * (x + 1) > value) by (nonlinear_arith)
        requires
            2 * x + 1 >= q + z,
            value < q * z + z,
            z > 0,
    {
        assert(4 * ((x + 1) * (x + 1)) >= (q + z + 1) * (q + z + 1));
        assert((q + z + 1) * (q + z + 1) >= 4 * ((q + 1) * z));
    }
    if x >= z {
        assert(z * z <= value) by (nonlinear_arith)
            requires
                q >= z,
                q * z <= value,
        ;
    }
    if value >= z {
        assert(q >= 1) by (nonlinear_arith)
            requires
                value < q * z + z,
                value >= z,
                z > 0,
        ;
    }
}

proof fn lemma_newton_start(value: nat, z: nat)
    requires
        value >= 4,
        z == value / 2 + 1,
    ensures
        covers_root(value, z),
        is_floor_sqrt(1, 1),
        is_floor_sqrt(2, 1),
        is_floor_sqrt(3, 1),
{
    reveal(covers_root);
    assert((z + 1) * (z + 1) > value) by (nonlinear_arith)
        requires
            2 * z >= value + 1,
            value >= 4,
    ;
    assert(1nat * 1nat == 1 && (1nat + 1) * (1nat + 1) == 4) by (nonlinear_arith);
}

/// The square root of `value`, rounded down, by Newton's method.
pub fn sqrt_u256(value: U256) -> (r: U256)
    ensures
        is_floor_sqrt(value@, r@),
        r@ == floor_sqrt(value@),
{
    let r = sqrt_u256_by_newton(value);
    proof {
        lemma_floor_sqrt_unique(value@, r@, floor_sqrt(value@));
    }
    r
}

fn sqrt_u256_by_newton(value: U256) -> (r: U256)
    ensures
        is_floor_sqrt(value@, r@),
{
    if value.is_zero() {
        return U256::zero();
    }
    if value.lt(&U256::from_u64(4)) {
        proof {
            lemma_newton_start(4, 3);
        }
        return U256::one();
    }
    let two = U256::from_u64(2);
    let mut z = value.div(two).wrapping_add(U256::one());
    proof {
        lemma_view_bound(value);
        lemma_newton_start(value@, z@);
        lemma_newton_step(value@, z@);
        lemma_quotient_fits(value@, z@);
    }
    let mut x = value.div(z).wrapping_add(z).div(two);
    while x.lt(&z)
        invariant
            two@ == 2,
            value@ >= 4,
            0 < z@ <= value@ / 2 + 1,
            covers_root(value@, z@),
            x@ == newton_step(value@, z@),
        decreases z@,
    {
        proof {
            lemma_newton_step(value@, z@);
        }
        z = x;
        proof {
            lemma_view_bound(value);
            lemma_newton_step(value@, z@);
            lemma_quotient_fits(value@, z@);
        }
        x = value.div(z).wrapping_add(z).div(two);
    }
    proof {
        lemma_newton_step(value@, z@);
    }
    z
}

proof fn lemma_quotient_fits(value: nat, z: nat)
    requires
        value < modulus(),
        z > 0,
        value / z <= z + 2,
        z <= value / 2 + 1,
    ensures
        value / z + z < modulus(),
{
    if z >= pow2_128() {
        lemma_floor_bounds(value, z);
        assert(value / z < pow2_128()) by (nonlinear_arith)
            requires
                value / z * z <= value,
                value < modulus(),
                z >= pow2_128(),
                modulus() == pow2_128() * pow2_128(),
                pow2_128() > 0,
        ;
    }
}

/// The token0 amount that moves the price between `lower` and `upper`:
/// `liquidity * 2^96 * (upper - lower) / (upper * lower)`, rounded up or down.
pub open spec fn amount0_delta(lower: nat, upper: nat, liquidity: nat, round_up: bool) -> nat {
    if lower >= upper || lower == 0 {
        0
    } else {
        let numerator = wrap_mul(wrap_mul(liquidity, q96_value()), (upper - lower) as nat);
        let denominator = wrap_mul(upper, lower);
        if denominator == 0 {
            0
        } else if round_up {
            ceil_div(numerator, denominator)
        } else {
            numerator / denominator
        }
    }
}

/// The token1 amount that moves the price between `lower` and `upper`:
/// `liquidity * (upper - lower) / 2^96`, rounded up or down.
pub open spec fn amount1_delta(lower: nat, upper: nat, liquidity: nat, round_up: bool) -> nat {
    if lower >= upper {
        0
    } else {
        let numerator = wrap_mul(liquidity, (upper - lower) as nat);
        if round_up {
            ceil_div(numerator, q96_value())
        } else {
            numerator / q96_value()
        }
    }
}

/// The price after `amount` of token0 enters the pool:
/// `liquidity * price / (liquidity + amount * price / 2^96)`, rounded up.
pub open spec fn next_price_from_amount0(price: nat, liquidity: nat, amount: nat) -> nat {
    if amount == 0 {
        price
    } else {
        let numerator = wrap_mul(liquidity, price);
        let denominator = wrap_add(liquidity, wrap_mul(amount, price) / q96_value());
        if denominator == 0 {
            price
        } else {
            ceil_div(numerator, denominator)
        }
    }
}

/// The price after `amount` of token1 enters the pool:
/// `price + amount * 2^96 / liquidity`.
pub open spec fn next_price_from_amount1(price: nat, liquidity: nat, amount: nat) -> nat {
    if liquidity == 0 {
        price
    } else {
        wrap_add(price, wrap_mul(amount, q96_value()) / liquidity)
    }
}

/// The token0 amount that moves the price between `lower` and `upper`, see
/// [`amount0_delta`].
pub fn get_amount0_delta(lower: U256, upper: U256, liquidity: U256, round_up: bool) -> (r: U256)
    ensures
        r@ == amount0_delta(lower@, upper@, liquidity@, round_up),
{
    if !lower.lt(&upper) || lower.is_zero() {
        return U256::zero();
    }
    let span = upper.wrapping_sub(lower);
    assert(span@ == upper@ - lower@);
    let numerator = liquidity.wrapping_mul(q96()).wrapping_mul(span);
    let denominator = upper.wrapping_mul(lower);
    if denominator.is_zero() {
        return U256::zero();
    }
    if round_up {
        numerator.div_ceil(denominator)
    } else {
        numerator.div(denominator)
    }
}

/// The token1 amount that moves the price between `lower` and `upper`, see
/// [`amount1_delta`].
pub fn get_amount1_delta(lower: U256, upper: U256, liquidity: U256, round_up: bool) -> (r: U256)
    ensures
        r@ == amount1_delta(lower@, upper@, liquidity@, round_up),
{
    if !lower.lt(&upper) {
        return U256::zero();
    }
    let span = upper.wrapping_sub(lower);
    assert(span@ == upper@ - lower@);
    let numerator = liquidity.wrapping_mul(span);
    if round_up {
        numerator.div_ceil(q96())
    } else {
        numerator.div(q96())
    }
}

/// The price after `amount` of token0 enters the pool, see
/// [`next_price_from_amount0`].
pub fn get_next_sqrt_price_from_amount0(price: U256, liquidity: U256, amount: U256) -> (r: U256)
    ensures
        r@ == next_price_from_amount0(price@, liquidity@, amount@),
{
    if amount.is_zero() {
        return price;
    }
    let numerator = liquidity.wrapping_mul(price);
    let denominator = liquidity.wrapping_add(amount.wrapping_mul(price).div(q96()));
    if denominator.is_zero() {
        return price;
    }
    numerator.div_ceil(denominator)
}

/// The price after `amount` of token1 enters the pool, see
/// [`next_price_from_amount1`].
pub fn get_next_sqrt_price_from_amount1(price: U256, liquidity: U256, amount: U256) -> (r: U256)
    ensures
        r@ == next_price_from_amount1(price@, liquidity@, amount@),
{
    if liquidity.is_zero() {
        return price;
    }
    price.wrapping_add(amount.wrapping_mul(q96()).div(liquidity))
}

/// What one swap step does to a pool and a taker.
#[derive(Clone, Copy, Debug, PartialEq, Eq, Structural)]
pub struct SwapStepResult {
    /// The square-root price after the step.
    pub sqrt_price_next: U256,
    /// The input consumed by the pool, fee excluded.
    pub amount_in: U256,
    /// The output handed to the taker.
    pub amount_out: U256,
    /// The fee taken from the input.
    pub fee_amount: U256,
}

/// The numbers of a [`SwapStepResult`].
pub struct StepAmounts {
    pub sqrt_price_next: nat,
    pub amount_in: nat,
    pub amount_out: nat,
    pub fee_amount: nat,
}

impl View for SwapStepResult {
    type V = StepAmounts;

    open spec fn view(&self) -> StepAmounts {
        StepAmounts {
            sqrt_price_next: self.sqrt_price_next@,
            amount_in: self.amount_in@,
            amount_out: self.amount_out@,
            fee_amount: self.fee_amount@,
        }
    }
}

/// The input left once the fee is set aside: `amount * (1000000 - fee) / 1000000`.
pub open spec fn amount_less_fee(amount: nat, fee_pips: nat) -> nat {
    wrap_mul(amount, (FEE_DENOMINATOR - fee_pips) as nat) / (FEE_DENOMINATOR as nat)
}

/// The input that carries the price from `current` all the way to `target`.
pub open spec fn step_input_to_target(current: nat, target: nat, liquidity: nat) -> nat {
    if current >= target {
        amount0_delta(target, current, liquidity, true)
    } else {
        amount1_delta(current, target, liquidity, true)
    }
}

/// Whether a step with `amount` remaining carries the price to `target`.
pub open spec fn step_reaches_target(
    current: nat,
    target: nat,
    liquidity: nat,
    amount: nat,
    fee_pips: nat,
) -> bool {
    amount_less_fee(amount, fee_pips) >= step_input_to_target(current, target, liquidity)
}

/// One swap step inside one tick range.
///
/// The price moves from `current` towards `target`: down when token0 comes in
/// (`current >= target`), up when token1 comes in. The fee is set aside first.
/// If what is left carries the price to `target`, the step ends there and the
/// fee is charged on the input used; otherwise the whole input is spent, the
/// price stops on the way, and the fee is what the pool did not consume. With
/// no input or no liquidity nothing moves.
pub open spec fn swap_step(
    current: nat,
    target: nat,
    liquidity: nat,
    amount: nat,
    fee_pips: nat,
) -> StepAmounts {
    if amount == 0 || liquidity == 0 {
        StepAmounts { sqrt_price_next: current, amount_in: 0, amount_out: 0, fee_amount: 0 }
    } else {
        let zero_for_one = current >= target;
        let spendable = amount_less_fee(amount, fee_pips);
        if step_reaches_target(current, target, liquidity, amount, fee_pips) {
            let amount_in = step_input_to_target(current, target, liquidity);
            StepAmounts {
                sqrt_price_next: target,
                amount_in,
                amount_out: if zero_for_one {
                    amount1_delta(target, current, liquidity, false)
                } else {
                    amount0_delta(current, target, liquidity, false)
                },
                fee_amount: if fee_pips == 0 {
                    0
                } else {
                    wrap_add(
                        wrap_mul(amount_in, fee_pips) / ((FEE_DENOMINATOR - fee_pips) as nat),
                        1,
                    )
                },
            }
        } else {
            let next = if zero_for_one {
                next_price_from_amount0(current, liquidity, spendable)
            } else {
                next_price_from_amount1(current, liquidity, spendable)
            };
            let amount_in = if zero_for_one {
                amount0_delta(next, current, liquidity, true)
            } else {
                amount1_delta(current, next, liquidity, true)
            };
            StepAmounts {
                sqrt_price_next: next,
                amount_in,
                amount_out: if zero_for_one {
                    amount1_delta(next, current, liquidity, false)
                } else {
                    amount0_delta(current, next, liquidity, false)
                },
                fee_amount: wrap_sub(amount, amount_in),
            }
        }
    }
}

/// Computes one swap step inside one tick range.
///
/// `fee_pips` is the fee in millionths and must be below one million: a fee of
/// the whole input leaves nothing to divide by.
pub fn compute_swap_step(
    sqrt_price_current: U256,
    sqrt_price_target: U256,
    liquidity: u128,
    amount_remaining: U256,
    fee_pips: u32,
) -> (r: SwapStepResult)
    requires
        fee_pips < FEE_DENOMINATOR,
    ensures
        r@ == swap_step(
            sqrt_price_current@,
            sqrt_price_target@,
            liquidity as nat,
            amount_remaining@,
            fee_pips as nat,
        ),
{
    if amount_remaining.is_zero() || liquidity == 0 {
        return SwapStepResult {
            sqrt_price_next: sqrt_price_current,
            amount_in: U256::zero(),
            amount_out: U256::zero(),
            fee_amount: U256::zero(),
        };
    }
    let zero_for_one = !sqrt_price_current.lt(&sqrt_price_target);
    let liq = U256::from_u128(liquidity);
    let fee_denom = U256::from_u64(FEE_DENOMINATOR as u64);
    let fee = U256::from_u64(fee_pips as u64);
    let fee_rest = U256::from_u64((FEE_DENOMINATOR - fee_pips) as u64);
    let spendable = amount_remaining.wrapping_mul(fee_rest).div(fee_denom);
    let amount_in_max = if zero_for_one {
        get_amount0_delta(sqrt_price_target, sqrt_price_current, liq, true)
    } else {
        get_amount1_delta(sqrt_price_current, sqrt_price_target, liq, true)
    };
    if amount_in_max.le(&spendable) {
        let amount_out = if zero_for_one {
            get_amount1_delta(sqrt_price_target, sqrt_price_current, liq, false)
        } else {
            get_amount0_delta(sqrt_price_current, sqrt_price_target, liq, false)
        };
        let fee_amount = if fee_pips == 0 {
            U256::zero()
        } else {
            amount_in_max.wrapping_mul(fee).div(fee_rest).wrapping_add(U256::one())
        };
        SwapStepResult {
            sqrt_price_next: sqrt_price_target,
            amount_in: amount_in_max,
            amount_out,
            fee_amount,
        }
    } else {
        let next = if zero_for_one {
            get_next_sqrt_price_from_amount0(sqrt_price_current, liq, spendable)
        } else {
            get_next_sqrt_price_from_amount1(sqrt_price_current, liq, spendable)
        };
        let amount_in = if zero_for_one {
            get_amount0_delta(next, sqrt_price_current, liq, true)
        } else {
            get_amount1_delta(sqrt_price_current, next, liq, true)
        };
        let amount_out = if zero_for_one {
            get_amount1_delta(next, sqrt_price_current, liq, false)
        } else {
            get_amount0_delta(sqrt_price_current, next, liq, false)
        };
        SwapStepResult {
            sqrt_price_next: next,
            amount_in,
            amount_out,
            fee_amount: amount_remaining.wrapping_sub(amount_in),
        }
    }
}

/// The distance between two prices.
pub open spec fn price_span(a: nat, b: nat) -> nat {
    if a >= b {
        (a - b) as nat
    } else {
        (b - a) as nat
    }
}

/// The inputs on which no intermediate value of a swap step leaves 256 bits:
/// prices, liquidity and amount are below 2^128, and the liquidity is moderate
/// for the price range, `liquidity * 2^96 * |current - target| < 2^256`.
pub open spec fn step_fits(current: nat, target: nat, liquidity: nat, amount: nat) -> bool {
    &&& current < pow2_128()
    &&& target < pow2_128()
    &&& liquidity < pow2_128()
    &&& amount < pow2_128()
    &&& liquidity * q96_value() * price_span(current, target) < modulus()
}

/// Where the operands fit, the token0 delta is the exact rounded quotient.
proof fn lemma_amount0_exact(lower: nat, upper: nat, liquidity: nat, round_up: bool)
    requires
        0 < lower < upper,
        upper < pow2_128(),
        liquidity < pow2_128(),
        liquidity * q96_value() * (upper - lower) < modulus(),
    ensures
        upper * lower > 0,
        amount0_delta(lower, upper, liquidity, round_up) == if round_up {
            ceil_div((liquidity * q96_value() * (upper - lower)) as nat, upper * lower)
        } else {
            (liquidity * q96_value() * (upper - lower)) as nat / (upper * lower)
        },
{
    lemma_product_fits(liquidity, q96_value());
    lemma_product_fits(upper, lower);
    assert(upper * lower > 0) by (nonlinear_arith)
        requires
            0 < lower < upper,
    ;
    let span = (upper - lower) as nat;
    assert(wrap_mul(liquidity * q96_value(), span) == liquidity * q96_value() * span);
}

/// Where the operands fit, the token1 delta is the exact rounded quotient.
proof fn lemma_amount1_exact(lower: nat, upper: nat, liquidity: nat, round_up: bool)
    requires
        lower < upper,
        liquidity * q96_value() * (upper - lower) < modulus(),
    ensures
        amount1_delta(lower, upper, liquidity, round_up) == if round_up {
            ceil_div((liquidity * (upper - lower)) as nat, q96_value())
        } else {
            (liquidity * (upper - lower)) as nat / q96_value()
        },
{
    let span = (upper - lower) as nat;
    assert(liquidity * span <= liquidity * q96_value() * span) by (nonlinear_arith)
        requires
            q96_value() >= 1,
    ;
}

/// Token0 in, token1 out, between two prices: the output is at most the input
/// times the price at the upper end.
proof fn lemma_pair_bound_zero_for_one(next: nat, current: nat, liquidity: nat)
    requires
        0 < next <= current,
        current < pow2_128(),
        liquidity < pow2_128(),
        liquidity * q96_value() * (current - next) < modulus(),
    ensures
        amount1_delta(next, current, liquidity, false) * q96_value() * q96_value() <= amount0_delta(
            next,
            current,
            liquidity,
            true,
        ) * current * current,
{
    if next < current {
        lemma_amount0_exact(next, current, liquidity, true);
        lemma_amount1_exact(next, current, liquidity, false);
        let span = (current - next) as nat;
        let q = q96_value();
        let n0 = liquidity * q * span;
        let d0 = current * next;
        let ain = ceil_div(n0, d0);
        let aout = (liquidity * span) / q;
        lemma_ceil_bounds(n0, d0);
        lemma_floor_bounds(liquidity * span, q);
        assert(aout * q * q <= ain * current * current) by (nonlinear_arith)
            requires
                aout * q <= liquidity * span,
                n0 == liquidity * q * span,
                n0 <= ain * d0,
                d0 == current * next,
                next <= current,
                q > 0,
        ;
    }
}

/// Token1 in, token0 out, between two prices: the output is at most the input
/// divided by the price at the lower end.
proof fn lemma_pair_bound_one_for_zero(current: nat, next: nat, liquidity: nat)
    requires
        current <= next,
        next < pow2_128(),
        liquidity < pow2_128(),
        liquidity * q96_value() * (next - current) < modulus(),
    ensures
        amount0_delta(current, next, liquidity, false) * current * current <= amount1_delta(
            current,
            next,
            liquidity,
            true,
        ) * q96_value() * q96_value(),
{
    if current < next && current > 0 {
        lemma_amount0_exact(current, next, liquidity, false);
        lemma_amount1_exact(current, next, liquidity, true);
        let span = (next - current) as nat;
        let q = q96_value();
        let n0 = liquidity * q * span;
        let d0 = next * current;
        let aout = n0 / d0;
        let ain = ceil_div(liquidity * span, q);
        lemma_floor_bounds(n0, d0);
        lemma_ceil_bounds(liquidity * span, q);
        assert(aout * current * current <= ain * q * q) by (nonlinear_arith)
            requires
                aout * d0 <= n0,
                n0 == liquidity * q * span,
                liquidity * span <= ain * q,
                d0 == next * current,
                current <= next,
                q > 0,
        ;
    }
}

/// A step on token0 that stops before the target: the price stays between
/// target and current, and the input recomputed at the new price is covered by
/// what was spendable.
#[verifier::rlimit(50)]
proof fn lemma_partial_zero_for_one(current: nat, target: nat, liquidity: nat, spendable: nat)
    requires
        0 < liquidity < pow2_128(),
        target <= current,
        current < pow2_128(),
        spendable < pow2_128(),
        liquidity * q96_value() * (current - target) < modulus(),
        spendable < amount0_delta(target, current, liquidity, true),
    ensures
        0 < target <= next_price_from_amount0(current, liquidity, spendable) <= current,
        amount0_delta(
            next_price_from_amount0(current, liquidity, spendable),
            current,
            liquidity,
            true,
        ) <= spendable,
{
    let q = q96_value();
    let a = spendable;
    lemma_amount0_exact(target, current, liquidity, true);
    let n = liquidity * q * (current - target);
    let d = current * target;
    assert(a * d < n) by {
        if a * d >= n {
            lemma_ceil_at_most(n as nat, d, a);
        }
    }
    if a > 0 {
        lemma_product_fits(liquidity, current);
        lemma_product_fits(a, current);
        let t = (a * current) / q;
        lemma_floor_bounds(a * current, q);
        assert(t < modulus() - pow2_128()) by (nonlinear_arith)
            requires
                t * q <= a * current,
                a * current < modulus(),
                q == 0x1_0000_0000_0000_0000_0000_0000,
                modulus() == 0x1_0000_0000_0000_0000_0000_0000_0000_0000_0000_0000_0000_0000_0000_0000_0000_0000nat,
                pow2_128() == 0x1_0000_0000_0000_0000_0000_0000_0000_0000nat,
        ;
        let dd = liquidity + t;
        assert(wrap_add(liquidity, t) == dd);
        let next = ceil_div(liquidity * current, dd);
        assert(next == next_price_from_amount0(current, liquidity, spendable));
        lemma_ceil_bounds(liquidity * current, dd);
        assert(liquidity * current <= current * dd) by (nonlinear_arith)
            requires
                dd >= liquidity,
        ;
        lemma_ceil_at_most(liquidity * current, dd, current);
        assert(target * dd <= liquidity * current) by (nonlinear_arith)
            requires
                dd == liquidity + t,
                t * q <= a * current,
                a * d < n,
                d == current * target,
                n == liquidity * q * (current - target),
                target <= current,
                q > 0,
        ;
        lemma_ceil_at_least(liquidity * current, dd, target);
        if next < current {
            assert(liquidity * q * (current - next) <= liquidity * q * (current - target))
                by (nonlinear_arith)
                requires
                    target <= next,
                    next <= current,
            ;
            lemma_amount0_exact(next, current, liquidity, true);
            let n1 = (liquidity * q * (current - next)) as nat;
            assert(n1 <= a * (current * next)) by (nonlinear_arith)
                requires
                    n1 == liquidity * q * (current - next),
                    liquidity * current <= next * dd,
                    dd == liquidity + t,
                    t * q <= a * current,
                    next <= current,
                    q > 0,
            ;
            lemma_ceil_at_most(n1, current * next, a);
        }
    }
}

/// A step on token1 that stops before the target: the price stays between
/// current and target, and the input recomputed at the new price is covered by
/// what was spendable.
#[verifier::rlimit(50)]
proof fn lemma_partial_one_for_zero(current: nat, target: nat, liquidity: nat, spendable: nat)
    requires
        0 < liquidity < pow2_128(),
        current < target,
        target < pow2_128(),
        spendable < pow2_128(),
        liquidity * q96_value() * (target - current) < modulus(),
        spendable < amount1_delta(current, target, liquidity, true),
    ensures
        current <= next_price_from_amount1(current, liquidity, spendable) <= target,
        amount1_delta(
            current,
            next_price_from_amount1(current, liquidity, spendable),
            liquidity,
            true,
        ) <= spendable,
{
    let q = q96_value();
    let a = spendable;
    lemma_amount1_exact(current, target, liquidity, true);
    let n = (liquidity * (target - current)) as nat;
    assert(a * q < n) by {
        if a * q >= n {
            lemma_ceil_at_most(n, q, a);
        }
    }
    lemma_product_fits(a, q);
    let s = (a * q) / liquidity;
    lemma_floor_bounds(a * q, liquidity);
    assert(s < target - current) by (nonlinear_arith)
        requires
            s * liquidity <= a * q,
            a * q < n,
            n == liquidity * (target - current),
            liquidity > 0,
            current < target,
    ;
    let next = current + s;
    assert(wrap_add(current, s) == next);
    assert(next == next_price_from_amount1(current, liquidity, spendable));
    if s > 0 {
        assert(liquidity * q * s <= liquidity * q * (target - current)) by (nonlinear_arith)
            requires
                s < target - current,
        ;
        lemma_amount1_exact(current, next, liquidity, true);
        assert(liquidity * s <= a * q) by (nonlinear_arith)
            requires
                s * liquidity <= a * q,
        ;
        lemma_ceil_at_most(liquidity * s, q, a);
    }
}

proof fn lemma_spendable(amount: nat, fee_pips: nat)
    requires
        fee_pips < FEE_DENOMINATOR,
        amount < pow2_128(),
    ensures
        amount_less_fee(amount, fee_pips) == amount * (FEE_DENOMINATOR - fee_pips) / (
        FEE_DENOMINATOR as int),
        amount_less_fee(amount, fee_pips) * FEE_DENOMINATOR <= amount * (FEE_DENOMINATOR
            - fee_pips),
        amount_less_fee(amount, fee_pips) <= amount,
        fee_pips > 0 && amount > 0 ==> amount_less_fee(amount, fee_pips) < amount,
{
    let rest = (FEE_DENOMINATOR - fee_pips) as nat;
    assert(amount * rest < modulus()) by (nonlinear_arith)
        requires
            rest <= 1_000_000,
            amount < 0x1_0000_0000_0000_0000_0000_0000_0000_0000nat,
            modulus() == 0x1_0000_0000_0000_0000_0000_0000_0000_0000_0000_0000_0000_0000_0000_0000_0000_0000nat,
    ;
    lemma_floor_bounds(amount * rest, FEE_DENOMINATOR as nat);
    let s = amount * rest / 1_000_000;
    assert(s <= amount && (rest < 1_000_000 && amount > 0 ==> s < amount)) by (nonlinear_arith)
        requires
            s * 1_000_000 <= amount * rest,
            rest <= 1_000_000,
    ;
}

/// The fee of a step that reached its target, `amount_in * fee / (1000000 -
/// fee) + 1`, against the amount that was offered.
proof fn lemma_fee_on_reached(amount_in: nat, amount: nat, fee_pips: nat, spendable: nat)
    requires
        0 < fee_pips < FEE_DENOMINATOR,
        amount < pow2_128(),
        amount_in <= spendable,
        spendable <= amount,
        spendable * FEE_DENOMINATOR <= amount * (FEE_DENOMINATOR - fee_pips),
    ensures
        ({
            let rest = (FEE_DENOMINATOR - fee_pips) as nat;
            let fee = wrap_add(wrap_mul(amount_in, fee_pips) / rest, 1);
            &&& fee == amount_in * fee_pips / rest + 1
            &&& amount_in + fee <= amount + 1
            &&& amount_in + fee <= amount <==> amount_in * FEE_DENOMINATOR < amount * rest
        }),
{
    let rest = (FEE_DENOMINATOR - fee_pips) as nat;
    assert(amount_in * fee_pips < pow2_128() * 1_000_000) by (nonlinear_arith)
        requires
            amount_in < pow2_128(),
            fee_pips < 1_000_000,
    ;
    let k = (amount_in * fee_pips) / rest;
    lemma_floor_bounds(amount_in * fee_pips, rest);
    assert(k <= amount_in * fee_pips) by (nonlinear_arith)
        requires
            k * rest <= amount_in * fee_pips,
            rest >= 1,
    ;
    assert(amount_in + k <= amount) by (nonlinear_arith)
        requires
            k * rest <= amount_in * fee_pips,
            amount_in <= spendable,
            spendable * 1_000_000 <= amount * rest,
            rest + fee_pips == 1_000_000,
            rest > 0,
    ;
    assert(amount_in + k + 1 <= amount <==> amount_in * 1_000_000 < amount * rest)
        by (nonlinear_arith)
        requires
            k * rest <= amount_in * fee_pips,
            amount_in * fee_pips < k * rest + rest,
            rest + fee_pips == 1_000_000,
            rest > 0,
    ;
}

/// How the input of a swap step is accounted for, where nothing overflows.
///
/// The input consumed never exceeds what is left of the amount once the fee is
/// set aside. A step that stops before its target spends the whole amount:
/// input and fee add up to it exactly. A step that reaches its target charges
/// `amount_in * fee / (1000000 - fee) + 1`, which together with the input stays
/// within the amount except in one case, where it exceeds it by one unit: the
/// fee is not zero and the input is exactly the amount less the fee.
#[verifier::rlimit(50)]
pub proof fn lemma_swap_step_accounting(
    current: nat,
    target: nat,
    liquidity: nat,
    amount: nat,
    fee_pips: nat,
)
    requires
        fee_pips < FEE_DENOMINATOR,
        step_fits(current, target, liquidity, amount),
    ensures
        ({
            let r = swap_step(current, target, liquidity, amount, fee_pips);
            let moves = amount > 0 && liquidity > 0;
            let reaches = step_reaches_target(current, target, liquidity, amount, fee_pips);
            let tight = moves && reaches && fee_pips > 0 && r.amount_in * FEE_DENOMINATOR
                == amount * (FEE_DENOMINATOR - fee_pips);
            &&& r.amount_in <= amount_less_fee(amount, fee_pips)
            &&& moves && !reaches ==> r.amount_in + r.fee_amount == amount
            &&& tight ==> r.amount_in + r.fee_amount == amount + 1
            &&& !tight ==> r.amount_in + r.fee_amount <= amount
        }),
{
    let r = swap_step(current, target, liquidity, amount, fee_pips);
    let spendable = amount_less_fee(amount, fee_pips);
    lemma_spendable(amount, fee_pips);
    if amount > 0 && liquidity > 0 {
        if step_reaches_target(current, target, liquidity, amount, fee_pips) {
            if fee_pips > 0 {
                lemma_fee_on_reached(r.amount_in, amount, fee_pips, spendable);
            }
        } else {
            if current >= target {
                lemma_partial_zero_for_one(current, target, liquidity, spendable);
            } else {
                lemma_partial_one_for_zero(current, target, liquidity, spendable);
            }
            assert(r.fee_amount == amount - r.amount_in);
        }
    }
}

/// What a swap step pays at most, where nothing overflows and the target is
/// not zero.
///
/// The price ends between current and target. With token0 coming in the output
/// is at most the input times the starting price, `out * 2^192 <= in *
/// current^2`; with token1 coming in it is at most the input divided by the
/// starting price, `out * current^2 <= in * 2^192`.
#[verifier::rlimit(50)]
pub proof fn lemma_swap_step_price_bound(
    current: nat,
    target: nat,
    liquidity: nat,
    amount: nat,
    fee_pips: nat,
)
    requires
        fee_pips < FEE_DENOMINATOR,
        step_fits(current, target, liquidity, amount),
        target > 0,
    ensures
        ({
            let r = swap_step(current, target, liquidity, amount, fee_pips);
            &&& current >= target ==> target <= r.sqrt_price_next <= current && r.amount_out
                * q96_value() * q96_value() <= r.amount_in * current * current
            &&& current < target ==> current <= r.sqrt_price_next <= target && r.amount_out
                * current * current <= r.amount_in * q96_value() * q96_value()
        }),
{
    let r = swap_step(current, target, liquidity, amount, fee_pips);
    let spendable = amount_less_fee(amount, fee_pips);
    let q = q96_value();
    lemma_spendable(amount, fee_pips);
    if amount > 0 && liquidity > 0 {
        let next = r.sqrt_price_next;
        if current >= target {
            if !step_reaches_target(current, target, liquidity, amount, fee_pips) {
                lemma_partial_zero_for_one(current, target, liquidity, spendable);
            }
            assert(liquidity * q * (current - next) <= liquidity * q * (current - target))
                by (nonlinear_arith)
                requires
                    target <= next,
                    next <= current,
            ;
            lemma_pair_bound_zero_for_one(next, current, liquidity);
        } else {
            if !step_reaches_target(current, target, liquidity, amount, fee_pips) {
                lemma_partial_one_for_zero(current, target, liquidity, spendable);
            }
            assert(liquidity * q * (next - current) <= liquidity * q * (target - current))
                by (nonlinear_arith)
                requires
                    current <= next,
                    next <= target,
            ;
            lemma_pair_bound_one_for_zero(current, next, liquidity);
        }
    } else {
        assert(0 * current * current == 0 && 0 * q * q == 0) by (nonlinear_arith);
    }
}

/// A swap step that moves the price away from one pays out less than it
/// takes.
///
/// Where nothing overflows and the target is not zero, a step that moves the
/// price down from at most 2^96, or up from at least 2^96, pays out at most the
/// input consumed, hence at most `amount * (1 - fee / 1000000)`; with a fee it
/// is strictly below `amount`.
#[verifier::rlimit(50)]
pub proof fn lemma_swap_step_at_fair_price(
    current: nat,
    target: nat,
    liquidity: nat,
    amount: nat,
    fee_pips: nat,
)
    requires
        fee_pips < FEE_DENOMINATOR,
        step_fits(current, target, liquidity, amount),
        target > 0,
        if current >= target {
            current <= q96_value()
        } else {
            current >= q96_value()
        },
    ensures
        ({
            let r = swap_step(current, target, liquidity, amount, fee_pips);
            &&& r.amount_out <= r.amount_in
            &&& r.amount_out * FEE_DENOMINATOR <= amount * (FEE_DENOMINATOR - fee_pips)
            &&& fee_pips > 0 && amount > 0 ==> r.amount_out < amount
        }),
{
    let q = q96_value();
    let r = swap_step(current, target, liquidity, amount, fee_pips);
    lemma_swap_step_price_bound(current, target, liquidity, amount, fee_pips);
    lemma_swap_step_accounting(current, target, liquidity, amount, fee_pips);
    lemma_spendable(amount, fee_pips);
    let out = r.amount_out;
    let ain = r.amount_in;
    if current >= target {
        assert(out <= ain) by (nonlinear_arith)
            requires
                out * q * q <= ain * current * current,
                current <= q,
                q > 0,
        ;
    } else {
        assert(out <= ain) by (nonlinear_arith)
            requires
                out * current * current <= ain * q * q,
                current >= q,
                q > 0,
        ;
    }
    let spendable = amount_less_fee(amount, fee_pips);
    assert(out * 1_000_000 <= amount * (1_000_000 - fee_pips)) by (nonlinear_arith)
        requires
            out <= spendable,
            spendable * 1_000_000 <= amount * (1_000_000 - fee_pips),
    ;
}

/// A swap step in a pool at price one pays out less than it takes.
///
/// Where nothing overflows, the current square-root price is 2^96 and the
/// target is not zero, the output is at most the input consumed, hence at most
/// `amount * (1 - fee / 1000000)`; with a fee it is strictly below `amount`.
#[verifier::rlimit(50)]
pub proof fn lemma_swap_step_at_unit_price(
    target: nat,
    liquidity: nat,
    amount: nat,
    fee_pips: nat,
)
    requires
        fee_pips < FEE_DENOMINATOR,
        step_fits(q96_value(), target, liquidity, amount),
        target > 0,
    ensures
        ({
            let r = swap_step(q96_value(), target, liquidity, amount, fee_pips);
            &&& r.amount_out <= r.amount_in
            &&& r.amount_out * FEE_DENOMINATOR <= amount * (FEE_DENOMINATOR - fee_pips)
            &&& fee_pips > 0 && amount > 0 ==> r.amount_out < amount
        }),
{
    let q = q96_value();
    let r = swap_step(q, target, liquidity, amount, fee_pips);
    lemma_swap_step_price_bound(q, target, liquidity, amount, fee_pips);
    lemma_swap_step_accounting(q, target, liquidity, amount, fee_pips);
    lemma_spendable(amount, fee_pips);
    let out = r.amount_out;
    let ain = r.amount_in;
    assert(out <= ain) by (nonlinear_arith)
        requires
            out * q * q <= ain * q * q,
            q > 0,
    ;
    let spendable = amount_less_fee(amount, fee_pips);
    assert(out * 1_000_000 <= amount * (1_000_000 - fee_pips)) by (nonlinear_arith)
        requires
            out <= spendable,
            spendable * 1_000_000 <= amount * (1_000_000 - fee_pips),
    ;
}

} // verus!
