//! Swaps through one pool, one tick range at a time.
//!
//! A pool knows its current price and tick, not the ticks at which its
//! liquidity changes. A swap is therefore priced inside the range that one
//! tick spacing spans from the current tick, in the direction of the swap.

use vstd::prelude::*;
use crate::graph::edge::PoolEdge;
use crate::utils::error::RouterError;
use crate::utils::math::{
    compute_swap_step, q96, swap_step, StepAmounts, SwapStepResult, FEE_DENOMINATOR,
};
use crate::utils::tick::{
    sqrt_price_at_tick, sqrt_price_x96_to_tick, tick_at_sqrt_price, tick_to_sqrt_price_x96,
    MAX_TICK, MIN_TICK,
};
use crate::utils::uint::{decimal_text, wrap_add, wrap_sub, U256};

verus! {

/// The tick one spacing away from `tick`: below it where token0 comes in,
/// above it where token1 comes in.
pub open spec fn boundary_tick(tick: int, tick_spacing: int, zero_for_one: bool) -> int {
    if zero_for_one {
        tick - tick_spacing
    } else {
        tick + tick_spacing
    }
}

/// The square-root price at the boundary of the range that a swap from `tick`
/// moves in.
pub open spec fn boundary_price(tick: int, tick_spacing: int, zero_for_one: bool) -> nat {
    sqrt_price_at_tick(boundary_tick(tick, tick_spacing, zero_for_one))
}

/// One swap step through `pool` from its current price.
pub open spec fn pool_step(pool: PoolEdge, amount_in: nat, zero_for_one: bool) -> StepAmounts {
    swap_step(
        pool.sqrt_price_x96@,
        boundary_price(pool.tick as int, pool.tick_spacing as int, zero_for_one),
        pool.liquidity as nat,
        amount_in,
        pool.fee as nat,
    )
}

/// The square-root price at the boundary of the range that a swap from `tick`
/// moves in.
pub fn boundary_sqrt_price(tick: i32, tick_spacing: i32, zero_for_one: bool) -> (r: U256)
    ensures
        r@ == boundary_price(tick as int, tick_spacing as int, zero_for_one),
{
    let boundary: i64 = if zero_for_one {
        tick as i64 - tick_spacing as i64
    } else {
        tick as i64 + tick_spacing as i64
    };
    if boundary < MIN_TICK as i64 || boundary > MAX_TICK as i64 {
        q96()
    } else {
        tick_to_sqrt_price_x96(boundary as i32)
    }
}

/// Computes one swap step through `pool` from its current price.
pub fn step_through_pool(pool: &PoolEdge, amount_in: U256, zero_for_one: bool) -> (r:
    SwapStepResult)
    requires
        pool.fee < FEE_DENOMINATOR,
    ensures
        r@ == pool_step(*pool, amount_in@, zero_for_one),
{
    let target = boundary_sqrt_price(pool.tick, pool.tick_spacing, zero_for_one);
    compute_swap_step(pool.sqrt_price_x96, target, pool.liquidity, amount_in, pool.fee)
}

/// What a simulated swap leaves behind.
#[derive(Clone, Copy, Debug)]
pub struct SwapResult {
    pub amount_out: U256,
    pub sqrt_price_after: U256,
    pub tick_after: i32,
}

/// The state of a swap that walks through several tick ranges.
pub struct WalkState {
    /// The input not yet spent.
    pub remaining: nat,
    /// The output collected so far.
    pub total_out: nat,
    pub sqrt_price: nat,
    pub tick: int,
}

/// The state after one more range: the step is priced from the current price
/// to the boundary one spacing from the current tick, its output is added, and
/// its input and fee are taken from what remains.
pub open spec fn walk_once(pool: PoolEdge, state: WalkState, zero_for_one: bool) -> WalkState {
    let step = swap_step(
        state.sqrt_price,
        boundary_price(state.tick, pool.tick_spacing as int, zero_for_one),
        pool.liquidity as nat,
        state.remaining,
        pool.fee as nat,
    );
    let consumed = wrap_add(step.amount_in, step.fee_amount);
    WalkState {
        remaining: if state.remaining > consumed {
            wrap_sub(state.remaining, consumed)
        } else {
            0
        },
        total_out: wrap_add(state.total_out, step.amount_out),
        sqrt_price: step.sqrt_price_next,
        tick: tick_at_sqrt_price(step.sqrt_price_next),
    }
}

/// The state after at most `steps` ranges; the walk ends early once nothing
/// remains.
pub open spec fn walk(pool: PoolEdge, state: WalkState, zero_for_one: bool, steps: nat) -> WalkState
    decreases steps,
{
    if steps == 0 || state.remaining == 0 {
        state
    } else {
        walk(pool, walk_once(pool, state, zero_for_one), zero_for_one, (steps - 1) as nat)
    }
}

/// The fee from which on a pool cannot be simulated.
pub open spec fn fee_out_of_range(pool: PoolEdge) -> bool {
    pool.fee >= FEE_DENOMINATOR
}

/// Simulates swaps through single pools.
#[derive(Clone, Copy, Debug)]
pub struct SwapSimulator;

impl SwapSimulator {
    /// A simulator.
    pub fn new() -> (s: SwapSimulator) {
        SwapSimulator
    }

    /// Simulates a swap of `amount_in` through `pool` inside one tick range.
    ///
    /// No input gives no output and leaves the pool where it is. A pool
    /// without liquidity gives `InsufficientLiquidity`, one whose fee is the
    /// whole input or more gives `SimulationError`. Otherwise the result is the
    /// output of the swap step, the price after it and the tick of that price.
    pub fn simulate_swap(&self, pool: &PoolEdge, amount_in: U256, zero_for_one: bool) -> (r:
        Result<SwapResult, RouterError>)
        ensures
            amount_in@ == 0 ==> r is Ok && r->Ok_0.amount_out@ == 0 && r->Ok_0.sqrt_price_after
                == pool.sqrt_price_x96 && r->Ok_0.tick_after == pool.tick,
            amount_in@ != 0 && pool.liquidity == 0 ==> r is Err && r->Err_0.is_insufficient(
                decimal_text(amount_in@),
                decimal_text(0),
            ),
            amount_in@ != 0 && pool.liquidity != 0 && fee_out_of_range(*pool) ==> r is Err
                && r->Err_0.is_simulation("Fee out of range"@),
            amount_in@ != 0 && pool.liquidity != 0 && !fee_out_of_range(*pool) ==> r is Ok && ({
                let step = pool_step(*pool, amount_in@, zero_for_one);
                &&& r->Ok_0.amount_out@ == step.amount_out
                &&& r->Ok_0.sqrt_price_after@ == step.sqrt_price_next
                &&& r->Ok_0.tick_after == tick_at_sqrt_price(step.sqrt_price_next)
            }),
    {
        if amount_in.is_zero() {
            return Ok(
                SwapResult {
                    amount_out: U256::zero(),
                    sqrt_price_after: pool.sqrt_price_x96,
                    tick_after: pool.tick,
                },
            );
        }
        if pool.liquidity == 0 {
            return Err(
                RouterError::InsufficientLiquidity {
                    required: amount_in.to_decimal_string(),
                    available: U256::zero().to_decimal_string(),
                },
            );
        }
        if pool.fee >= FEE_DENOMINATOR {
            return Err(RouterError::SimulationError("Fee out of range".to_owned()));
        }
        let step = step_through_pool(pool, amount_in, zero_for_one);
        Ok(
            SwapResult {
                amount_out: step.amount_out,
                sqrt_price_after: step.sqrt_price_next,
                tick_after: sqrt_price_x96_to_tick(step.sqrt_price_next),
            },
        )
    }

    /// Simulates a swap of `amount_in` through `pool` over at most `max_steps`
    /// tick ranges, each one spacing wide, with the liquidity unchanged.
    ///
    /// The errors are those of [`SwapSimulator::simulate_swap`]; otherwise the
    /// result is the state in which [`walk`] ends.
    pub fn simulate_swap_multi_step(
        &self,
        pool: &PoolEdge,
        amount_in: U256,
        zero_for_one: bool,
        max_steps: usize,
    ) -> (r: Result<SwapResult, RouterError>)
        ensures
            amount_in@ == 0 ==> r is Ok && r->Ok_0.amount_out@ == 0 && r->Ok_0.sqrt_price_after
                == pool.sqrt_price_x96 && r->Ok_0.tick_after == pool.tick,
            amount_in@ != 0 && pool.liquidity == 0 ==> r is Err && r->Err_0.is_insufficient(
                decimal_text(amount_in@),
                decimal_text(0),
            ),
            amount_in@ != 0 && pool.liquidity != 0 && fee_out_of_range(*pool) ==> r is Err
                && r->Err_0.is_simulation("Fee out of range"@),
            amount_in@ != 0 && pool.liquidity != 0 && !fee_out_of_range(*pool) ==> r is Ok && ({
                let end = walk(
                    *pool,
                    WalkState {
                        remaining: amount_in@,
                        total_out: 0,
                        sqrt_price: pool.sqrt_price_x96@,
                        tick: pool.tick as int,
                    },
                    zero_for_one,
                    max_steps as nat,
                );
                &&& r->Ok_0.amount_out@ == end.total_out
                &&& r->Ok_0.sqrt_price_after@ == end.sqrt_price
                &&& r->Ok_0.tick_after == end.tick
            }),
    {
        if amount_in.is_zero() {
            return Ok(
                SwapResult {
                    amount_out: U256::zero(),
                    sqrt_price_after: pool.sqrt_price_x96,
                    tick_after: pool.tick,
                },
            );
        }
        if pool.liquidity == 0 {
            return Err(
                RouterError::InsufficientLiquidity {
                    required: amount_in.to_decimal_string(),
                    available: U256::zero().to_decimal_string(),
                },
            );
        }
        if pool.fee >= FEE_DENOMINATOR {
            return Err(RouterError::SimulationError("Fee out of range".to_owned()));
        }
        let mut remaining = amount_in;
        let mut total_out = U256::zero();
        let mut sqrt_price = pool.sqrt_price_x96;
        let mut tick: i32 = pool.tick;
        let mut steps: usize = max_steps;
        let ghost start = WalkState {
            remaining: amount_in@,
            total_out: 0,
            sqrt_price: pool.sqrt_price_x96@,
            tick: pool.tick as int,
        };
        while steps > 0 && !remaining.is_zero()
            invariant
                pool.fee < FEE_DENOMINATOR,
                walk(
                    *pool,
                    WalkState {
                        remaining: remaining@,
                        total_out: total_out@,
                        sqrt_price: sqrt_price@,
                        tick: tick as int,
                    },
                    zero_for_one,
                    steps as nat,
                ) == walk(*pool, start, zero_for_one, max_steps as nat),
            decreases steps,
        {
            let target = boundary_sqrt_price(tick, pool.tick_spacing, zero_for_one);
            let step = compute_swap_step(sqrt_price, target, pool.liquidity, remaining, pool.fee);
            total_out = total_out.wrapping_add(step.amount_out);
            let consumed = step.amount_in.wrapping_add(step.fee_amount);
            remaining = if consumed.lt(&remaining) {
                remaining.wrapping_sub(consumed)
            } else {
                U256::zero()
            };
            sqrt_price = step.sqrt_price_next;
            tick = sqrt_price_x96_to_tick(sqrt_price);
            steps = steps - 1;
        }
        Ok(SwapResult { amount_out: total_out, sqrt_price_after: sqrt_price, tick_after: tick })
    }
}

impl Default for SwapSimulator {
    fn default() -> (s: SwapSimulator) {
        SwapSimulator
    }
}

} // verus!
