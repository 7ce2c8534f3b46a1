//! Routes through a single pool.

use vstd::prelude::*;
use crate::graph::edge::{lemma_pool_id_before_transitive, pool_id_before, PoolEdge};
use crate::graph::pool_graph::{pools_of, PoolGraph};
use crate::routing::order::{
    in_rank_order, lemma_same_routes, outputs_descend, ranks_before, route_before, sort_routes,
};
use crate::routing::route::{Route, RouteHop, MAX_PRICE_IMPACT};
use crate::simulation::swap::{pool_step, step_through_pool};
use crate::utils::address::Address;
use crate::utils::error::RouterError;
use crate::utils::math::FEE_DENOMINATOR;
use crate::utils::uint::{decimal_text, wrap_mul, U256};

verus! {

/// The gas of any swap.
pub const BASE_SWAP_GAS: u64 = 100_000;

/// The gas that a hook adds to a swap.
pub const HOOK_GAS: u64 = 50_000;

/// The gas that a high fee tier adds to a swap.
pub const HIGH_FEE_GAS: u64 = 5_000;

/// The fee in pips from which on a tier counts as high.
pub const HIGH_FEE_PIPS: u32 = 10_000;

/// The least output worth routing; anything below is dust.
pub const DUST_FLOOR: u64 = 100;

/// The gas estimate of a swap through `pool`: 100000, and 50000 more with a
/// hook, and 5000 more with a fee of one percent or above.
pub open spec fn swap_gas(pool: PoolEdge) -> nat {
    (BASE_SWAP_GAS + if pool.hook_address@ != 0 {
        HOOK_GAS
    } else {
        0
    } + if pool.fee >= HIGH_FEE_PIPS {
        HIGH_FEE_GAS
    } else {
        0
    }) as nat
}

/// The gas estimate of a swap through `pool`.
pub fn estimate_swap_gas(pool: &PoolEdge) -> (gas: u64)
    ensures
        gas == swap_gas(*pool),
{
    let mut gas: u64 = BASE_SWAP_GAS;
    if pool.has_hook() {
        gas = gas + HOOK_GAS;
    }
    if pool.fee >= HIGH_FEE_PIPS {
        gas = gas + HIGH_FEE_GAS;
    }
    gas
}

/// The price impact of a swap in millionths of a percent: how far the rate
/// `amount_in / amount_out` lies from one, at most 100%. It is 0 where either
/// amount is 0.
pub open spec fn price_impact_of(amount_in: nat, amount_out: nat) -> nat {
    if amount_in == 0 || amount_out == 0 {
        0
    } else {
        let gap = if amount_in >= amount_out {
            (amount_in - amount_out) as nat
        } else {
            (amount_out - amount_in) as nat
        };
        if gap >= amount_out {
            MAX_PRICE_IMPACT as nat
        } else {
            let scaled = wrap_mul(gap, MAX_PRICE_IMPACT as nat) / amount_out;
            if scaled > MAX_PRICE_IMPACT {
                MAX_PRICE_IMPACT as nat
            } else {
                scaled
            }
        }
    }
}

/// The price impact of a swap in millionths of a percent.
pub fn calculate_price_impact(amount_in: U256, amount_out: U256) -> (impact: u64)
    ensures
        impact == price_impact_of(amount_in@, amount_out@),
        impact <= MAX_PRICE_IMPACT,
{
    if amount_in.is_zero() || amount_out.is_zero() {
        return 0;
    }
    let gap = if amount_out.le(&amount_in) {
        amount_in.wrapping_sub(amount_out)
    } else {
        amount_out.wrapping_sub(amount_in)
    };
    if amount_out.le(&gap) {
        return MAX_PRICE_IMPACT;
    }
    let scaled = gap.wrapping_mul(U256::from_u64(MAX_PRICE_IMPACT)).div(amount_out);
    scaled.to_u64_capped(MAX_PRICE_IMPACT)
}

/// The output of a swap of `amount_in` through `pool`, where the pool can be
/// priced and pays out at least the dust floor.
pub open spec fn quoted_output(pool: PoolEdge, amount_in: nat, zero_for_one: bool) -> Option<nat> {
    if pool.liquidity == 0 || pool.fee >= FEE_DENOMINATOR {
        None
    } else {
        let out = pool_step(pool, amount_in, zero_for_one).amount_out;
        if out < DUST_FLOOR {
            None
        } else {
            Some(out)
        }
    }
}

/// The output of a swap of `amount_in` through `pool`.
///
/// A pool without liquidity gives `InsufficientLiquidity` with nothing
/// available, one whose fee is the whole input or more gives
/// `SimulationError`, and an output below the dust floor of 100 units gives
/// `InsufficientLiquidity` with that output as what is available.
pub fn calculate_amount_out(pool: &PoolEdge, amount_in: U256, zero_for_one: bool) -> (r: Result<
    U256,
    RouterError,
>)
    ensures
        match quoted_output(*pool, amount_in@, zero_for_one) {
            Some(out) => r is Ok && r->Ok_0@ == out,
            None => r is Err,
        },
        pool.liquidity == 0 ==> r is Err && r->Err_0.is_insufficient(
            decimal_text(amount_in@),
            decimal_text(0),
        ),
        pool.liquidity != 0 && pool.fee >= FEE_DENOMINATOR ==> r is Err
            && r->Err_0.is_simulation("Fee out of range"@),
        pool.liquidity != 0 && pool.fee < FEE_DENOMINATOR && r is Err ==> r->Err_0.is_insufficient(
            decimal_text(amount_in@),
            decimal_text(pool_step(*pool, amount_in@, zero_for_one).amount_out),
        ),
{
    if pool.liquidity == 0 {
        return Err(
            RouterError::InsufficientLiquidity {
                required: amount_in.to_decimal_string(),
                available: U256::zero().to_decimal_string(),
            },
        );
    }
    if pool.fee >= FEE_DENOMINATOR {
        return Err(RouterError::SimulationError("Fee out of range".to_owned()));
    }
    let step = step_through_pool(pool, amount_in, zero_for_one);
    if step.amount_out.lt(&U256::from_u64(DUST_FLOOR)) {
        return Err(
            RouterError::InsufficientLiquidity {
                required: amount_in.to_decimal_string(),
                available: step.amount_out.to_decimal_string(),
            },
        );
    }
    Ok(step.amount_out)
}

/// The output of a swap that pays `amount_in` of `token_in` into `pool`; none
/// where the token is not in the pool or the pool gives no quote.
pub open spec fn quote_from(pool: PoolEdge, token_in: Address, amount_in: nat) -> Option<nat> {
    match pool.spec_zero_for_one(token_in) {
        Some(zero_for_one) => quoted_output(pool, amount_in, zero_for_one),
        None => None,
    }
}

/// The output of a swap that pays `amount_in` of `token_in` into `pool`,
/// without the reasons for which there may be none.
pub fn quote_pool(pool: &PoolEdge, token_in: Address, amount_in: U256) -> (r: Option<U256>)
    ensures
        r is Some == quote_from(*pool, token_in, amount_in@) is Some,
        r is Some ==> r->0@ == quote_from(*pool, token_in, amount_in@)->0,
{
    let zero_for_one = match pool.zero_for_one(token_in) {
        Some(direction) => direction,
        None => {
            return None;
        },
    };
    if pool.liquidity == 0 || pool.fee >= FEE_DENOMINATOR {
        return None;
    }
    let step = step_through_pool(pool, amount_in, zero_for_one);
    if step.amount_out.lt(&U256::from_u64(DUST_FLOOR)) {
        None
    } else {
        Some(step.amount_out)
    }
}

/// The output and the gas estimate of a swap that pays `amount_in` of
/// `token_in` into `pool`.
///
/// A token that is not in the pool gives `InternalError`; the other errors are
/// those of [`calculate_amount_out`].
pub fn simulate_swap_through_pool(
    pool: &PoolEdge,
    token_in: Address,
    token_out: Address,
    amount_in: U256,
) -> (r: Result<(U256, u64), RouterError>)
    ensures
        match quote_from(*pool, token_in, amount_in@) {
            Some(out) => r is Ok && r->Ok_0.0@ == out && r->Ok_0.1 == swap_gas(*pool),
            None => r is Err,
        },
        pool.spec_zero_for_one(token_in) is None ==> r is Err && r->Err_0.is_internal(
            "Token not in pool"@,
        ),
{
    let zero_for_one = match pool.zero_for_one(token_in) {
        Some(direction) => direction,
        None => {
            return Err(RouterError::InternalError("Token not in pool".to_owned()));
        },
    };
    match calculate_amount_out(pool, amount_in, zero_for_one) {
        Ok(amount_out) => Ok((amount_out, estimate_swap_gas(pool))),
        Err(e) => Err(e),
    }
}

/// The output of the direct swap of `amount_in` from `token_in` to
/// `token_out` through `pool`; none where the pool does not join the two
/// tokens or gives no quote.
pub open spec fn direct_quote(
    pool: PoolEdge,
    token_in: Address,
    token_out: Address,
    amount_in: nat,
) -> Option<nat> {
    if pool.spec_other_token(token_in) == Some(token_out) {
        quote_from(pool, token_in, amount_in)
    } else {
        None
    }
}

/// Whether `route` is the direct route of `amount_in` from `token_in` to
/// `token_out` through `pool`: one hop with the quoted output, the price
/// impact of that swap and the gas estimate of the pool.
pub open spec fn is_direct_route(
    route: Route,
    pool: PoolEdge,
    token_in: Address,
    token_out: Address,
    amount_in: U256,
) -> bool {
    &&& direct_quote(pool, token_in, token_out, amount_in@) is Some
    &&& route.hops@.len() == 1
    &&& route.hops@[0].pool == pool
    &&& route.hops@[0].token_in == token_in
    &&& route.hops@[0].token_out == token_out
    &&& route.hops@[0].amount_in == amount_in
    &&& route.hops@[0].amount_out == route.total_amount_out
    &&& route.total_amount_in == amount_in
    &&& route.total_amount_out@ == direct_quote(pool, token_in, token_out, amount_in@)->0
    &&& route.price_impact == price_impact_of(amount_in@, route.total_amount_out@)
    &&& route.gas_estimate == swap_gas(pool)
}

/// Whether the direct swap through `a` ranks before the one through `b`: it
/// pays out more, or the same for less gas, or the same for the same gas
/// through the pool with the smaller identifier.
pub open spec fn direct_before(
    a: PoolEdge,
    b: PoolEdge,
    token_in: Address,
    token_out: Address,
    amount_in: nat,
) -> bool {
    let out_a = direct_quote(a, token_in, token_out, amount_in)->0;
    let out_b = direct_quote(b, token_in, token_out, amount_in)->0;
    out_a > out_b || (out_a == out_b && (swap_gas(a) < swap_gas(b) || (swap_gas(a) == swap_gas(b)
        && pool_id_before(a.pool_id@, b.pool_id@))))
}

fn direct_route(
    pool: &PoolEdge,
    token_in: Address,
    token_out: Address,
    amount_in: U256,
) -> (r: Option<Route>)
    ensures
        r is Some <==> direct_quote(*pool, token_in, token_out, amount_in@) is Some,
        r is Some ==> is_direct_route(r->0, *pool, token_in, token_out, amount_in),
{
    match pool.other_token(token_in) {
        Some(other) => {
            if other != token_out {
                return None;
            }
        },
        None => {
            return None;
        },
    }
    match simulate_swap_through_pool(pool, token_in, token_out, amount_in) {
        Ok((amount_out, gas_estimate)) => {
            let price_impact = calculate_price_impact(amount_in, amount_out);
            let hop = RouteHop::new(*pool, token_in, token_out, amount_in, amount_out);
            let mut hops: Vec<RouteHop> = Vec::new();
            hops.push(hop);
            Some(Route::new(hops, amount_in, amount_out, price_impact, gas_estimate))
        },
        Err(_) => None,
    }
}

/// Whether a pool of `pools` gives a direct quote for the swap.
pub open spec fn has_direct_quote(
    pools: Seq<PoolEdge>,
    token_in: Address,
    token_out: Address,
    amount_in: nat,
) -> bool {
    exists|i: int|
        0 <= i < pools.len() && #[trigger] direct_quote(pools[i], token_in, token_out, amount_in)
            is Some
}

/// What the first of `routes` pays out, if there is one.
pub open spec fn first_output(routes: Seq<Route>) -> Option<nat> {
    if routes.len() > 0 {
        Some(routes[0].total_amount_out@)
    } else {
        None
    }
}

/// What the route of `found` pays out, if there is one.
pub open spec fn output_of(found: Result<Route, RouterError>) -> Option<nat> {
    match found {
        Ok(route) => Some(route.total_amount_out@),
        Err(_) => None,
    }
}

/// Whether `paid` is at least every direct quote of `pools`: where a pool
/// gives a direct quote, something is paid, and no less than the quote.
pub open spec fn pays_every_direct_quote(
    paid: Option<nat>,
    pools: Seq<PoolEdge>,
    token_in: Address,
    token_out: Address,
    amount_in: nat,
) -> bool {
    forall|i: int|
        0 <= i < pools.len() && (#[trigger] direct_quote(
            pools[i],
            token_in,
            token_out,
            amount_in,
        )) is Some ==> paid is Some && paid->0 >= direct_quote(
            pools[i],
            token_in,
            token_out,
            amount_in,
        )->0
}

/// A pool that gives a direct quote from `token_in` is among the pools of
/// `token_in`.
pub proof fn lemma_quoting_pool_listed(
    pools: Seq<PoolEdge>,
    at: int,
    token_in: Address,
    token_out: Address,
    amount_in: nat,
) -> (j: int)
    requires
        0 <= at < pools.len(),
        direct_quote(pools[at], token_in, token_out, amount_in) is Some,
    ensures
        0 <= j < pools_of(pools, token_in).len(),
        pools_of(pools, token_in)[j] == pools[at],
{
    let touches = |p: PoolEdge| crate::graph::pool_graph::pool_touches(p, token_in);
    assert(touches(pools[at]));
    pools.lemma_filter_contains(touches, at);
    assert(pools.filter(touches).contains(pools[at]));
    choose|j: int| 0 <= j < pools.filter(touches).len() && pools.filter(touches)[j] == pools[at]
}

/// Where none of the pools of `token_in` gives a direct quote, no pool does.
pub proof fn lemma_no_direct_quote(
    pools: Seq<PoolEdge>,
    token_in: Address,
    token_out: Address,
    amount_in: nat,
)
    requires
        !has_direct_quote(pools_of(pools, token_in), token_in, token_out, amount_in),
    ensures
        pays_every_direct_quote(None, pools, token_in, token_out, amount_in),
{
    assert forall|i: int|
        0 <= i < pools.len() implies (#[trigger] direct_quote(
        pools[i],
        token_in,
        token_out,
        amount_in,
    )) is None by {
        if direct_quote(pools[i], token_in, token_out, amount_in) is Some {
            let j = lemma_quoting_pool_listed(pools, i, token_in, token_out, amount_in);
            assert(direct_quote(pools_of(pools, token_in)[j], token_in, token_out, amount_in)
                is Some);
        }
    }
}

/// The best direct route pays at least as much as every direct quote.
pub proof fn lemma_best_direct_pays(
    route: Route,
    pools: Seq<PoolEdge>,
    token_in: Address,
    token_out: Address,
    amount_in: U256,
)
    requires
        is_best_direct(route, pools_of(pools, token_in), token_in, token_out, amount_in),
    ensures
        pays_every_direct_quote(
            Some(route.total_amount_out@),
            pools,
            token_in,
            token_out,
            amount_in@,
        ),
{
    reveal(unbeaten);
    let listed = pools_of(pools, token_in);
    let best = choose|i: int|
        0 <= i < listed.len() && #[trigger] is_direct_route(
            route,
            listed[i],
            token_in,
            token_out,
            amount_in,
        ) && unbeaten(listed, listed.len() as int, i, token_in, token_out, amount_in@);
    assert forall|i: int|
        0 <= i < pools.len() && (#[trigger] direct_quote(
            pools[i],
            token_in,
            token_out,
            amount_in@,
        )) is Some implies route.total_amount_out@ >= direct_quote(
        pools[i],
        token_in,
        token_out,
        amount_in@,
    )->0 by {
        let j = lemma_quoting_pool_listed(pools, i, token_in, token_out, amount_in@);
        assert(direct_quote(listed[j], token_in, token_out, amount_in@) is Some);
        assert(!direct_before(listed[j], listed[best], token_in, token_out, amount_in@));
    }
}

/// Whether `route` is the best direct route through `pools`: the direct route
/// through one of them that no other pool with a direct quote ranks before.
pub open spec fn is_best_direct(
    route: Route,
    pools: Seq<PoolEdge>,
    token_in: Address,
    token_out: Address,
    amount_in: U256,
) -> bool {
    exists|i: int|
        0 <= i < pools.len() && #[trigger] is_direct_route(
            route,
            pools[i],
            token_in,
            token_out,
            amount_in,
        ) && unbeaten(pools, pools.len() as int, i, token_in, token_out, amount_in@)
}

proof fn lemma_none_quoted_means_no_quote(
    pools: Seq<PoolEdge>,
    token_in: Address,
    token_out: Address,
    amount_in: nat,
)
    requires
        none_quoted(pools, pools.len() as int, token_in, token_out, amount_in),
    ensures
        !has_direct_quote(pools, token_in, token_out, amount_in),
{
    reveal(none_quoted);
}

/// Whether none of the first `upto` pools gives a direct quote.
#[verifier::opaque]
pub open spec fn none_quoted(
    pools: Seq<PoolEdge>,
    upto: int,
    token_in: Address,
    token_out: Address,
    amount_in: nat,
) -> bool {
    forall|j: int|
        0 <= j < upto && j < pools.len() ==> direct_quote(
            #[trigger] pools[j],
            token_in,
            token_out,
            amount_in,
        ) is None
}

/// Whether none of the first `upto` pools that give a direct quote ranks
/// before the pool at `best`.
#[verifier::opaque]
pub open spec fn unbeaten(
    pools: Seq<PoolEdge>,
    upto: int,
    best: int,
    token_in: Address,
    token_out: Address,
    amount_in: nat,
) -> bool {
    forall|j: int|
        0 <= j < upto && j < pools.len() && direct_quote(
            #[trigger] pools[j],
            token_in,
            token_out,
            amount_in,
        ) is Some ==> !direct_before(pools[j], pools[best], token_in, token_out, amount_in)
}

proof fn lemma_first_candidate(
    pools: Seq<PoolEdge>,
    at: int,
    token_in: Address,
    token_out: Address,
    amount_in: nat,
)
    requires
        0 <= at < pools.len(),
        none_quoted(pools, at, token_in, token_out, amount_in),
    ensures
        unbeaten(pools, at + 1, at, token_in, token_out, amount_in),
{
    reveal(none_quoted);
    reveal(unbeaten);
    crate::graph::edge::lemma_pool_id_before_irreflexive(pools[at].pool_id@);
}

proof fn lemma_better_candidate(
    pools: Seq<PoolEdge>,
    at: int,
    best: int,
    token_in: Address,
    token_out: Address,
    amount_in: nat,
)
    requires
        0 <= best < at < pools.len(),
        unbeaten(pools, at, best, token_in, token_out, amount_in),
        direct_before(pools[at], pools[best], token_in, token_out, amount_in),
    ensures
        unbeaten(pools, at + 1, at, token_in, token_out, amount_in),
{
    reveal(unbeaten);
    crate::graph::edge::lemma_pool_id_before_irreflexive(pools[at].pool_id@);
    assert forall|j: int|
        0 <= j < at + 1 && j < pools.len() && direct_quote(
            #[trigger] pools[j],
            token_in,
            token_out,
            amount_in,
        ) is Some implies !direct_before(pools[j], pools[at], token_in, token_out, amount_in) by {
        if j < at && direct_before(pools[j], pools[at], token_in, token_out, amount_in) {
            lemma_direct_before_transitive(
                pools[j],
                pools[at],
                pools[best],
                token_in,
                token_out,
                amount_in,
            );
        }
    }
}

proof fn lemma_candidate_kept(
    pools: Seq<PoolEdge>,
    at: int,
    best: int,
    token_in: Address,
    token_out: Address,
    amount_in: nat,
)
    requires
        0 <= best < at < pools.len(),
        unbeaten(pools, at, best, token_in, token_out, amount_in),
        direct_quote(pools[at], token_in, token_out, amount_in) is None || !direct_before(
            pools[at],
            pools[best],
            token_in,
            token_out,
            amount_in,
        ),
    ensures
        unbeaten(pools, at + 1, best, token_in, token_out, amount_in),
{
    reveal(unbeaten);
}

proof fn lemma_none_quoted_next(
    pools: Seq<PoolEdge>,
    at: int,
    token_in: Address,
    token_out: Address,
    amount_in: nat,
)
    requires
        0 <= at < pools.len(),
        none_quoted(pools, at, token_in, token_out, amount_in),
        direct_quote(pools[at], token_in, token_out, amount_in) is None,
    ensures
        none_quoted(pools, at + 1, token_in, token_out, amount_in),
{
    reveal(none_quoted);
}

/// The best direct route of `amount_in` from `token_in` to `token_out`.
///
/// The candidates are the pools of `token_in` that join it to `token_out` and
/// give a quote of at least the dust floor. The result is the direct route
/// through the candidate that no other candidate ranks before: the greatest
/// output, then the lower gas estimate, then the smaller pool identifier.
/// Without a candidate the result is `NoRouteFound`.
#[verifier::rlimit(50)]
pub fn find_best_single_hop_route(
    graph: &PoolGraph,
    token_in: Address,
    token_out: Address,
    amount_in: U256,
) -> (r: Result<Route, RouterError>)
    ensures
        r is Ok <==> has_direct_quote(
            pools_of(graph.pools(), token_in),
            token_in,
            token_out,
            amount_in@,
        ),
        r is Ok ==> is_best_direct(
            r->Ok_0,
            pools_of(graph.pools(), token_in),
            token_in,
            token_out,
            amount_in,
        ),
        r is Err ==> r->Err_0.is_no_route(token_in, token_out),
{
    let pools = graph.get_pools_for_token(token_in);
    let mut best: Option<Route> = None;
    let ghost mut best_at: int = 0;
    let mut i: usize = 0;
    proof {
        reveal(none_quoted);
    }
    while i < pools.len()
        invariant
            i <= pools@.len(),
            best is None ==> none_quoted(pools@, i as int, token_in, token_out, amount_in@),
            best is Some ==> 0 <= best_at < i && is_direct_route(
                best->0,
                pools@[best_at],
                token_in,
                token_out,
                amount_in,
            ) && unbeaten(pools@, i as int, best_at, token_in, token_out, amount_in@),
        decreases pools@.len() - i,
    {
        let pool = pools[i];
        match direct_route(&pool, token_in, token_out, amount_in) {
            Some(route) => {
                let replace = match &best {
                    Some(current) => {
                        proof {
                            lemma_direct_rank(
                                route,
                                pools@[i as int],
                                *current,
                                pools@[best_at],
                                token_in,
                                token_out,
                                amount_in,
                            );
                        }
                        ranks_before(&route, current, true)
                    },
                    None => true,
                };
                if replace {
                    proof {
                        if best is Some {
                            lemma_better_candidate(
                                pools@,
                                i as int,
                                best_at,
                                token_in,
                                token_out,
                                amount_in@,
                            );
                        } else {
                            lemma_first_candidate(
                                pools@,
                                i as int,
                                token_in,
                                token_out,
                                amount_in@,
                            );
                        }
                        best_at = i as int;
                    }
                    best = Some(route);
                } else {
                    proof {
                        lemma_candidate_kept(
                            pools@,
                            i as int,
                            best_at,
                            token_in,
                            token_out,
                            amount_in@,
                        );
                    }
                }
            },
            None => {
                proof {
                    if best is Some {
                        lemma_candidate_kept(
                            pools@,
                            i as int,
                            best_at,
                            token_in,
                            token_out,
                            amount_in@,
                        );
                    } else {
                        lemma_none_quoted_next(
                            pools@,
                            i as int,
                            token_in,
                            token_out,
                            amount_in@,
                        );
                    }
                }
            },
        }
        i = i + 1;
    }
    proof {
        if best is None {
            lemma_none_quoted_means_no_quote(pools@, token_in, token_out, amount_in@);
        } else {
            assert(is_direct_route(best->0, pools@[best_at], token_in, token_out, amount_in));
            assert(direct_quote(pools@[best_at], token_in, token_out, amount_in@) is Some);
        }
    }
    match best {
        Some(route) => Ok(route),
        None => Err(RouterError::NoRouteFound { from: token_in, to: token_out }),
    }
}

/// Whether `route` is the direct route through one of `pools`.
pub open spec fn has_direct_pool(
    route: Route,
    pools: Seq<PoolEdge>,
    token_in: Address,
    token_out: Address,
    amount_in: U256,
) -> bool {
    exists|j: int|
        0 <= j < pools.len() && #[trigger] is_direct_route(
            route,
            pools[j],
            token_in,
            token_out,
            amount_in,
        )
}

/// Whether the direct route through `pool` is among `routes`.
pub open spec fn has_direct_route(
    routes: Seq<Route>,
    pool: PoolEdge,
    token_in: Address,
    token_out: Address,
    amount_in: U256,
) -> bool {
    exists|k: int|
        0 <= k < routes.len() && #[trigger] is_direct_route(
            routes[k],
            pool,
            token_in,
            token_out,
            amount_in,
        )
}

/// Whether `routes` are the direct routes of `pools`: every route is the
/// direct route through one of the pools, and every pool that gives a quote
/// has its direct route among `routes`.
pub open spec fn covers_pools(
    routes: Seq<Route>,
    pools: Seq<PoolEdge>,
    token_in: Address,
    token_out: Address,
    amount_in: U256,
) -> bool {
    &&& forall|k: int|
        0 <= k < routes.len() ==> #[trigger] has_direct_pool(
            routes[k],
            pools,
            token_in,
            token_out,
            amount_in,
        )
    &&& forall|j: int|
        0 <= j < pools.len() && direct_quote(pools[j], token_in, token_out, amount_in@) is Some
            ==> #[trigger] has_direct_route(routes, pools[j], token_in, token_out, amount_in)
}

#[verifier::rlimit(50)]
proof fn lemma_covers_push(
    routes: Seq<Route>,
    pools: Seq<PoolEdge>,
    pool: PoolEdge,
    route: Route,
    token_in: Address,
    token_out: Address,
    amount_in: U256,
)
    requires
        covers_pools(routes, pools, token_in, token_out, amount_in),
        is_direct_route(route, pool, token_in, token_out, amount_in),
    ensures
        covers_pools(routes.push(route), pools.push(pool), token_in, token_out, amount_in),
{
    let longer = routes.push(route);
    let more = pools.push(pool);
    assert forall|k: int| 0 <= k < longer.len() implies #[trigger] has_direct_pool(
        longer[k],
        more,
        token_in,
        token_out,
        amount_in,
    ) by {
        if k < routes.len() {
            assert(has_direct_pool(routes[k], pools, token_in, token_out, amount_in));
            let j = choose|j: int|
                0 <= j < pools.len() && #[trigger] is_direct_route(
                    routes[k],
                    pools[j],
                    token_in,
                    token_out,
                    amount_in,
                );
            assert(is_direct_route(longer[k], more[j], token_in, token_out, amount_in));
        } else {
            assert(is_direct_route(
                longer[k],
                more[pools.len() as int],
                token_in,
                token_out,
                amount_in,
            ));
        }
    }
    assert forall|j: int|
        0 <= j < more.len() && direct_quote(
            more[j],
            token_in,
            token_out,
            amount_in@,
        ) is Some implies #[trigger] has_direct_route(
        longer,
        more[j],
        token_in,
        token_out,
        amount_in,
    ) by {
        if j < pools.len() {
            assert(has_direct_route(routes, pools[j], token_in, token_out, amount_in));
            let k = choose|k: int|
                0 <= k < routes.len() && #[trigger] is_direct_route(
                    routes[k],
                    pools[j],
                    token_in,
                    token_out,
                    amount_in,
                );
            assert(is_direct_route(longer[k], more[j], token_in, token_out, amount_in));
        } else {
            assert(is_direct_route(
                longer[routes.len() as int],
                more[j],
                token_in,
                token_out,
                amount_in,
            ));
        }
    }
}

proof fn lemma_covers_skip(
    routes: Seq<Route>,
    pools: Seq<PoolEdge>,
    pool: PoolEdge,
    token_in: Address,
    token_out: Address,
    amount_in: U256,
)
    requires
        covers_pools(routes, pools, token_in, token_out, amount_in),
        direct_quote(pool, token_in, token_out, amount_in@) is None,
    ensures
        covers_pools(routes, pools.push(pool), token_in, token_out, amount_in),
{
    let more = pools.push(pool);
    assert forall|k: int| 0 <= k < routes.len() implies #[trigger] has_direct_pool(
        routes[k],
        more,
        token_in,
        token_out,
        amount_in,
    ) by {
        assert(has_direct_pool(routes[k], pools, token_in, token_out, amount_in));
        let j = choose|j: int|
            0 <= j < pools.len() && #[trigger] is_direct_route(
                routes[k],
                pools[j],
                token_in,
                token_out,
                amount_in,
            );
        assert(is_direct_route(routes[k], more[j], token_in, token_out, amount_in));
    }
    assert forall|j: int|
        0 <= j < more.len() && direct_quote(
            more[j],
            token_in,
            token_out,
            amount_in@,
        ) is Some implies #[trigger] has_direct_route(
        routes,
        more[j],
        token_in,
        token_out,
        amount_in,
    ) by {
        assert(more[j] == pools[j]);
        assert(has_direct_route(routes, pools[j], token_in, token_out, amount_in));
    }
}

/// Two lists with the same routes cover the same pools.
#[verifier::rlimit(50)]
pub proof fn lemma_covers_same_routes(
    before: Seq<Route>,
    after: Seq<Route>,
    pools: Seq<PoolEdge>,
    token_in: Address,
    token_out: Address,
    amount_in: U256,
)
    requires
        covers_pools(before, pools, token_in, token_out, amount_in),
        after.to_multiset() == before.to_multiset(),
    ensures
        covers_pools(after, pools, token_in, token_out, amount_in),
{
    lemma_same_routes(before, after);
    assert forall|k: int| 0 <= k < after.len() implies #[trigger] has_direct_pool(
        after[k],
        pools,
        token_in,
        token_out,
        amount_in,
    ) by {
        assert(before.contains(after[k]));
        let u = choose|u: int| 0 <= u < before.len() && before[u] == after[k];
        assert(has_direct_pool(before[u], pools, token_in, token_out, amount_in));
    }
    assert forall|j: int|
        0 <= j < pools.len() && direct_quote(
            pools[j],
            token_in,
            token_out,
            amount_in@,
        ) is Some implies #[trigger] has_direct_route(
        after,
        pools[j],
        token_in,
        token_out,
        amount_in,
    ) by {
        assert(has_direct_route(before, pools[j], token_in, token_out, amount_in));
        let u = choose|u: int|
            0 <= u < before.len() && #[trigger] is_direct_route(
                before[u],
                pools[j],
                token_in,
                token_out,
                amount_in,
            );
        assert(after.contains(before[u]));
        let k = choose|k: int| 0 <= k < after.len() && after[k] == before[u];
        assert(is_direct_route(after[k], pools[j], token_in, token_out, amount_in));
    }
}

/// All direct routes of `amount_in` from `token_in` to `token_out`, by
/// descending output.
///
/// There is one route for every pool of `token_in` that joins it to
/// `token_out` and gives a quote of at least the dust floor, and no other
/// route. Routes of one output come by the lower gas estimate, then by the
/// smaller pool identifier.
#[verifier::rlimit(50)]
pub fn find_all_single_hop_routes(
    graph: &PoolGraph,
    token_in: Address,
    token_out: Address,
    amount_in: U256,
) -> (r: Vec<Route>)
    ensures
        outputs_descend(r@),
        in_rank_order(r@, true),
        r@.len() == pools_of(graph.pools(), token_in).filter(
            |p: PoolEdge| direct_quote(p, token_in, token_out, amount_in@) is Some,
        ).len(),
        covers_pools(r@, pools_of(graph.pools(), token_in), token_in, token_out, amount_in),
{
    let pools = graph.get_pools_for_token(token_in);
    let ghost quoted = |p: PoolEdge| direct_quote(p, token_in, token_out, amount_in@) is Some;
    let mut routes: Vec<Route> = Vec::new();
    let mut i: usize = 0;
    proof {
        assert(pools@.take(0) =~= Seq::<PoolEdge>::empty());
        reveal(Seq::filter);
    }
    while i < pools.len()
        invariant
            i <= pools@.len(),
            quoted == |p: PoolEdge| direct_quote(p, token_in, token_out, amount_in@) is Some,
            routes@.len() == pools@.take(i as int).filter(quoted).len(),
            covers_pools(routes@, pools@.take(i as int), token_in, token_out, amount_in),
        decreases pools@.len() - i,
    {
        let pool = pools[i];
        proof {
            assert(pools@.take(i + 1) =~= pools@.take(i as int).push(pool));
            pools@.take(i as int).lemma_filter_push(pool, quoted);
        }
        match direct_route(&pool, token_in, token_out, amount_in) {
            Some(route) => {
                proof {
                    lemma_covers_push(
                        routes@,
                        pools@.take(i as int),
                        pool,
                        route,
                        token_in,
                        token_out,
                        amount_in,
                    );
                }
                routes.push(route);
            },
            None => {
                proof {
                    lemma_covers_skip(
                        routes@,
                        pools@.take(i as int),
                        pool,
                        token_in,
                        token_out,
                        amount_in,
                    );
                }
            },
        }
        i = i + 1;
    }
    proof {
        assert(pools@.take(i as int) =~= pools@);
    }
    let ghost unsorted = routes@;
    let sorted = sort_routes(routes, true);
    proof {
        lemma_covers_same_routes(unsorted, sorted@, pools@, token_in, token_out, amount_in);
    }
    sorted
}

/// Two direct routes rank as the direct swaps through their pools.
pub proof fn lemma_direct_rank(
    route_a: Route,
    a: PoolEdge,
    route_b: Route,
    b: PoolEdge,
    token_in: Address,
    token_out: Address,
    amount_in: U256,
)
    requires
        is_direct_route(route_a, a, token_in, token_out, amount_in),
        is_direct_route(route_b, b, token_in, token_out, amount_in),
    ensures
        route_before(route_a, route_b, true) == direct_before(
            a,
            b,
            token_in,
            token_out,
            amount_in@,
        ),
{
    crate::routing::order::lemma_single_hop_ids(route_a.hops@, route_b.hops@);
}

/// The ranking of direct swaps is transitive.
pub proof fn lemma_direct_before_transitive(
    a: PoolEdge,
    b: PoolEdge,
    c: PoolEdge,
    token_in: Address,
    token_out: Address,
    amount_in: nat,
)
    requires
        direct_before(a, b, token_in, token_out, amount_in),
        direct_before(b, c, token_in, token_out, amount_in),
    ensures
        direct_before(a, c, token_in, token_out, amount_in),
{
    if pool_id_before(a.pool_id@, b.pool_id@) && pool_id_before(b.pool_id@, c.pool_id@) {
        lemma_pool_id_before_transitive(a.pool_id@, b.pool_id@, c.pool_id@);
    }
}

} // verus!
