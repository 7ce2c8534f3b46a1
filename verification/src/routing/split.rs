//! Splitting an amount over several routes.
//!
//! The output of a route for another amount is estimated by scaling: a route
//! that turns `total_amount_in` into `total_amount_out` is taken to turn
//! `amount` into `total_amount_out * amount / total_amount_in`. The split of an
//! amount is the best one on a grid of shares under this linear model. The
//! model is wrong for large amounts, where the price impact grows faster; the
//! routes it is given are what captures that.

use vstd::prelude::*;
use crate::routing::route::{percent_sum, Route, SplitRoute};
use crate::utils::error::RouterError;
use crate::utils::math::{floor_sqrt, sqrt_u256};
use crate::utils::uint::{
    lemma_floor_bounds, lemma_product_fits, lemma_view_bound, modulus, pow2_128, wrap_add,
    wrap_mul, wrap_sub, U256,
};
use crate::utils::MAX_SPLITS;

verus! {

/// The amount below which a swap is not split: 0.1 token of 18 decimals.
pub const MIN_SPLIT_AMOUNT: u128 = 100_000_000_000_000_000;

/// The scale of the square root by which a price impact grows.
pub const IMPACT_ROOT_SCALE: u64 = 1_000_000;

/// The step between the shares of a split in two, in percent.
pub const TWO_WAY_STEP: u8 = 5;

/// The step between the shares of a split in three, in percent.
pub const THREE_WAY_STEP: u8 = 10;

/// The estimated output of a route for `amount`:
/// `total_out * amount / total_in`, and 0 for no amount or no recorded input.
pub open spec fn scaled_output(total_in: nat, total_out: nat, amount: nat) -> nat {
    if amount == 0 || total_in == 0 {
        0
    } else {
        wrap_mul(total_out, amount) / total_in
    }
}

/// The estimated output of `route` for `amount`, see [`scaled_output`].
pub fn simulate_route_output(route: &Route, amount: U256) -> (r: U256)
    ensures
        r@ == scaled_output(route.total_amount_in@, route.total_amount_out@, amount@),
{
    if amount.is_zero() || route.total_amount_in.is_zero() {
        return U256::zero();
    }
    route.total_amount_out.wrapping_mul(amount).div(route.total_amount_in)
}

/// The price impact of a route for `amount`: the recorded impact times the
/// square root of `amount / total_in`, taken at six decimals; the recorded
/// impact where no input is recorded.
pub open spec fn scaled_impact(impact: nat, total_in: nat, amount: nat) -> nat {
    if total_in == 0 {
        impact
    } else {
        let root = floor_sqrt(
            wrap_mul(amount, (IMPACT_ROOT_SCALE * IMPACT_ROOT_SCALE) as nat) / total_in,
        );
        let scaled = impact * root / (IMPACT_ROOT_SCALE as nat);
        if scaled > u64::MAX {
            u64::MAX as nat
        } else {
            scaled
        }
    }
}

proof fn lemma_root_fits(value: nat, root: nat)
    requires
        value < modulus(),
        root * root <= value,
    ensures
        root < pow2_128(),
{
    assert(root < pow2_128()) by (nonlinear_arith)
        requires
            root * root < modulus(),
            modulus() == pow2_128() * pow2_128(),
            pow2_128() > 0,
    {
        if root >= pow2_128() {
            assert(root * root >= pow2_128() * pow2_128());
        }
    }
}

fn scale_impact(impact: u64, total_in: U256, amount: U256) -> (r: u64)
    ensures
        r == scaled_impact(impact as nat, total_in@, amount@),
{
    if total_in.is_zero() {
        return impact;
    }
    let scale = U256::from_u64(IMPACT_ROOT_SCALE);
    let ratio = amount.wrapping_mul(
        U256::from_u128(IMPACT_ROOT_SCALE as u128 * IMPACT_ROOT_SCALE as u128),
    ).div(total_in);
    let root = sqrt_u256(ratio);
    proof {
        lemma_view_bound(ratio);
        lemma_root_fits(ratio@, root@);
        lemma_product_fits(impact as nat, root@);
    }
    U256::from_u64(impact).wrapping_mul(root).div(scale).to_u64_capped(u64::MAX)
}

/// Whether `copy` is `original` scaled to `amount`: the same hops and gas, the
/// input `amount`, and the output and price impact estimated for it.
pub open spec fn is_scaled_copy(copy: Route, original: Route, amount: nat) -> bool {
    &&& copy.hops@ == original.hops@
    &&& copy.total_amount_in@ == amount
    &&& copy.total_amount_out@ == scaled_output(
        original.total_amount_in@,
        original.total_amount_out@,
        amount,
    )
    &&& copy.price_impact == scaled_impact(
        original.price_impact as nat,
        original.total_amount_in@,
        amount,
    )
    &&& copy.gas_estimate == original.gas_estimate
}

/// `route` scaled to the input `new_amount`, see [`is_scaled_copy`].
pub fn scale_route(route: &Route, new_amount: U256) -> (r: Route)
    ensures
        is_scaled_copy(r, *route, new_amount@),
{
    let new_output = simulate_route_output(route, new_amount);
    let new_impact = scale_impact(route.price_impact, route.total_amount_in, new_amount);
    let copy = route.clone();
    Route::new(copy.hops, new_amount, new_output, new_impact, route.gas_estimate)
}

/// The sum of the price impacts of `routes`, each weighted by its share.
pub open spec fn weighted_impact(routes: Seq<(Route, u8)>) -> nat
    decreases routes.len(),
{
    if routes.len() == 0 {
        0
    } else {
        weighted_impact(routes.drop_last()) + (routes.last().0.price_impact as nat) * (
        routes.last().1 as nat)
    }
}

/// The price impact of a split: the impacts of its routes, each weighted by
/// its share in percent; at most the greatest `u64`.
pub open spec fn combined_impact(routes: Seq<(Route, u8)>) -> nat {
    let mean = weighted_impact(routes) / 100;
    if mean > u64::MAX {
        u64::MAX as nat
    } else {
        mean
    }
}

proof fn lemma_weighted_impact_bound(routes: Seq<(Route, u8)>)
    ensures
        weighted_impact(routes) <= routes.len() * 0x100_0000_0000_0000_0000,
    decreases routes.len(),
{
    if routes.len() > 0 {
        lemma_weighted_impact_bound(routes.drop_last());
        let impact = routes.last().0.price_impact;
        let share = routes.last().1;
        assert(impact * share <= 0x100_0000_0000_0000_0000) by (nonlinear_arith)
            requires
                impact <= 0xffff_ffff_ffff_ffff,
                share <= 255,
        ;
    }
}

/// The price impact of a split, see [`combined_impact`].
pub fn calculate_combined_price_impact(routes: &Vec<(Route, u8)>) -> (r: u64)
    ensures
        r == combined_impact(routes@),
{
    let mut sum = U256::zero();
    let mut i: usize = 0;
    proof {
        assert(routes@.take(0) =~= Seq::<(Route, u8)>::empty());
    }
    while i < routes.len()
        invariant
            i <= routes@.len(),
            sum@ == weighted_impact(routes@.take(i as int)),
        decreases routes@.len() - i,
    {
        let impact: u64 = routes[i].0.price_impact;
        let share: u8 = routes[i].1;
        proof {
            let upto = routes@.take(i + 1);
            assert(upto.drop_last() =~= routes@.take(i as int));
            assert(upto.last() == routes@[i as int]);
            lemma_weighted_impact_bound(upto);
            assert(upto.len() * 0x100_0000_0000_0000_0000 < modulus()) by (nonlinear_arith)
                requires
                    upto.len() <= 0xffff_ffff_ffff_ffff,
                    modulus() == 0x1_0000_0000_0000_0000_0000_0000_0000_0000_0000_0000_0000_0000_0000_0000_0000_0000nat,
            ;
            assert(impact * share <= 0x100_0000_0000_0000_0000) by (nonlinear_arith)
                requires
                    impact <= 0xffff_ffff_ffff_ffff,
                    share <= 255,
            ;
        }
        let term: u128 = impact as u128 * share as u128;
        sum = sum.wrapping_add(U256::from_u128(term));
        i = i + 1;
    }
    proof {
        assert(routes@.take(i as int) =~= routes@);
    }
    sum.div(U256::from_u64(100)).to_u64_capped(u64::MAX)
}

/// The sum of the gas estimates of `routes`.
pub open spec fn gas_sum(routes: Seq<(Route, u8)>) -> nat
    decreases routes.len(),
{
    if routes.len() == 0 {
        0
    } else {
        gas_sum(routes.drop_last()) + routes.last().0.gas_estimate as nat
    }
}

/// The gas estimate of a split: the sum over its routes, at most the greatest
/// `u64`.
pub open spec fn combined_gas(routes: Seq<(Route, u8)>) -> nat {
    if gas_sum(routes) > u64::MAX {
        u64::MAX as nat
    } else {
        gas_sum(routes)
    }
}

fn sum_gas(routes: &Vec<(Route, u8)>) -> (r: u64)
    ensures
        r == combined_gas(routes@),
{
    let mut sum: u64 = 0;
    let mut i: usize = 0;
    proof {
        assert(routes@.take(0) =~= Seq::<(Route, u8)>::empty());
    }
    while i < routes.len()
        invariant
            i <= routes@.len(),
            sum == combined_gas(routes@.take(i as int)),
        decreases routes@.len() - i,
    {
        proof {
            let upto = routes@.take(i + 1);
            assert(upto.drop_last() =~= routes@.take(i as int));
            assert(upto.last() == routes@[i as int]);
        }
        sum = sum.saturating_add(routes[i].0.gas_estimate);
        i = i + 1;
    }
    proof {
        assert(routes@.take(i as int) =~= routes@);
    }
    sum
}

/// The part of `total` that a share of `share` percent stands for:
/// `total * share / 100`.
pub open spec fn share_amount(total: nat, share: nat) -> nat {
    if share == 0 {
        0
    } else {
        wrap_mul(total, share) / 100
    }
}

fn share_of(total: U256, share: u8) -> (r: U256)
    ensures
        r@ == share_amount(total@, share as nat),
{
    if share == 0 {
        U256::zero()
    } else {
        total.wrapping_mul(U256::from_u64(share as u64)).div(U256::from_u64(100))
    }
}

/// The estimated output of `route` for `amount` where its share is not zero,
/// and 0 where it is.
pub open spec fn part_output(route: Route, share: nat, amount: nat) -> nat {
    if share == 0 {
        0
    } else {
        scaled_output(route.total_amount_in@, route.total_amount_out@, amount)
    }
}

fn output_of_part(route: &Route, share: u8, amount: U256) -> (r: U256)
    ensures
        r@ == part_output(*route, share as nat, amount@),
{
    if share == 0 {
        U256::zero()
    } else {
        simulate_route_output(route, amount)
    }
}

/// The estimated output of splitting `total` over two routes with `share`
/// percent on the first: the first route gets `total * share / 100`, the
/// second what is left.
#[verifier::opaque]
pub open spec fn output_two(first: Route, second: Route, total: nat, share: nat) -> nat {
    let amount_first = share_amount(total, share);
    let amount_second = wrap_sub(total, amount_first);
    wrap_add(
        part_output(first, share, amount_first),
        part_output(second, (100 - share) as nat, amount_second),
    )
}

/// Whether `share` is a share of a split in two: a multiple of 5 up to 100.
pub open spec fn on_two_way_grid(share: nat) -> bool {
    share <= 100 && share % 5 == 0
}

/// The estimated output of splitting `total` over three routes with `a`
/// percent on the first and `b` on the second: these get `total * a / 100`
/// and `total * b / 100`, the third what is left.
#[verifier::opaque]
pub open spec fn output_three(
    first: Route,
    second: Route,
    third: Route,
    total: nat,
    a: nat,
    b: nat,
) -> nat {
    let amount_first = share_amount(total, a);
    let amount_second = share_amount(total, b);
    let amount_third = wrap_sub(wrap_sub(total, amount_first), amount_second);
    wrap_add(
        wrap_add(part_output(first, a, amount_first), part_output(second, b, amount_second)),
        part_output(third, (100 - a - b) as nat, amount_third),
    )
}

/// Whether `a` and `b` are the first two shares of a split in three:
/// multiples of 10 that add up to 100 at most.
pub open spec fn on_three_way_grid(a: nat, b: nat) -> bool {
    a % 10 == 0 && b % 10 == 0 && a + b <= 100
}

/// The amounts and the estimated output of the split in two with `share`
/// percent on the first route.
fn evaluate_two(first: &Route, second: &Route, total: U256, share: u8) -> (r: (U256, U256, U256))
    requires
        share <= 100,
    ensures
        r.0@ == share_amount(total@, share as nat),
        r.1@ == wrap_sub(total@, r.0@),
        r.2@ == output_two(*first, *second, total@, share as nat),
{
    reveal(output_two);
    let amount_first = share_of(total, share);
    let amount_second = total.wrapping_sub(amount_first);
    let output = output_of_part(first, share, amount_first).wrapping_add(
        output_of_part(second, 100 - share, amount_second),
    );
    (amount_first, amount_second, output)
}

/// The amounts and the estimated output of the split in three with `a`
/// percent on the first route and `b` on the second.
fn evaluate_three(first: &Route, second: &Route, third: &Route, total: U256, a: u8, b: u8) -> (r: (
    U256,
    U256,
    U256,
    U256,
))
    requires
        a + b <= 100,
    ensures
        r.0@ == share_amount(total@, a as nat),
        r.1@ == share_amount(total@, b as nat),
        r.2@ == wrap_sub(wrap_sub(total@, r.0@), r.1@),
        r.3@ == output_three(*first, *second, *third, total@, a as nat, b as nat),
{
    reveal(output_three);
    let amount_first = share_of(total, a);
    let amount_second = share_of(total, b);
    let amount_third = total.wrapping_sub(amount_first).wrapping_sub(amount_second);
    let output = output_of_part(first, a, amount_first).wrapping_add(
        output_of_part(second, b, amount_second),
    ).wrapping_add(output_of_part(third, 100 - a - b, amount_third));
    (amount_first, amount_second, amount_third, output)
}

/// The share of the first route of the best split in two, and the output of
/// that split. Of several best splits the one with the least first share is
/// taken; where no split pays out anything, everything goes to the first
/// route.
#[verifier::rlimit(50)]
fn best_two(first: &Route, second: &Route, total: U256) -> (r: (u8, U256))
    ensures
        on_two_way_grid(r.0 as nat),
        r.1@ == output_two(*first, *second, total@, r.0 as nat),
        forall|share: nat|
            on_two_way_grid(share) ==> #[trigger] output_two(*first, *second, total@, share)
                <= r.1@,
{
    let mut best_share: u8 = 100;
    let mut best_output = U256::zero();
    let ghost mut found = false;
    let mut share: u8 = 0;
    while share <= 100
        invariant
            share <= 105,
            share % 5 == 0,
            on_two_way_grid(best_share as nat),
            found ==> best_output@ == output_two(*first, *second, total@, best_share as nat),
            !found ==> best_share == 100 && best_output@ == 0,
            forall|other: nat|
                on_two_way_grid(other) && other < share ==> #[trigger] output_two(
                    *first,
                    *second,
                    total@,
                    other,
                ) <= best_output@,
        decreases 105 - share,
    {
        let output = evaluate_two(first, second, total, share).2;
        if best_output.lt(&output) {
            best_output = output;
            best_share = share;
            proof {
                found = true;
            }
        }
        proof {
            assert forall|other: nat|
                on_two_way_grid(other) && other < share + 5 implies #[trigger] output_two(
                *first,
                *second,
                total@,
                other,
            ) <= best_output@ by {
                if other >= share {
                    assert(other == share);
                }
            }
        }
        share = share + 5;
    }
    (best_share, best_output)
}

/// The shares of the first two routes of the best split in three, and the
/// output of that split. Of several best splits the one with the least first
/// share, then the least second share, is taken; where no split pays out
/// anything, everything goes to the first route.
#[verifier::rlimit(50)]
fn best_three(first: &Route, second: &Route, third: &Route, total: U256) -> (r: (u8, u8, U256))
    ensures
        on_three_way_grid(r.0 as nat, r.1 as nat),
        r.2@ == output_three(*first, *second, *third, total@, r.0 as nat, r.1 as nat),
        forall|a: nat, b: nat|
            on_three_way_grid(a, b) ==> #[trigger] output_three(
                *first,
                *second,
                *third,
                total@,
                a,
                b,
            ) <= r.2@,
{
    let mut best_a: u8 = 100;
    let mut best_b: u8 = 0;
    let mut best_output = U256::zero();
    let ghost mut found = false;
    let mut a: u8 = 0;
    while a <= 100
        invariant
            a <= 110,
            a % 10 == 0,
            on_three_way_grid(best_a as nat, best_b as nat),
            found ==> best_output@ == output_three(
                *first,
                *second,
                *third,
                total@,
                best_a as nat,
                best_b as nat,
            ),
            !found ==> best_a == 100 && best_b == 0 && best_output@ == 0,
            forall|x: nat, y: nat|
                on_three_way_grid(x, y) && x < a ==> #[trigger] output_three(
                    *first,
                    *second,
                    *third,
                    total@,
                    x,
                    y,
                ) <= best_output@,
        decreases 110 - a,
    {
        let mut b: u8 = 0;
        while b <= 100 - a
            invariant
                a <= 100,
                a % 10 == 0,
                b <= 110 - a,
                b % 10 == 0,
                on_three_way_grid(best_a as nat, best_b as nat),
                found ==> best_output@ == output_three(
                    *first,
                    *second,
                    *third,
                    total@,
                    best_a as nat,
                    best_b as nat,
                ),
                !found ==> best_a == 100 && best_b == 0 && best_output@ == 0,
                forall|x: nat, y: nat|
                    on_three_way_grid(x, y) && (x < a || (x == a && y < b))
                        ==> #[trigger] output_three(*first, *second, *third, total@, x, y)
                        <= best_output@,
            decreases 110 - a - b,
        {
            let output = evaluate_three(first, second, third, total, a, b).3;
            if best_output.lt(&output) {
                best_output = output;
                best_a = a;
                best_b = b;
                proof {
                    found = true;
                }
            }
            proof {
                assert forall|x: nat, y: nat|
                    on_three_way_grid(x, y) && (x < a || (x == a && y < b + 10))
                    implies #[trigger] output_three(*first, *second, *third, total@, x, y)
                    <= best_output@ by {
                    if x == a && y >= b {
                        assert(y == b);
                    }
                }
            }
            b = b + 10;
        }
        a = a + 10;
    }
    (best_a, best_b, best_output)
}

/// The routes that a split with the shares `a`, `b` and `c` uses, by their
/// number, each with its share: those whose share is not zero.
pub open spec fn used_parts(a: u8, b: u8, c: u8) -> Seq<(int, u8)> {
    (if a > 0 {
        seq![(0int, a)]
    } else {
        Seq::empty()
    }) + (if b > 0 {
        seq![(1int, b)]
    } else {
        Seq::empty()
    }) + (if c > 0 {
        seq![(2int, c)]
    } else {
        Seq::empty()
    })
}

/// Whether `entries` are the routes `routes` scaled to `amounts`, for the
/// shares that are not zero, in the order of the routes.
pub open spec fn entries_match(
    entries: Seq<(Route, u8)>,
    routes: Seq<Route>,
    shares: (u8, u8, u8),
    amounts: Seq<nat>,
) -> bool {
    let used = used_parts(shares.0, shares.1, shares.2);
    &&& entries.len() == used.len()
    &&& forall|k: int|
        0 <= k < entries.len() ==> is_scaled_copy(
            (#[trigger] entries[k]).0,
            routes[used[k].0],
            amounts[used[k].0],
        ) && entries[k].1 == used[k].1
}

proof fn lemma_percent_sum_push(entries: Seq<(Route, u8)>, entry: (Route, u8))
    ensures
        percent_sum(entries.push(entry)) == percent_sum(entries) + entry.1,
{
    assert(entries.push(entry).drop_last() =~= entries);
}

/// Builds the split with the given shares and amounts.
#[verifier::rlimit(50)]
fn assemble(
    first: &Route,
    second: &Route,
    third: &Route,
    shares: (u8, u8, u8),
    amounts: (U256, U256, U256),
    total: U256,
    output: U256,
) -> (r: SplitRoute)
    requires
        shares.0 + shares.1 + shares.2 == 100,
    ensures
        entries_match(
            r.routes@,
            seq![*first, *second, *third],
            shares,
            seq![amounts.0@, amounts.1@, amounts.2@],
        ),
        percent_sum(r.routes@) == 100,
        1 <= r.routes@.len() <= 3,
        r.total_amount_in == total,
        r.total_amount_out == output,
        r.combined_price_impact == combined_impact(r.routes@),
        r.total_gas_estimate == combined_gas(r.routes@),
{
    let ghost routes = seq![*first, *second, *third];
    let ghost sizes = seq![amounts.0@, amounts.1@, amounts.2@];
    let mut entries: Vec<(Route, u8)> = Vec::new();
    if shares.0 > 0 {
        let copy = scale_route(first, amounts.0);
        proof {
            lemma_percent_sum_push(entries@, (copy, shares.0));
        }
        entries.push((copy, shares.0));
    }
    assert(entries@.len() == used_parts(shares.0, 0, 0).len());
    assert(entries_match(entries@, routes, (shares.0, 0u8, 0u8), sizes));
    assert(percent_sum(entries@) == shares.0);
    if shares.1 > 0 {
        let copy = scale_route(second, amounts.1);
        let ghost before = entries@;
        proof {
            lemma_percent_sum_push(entries@, (copy, shares.1));
        }
        entries.push((copy, shares.1));
        proof {
            assert forall|k: int| 0 <= k < entries@.len() implies is_scaled_copy(
                (#[trigger] entries@[k]).0,
                routes[used_parts(shares.0, shares.1, 0)[k].0],
                sizes[used_parts(shares.0, shares.1, 0)[k].0],
            ) && entries@[k].1 == used_parts(shares.0, shares.1, 0)[k].1 by {
                if k < before.len() {
                    assert(entries@[k] == before[k]);
                    assert(used_parts(shares.0, shares.1, 0)[k] == used_parts(shares.0, 0, 0)[k]);
                }
            }
        }
    }
    assert(entries_match(entries@, routes, (shares.0, shares.1, 0u8), sizes));
    assert(percent_sum(entries@) == shares.0 + shares.1);
    if shares.2 > 0 {
        let copy = scale_route(third, amounts.2);
        let ghost before = entries@;
        proof {
            lemma_percent_sum_push(entries@, (copy, shares.2));
        }
        entries.push((copy, shares.2));
        proof {
            assert forall|k: int| 0 <= k < entries@.len() implies is_scaled_copy(
                (#[trigger] entries@[k]).0,
                routes[used_parts(shares.0, shares.1, shares.2)[k].0],
                sizes[used_parts(shares.0, shares.1, shares.2)[k].0],
            ) && entries@[k].1 == used_parts(shares.0, shares.1, shares.2)[k].1 by {
                if k < before.len() {
                    assert(entries@[k] == before[k]);
                    assert(used_parts(shares.0, shares.1, shares.2)[k] == used_parts(
                        shares.0,
                        shares.1,
                        0,
                    )[k]);
                }
            }
        }
    }
    let combined_impact = calculate_combined_price_impact(&entries);
    let combined_gas = sum_gas(&entries);
    SplitRoute::new(entries, total, output, combined_impact, combined_gas)
}

/// Whether `split` sends everything down `route`.
pub open spec fn is_single_split(split: SplitRoute, route: Route) -> bool {
    &&& split.routes@ == seq![(route, 100u8)]
    &&& split.total_amount_in == route.total_amount_in
    &&& split.total_amount_out == route.total_amount_out
    &&& split.combined_price_impact == route.price_impact
    &&& split.total_gas_estimate == route.gas_estimate
}

/// Whether `split` is the best split of `total` over two routes: its shares
/// lie on the grid of 5%, its routes are the two routes scaled to their parts
/// of `total`, those with no share left out, and no other shares on the grid
/// give a greater estimated output.
pub open spec fn is_best_split_two(
    split: SplitRoute,
    first: Route,
    second: Route,
    total: U256,
) -> bool {
    &&& split.total_amount_in == total
    &&& split.combined_price_impact == combined_impact(split.routes@)
    &&& split.total_gas_estimate == combined_gas(split.routes@)
    &&& exists|share: nat|
        {
            &&& on_two_way_grid(share)
            &&& entries_match(
                split.routes@,
                seq![first, second, second],
                (share as u8, (100 - share) as u8, 0u8),
                seq![
                    share_amount(total@, share),
                    wrap_sub(total@, share_amount(total@, share)),
                    0nat,
                ],
            )
            &&& split.total_amount_out@ == #[trigger] output_two(first, second, total@, share)
        }
    &&& forall|other: nat|
        on_two_way_grid(other) ==> #[trigger] output_two(first, second, total@, other)
            <= split.total_amount_out@
}

/// Whether `split` is the best split of `total` over three routes: its shares
/// lie on the grid of 10%, its routes are the three routes scaled to their
/// parts of `total`, those with no share left out, and no other shares on the
/// grid give a greater estimated output.
pub open spec fn is_best_split_three(
    split: SplitRoute,
    first: Route,
    second: Route,
    third: Route,
    total: U256,
) -> bool {
    &&& split.total_amount_in == total
    &&& split.combined_price_impact == combined_impact(split.routes@)
    &&& split.total_gas_estimate == combined_gas(split.routes@)
    &&& exists|a: nat, b: nat|
        {
            &&& on_three_way_grid(a, b)
            &&& entries_match(
                split.routes@,
                seq![first, second, third],
                (a as u8, b as u8, (100 - a - b) as u8),
                seq![
                    share_amount(total@, a),
                    share_amount(total@, b),
                    wrap_sub(wrap_sub(total@, share_amount(total@, a)), share_amount(total@, b)),
                ],
            )
            &&& split.total_amount_out@ == #[trigger] output_three(
                first,
                second,
                third,
                total@,
                a,
                b,
            )
        }
    &&& forall|x: nat, y: nat|
        on_three_way_grid(x, y) ==> #[trigger] output_three(first, second, third, total@, x, y)
            <= split.total_amount_out@
}

#[verifier::rlimit(50)]
fn optimize_two_route_split(first: &Route, second: &Route, total: U256) -> (r: SplitRoute)
    ensures
        is_best_split_two(r, *first, *second, total),
        percent_sum(r.routes@) == 100,
        1 <= r.routes@.len() <= 3,
{
    let (share, _) = best_two(first, second, total);
    let (amount_first, amount_second, output) = evaluate_two(first, second, total, share);
    let split = assemble(
        first,
        second,
        second,
        (share, 100 - share, 0),
        (amount_first, amount_second, U256::zero()),
        total,
        output,
    );
    proof {
        assert(split.total_amount_out@ == output_two(*first, *second, total@, share as nat));
    }
    split
}

#[verifier::rlimit(50)]
fn optimize_three_route_split(first: &Route, second: &Route, third: &Route, total: U256) -> (r:
    SplitRoute)
    ensures
        is_best_split_three(r, *first, *second, *third, total),
        percent_sum(r.routes@) == 100,
        1 <= r.routes@.len() <= 3,
{
    let (a, b, _) = best_three(first, second, third, total);
    let (amount_first, amount_second, amount_third, output) = evaluate_three(
        first,
        second,
        third,
        total,
        a,
        b,
    );
    let split = assemble(
        first,
        second,
        third,
        (a, b, 100 - a - b),
        (amount_first, amount_second, amount_third),
        total,
        output,
    );
    proof {
        assert(split.total_amount_out@ == output_three(
            *first,
            *second,
            *third,
            total@,
            a as nat,
            b as nat,
        ));
    }
    split
}

/// The position of the first route with the greatest output.
fn best_route_at(routes: &Vec<Route>) -> (at: usize)
    requires
        routes@.len() > 0,
    ensures
        at < routes@.len(),
        forall|j: int|
            0 <= j < routes@.len() ==> (#[trigger] routes@[j]).total_amount_out@
                <= routes@[at as int].total_amount_out@,
{
    let mut at: usize = 0;
    let mut i: usize = 1;
    while i < routes.len()
        invariant
            at < i <= routes@.len(),
            forall|j: int|
                0 <= j < i ==> (#[trigger] routes@[j]).total_amount_out@
                    <= routes@[at as int].total_amount_out@,
        decreases routes@.len() - i,
    {
        if routes[at].total_amount_out.lt(&routes[i].total_amount_out) {
            at = i;
        }
        i = i + 1;
    }
    at
}

/// Whether an amount is too small to be split.
pub open spec fn below_split_floor(total: U256) -> bool {
    total@ < MIN_SPLIT_AMOUNT
}

/// Splits `total_amount` over `routes` so as to pay out most under the
/// linear model of this file.
///
/// No route gives `InternalError`. An amount below 10^17 is not split: it goes
/// down the route with the greatest output, the first of them. One route takes
/// everything. Two routes share the amount in steps of 5%, three or more
/// routes in steps of 10% over the first three. The shares of the result add
/// up to 100, and it holds at most `MAX_SPLITS` routes.
#[verifier::rlimit(50)]
pub fn optimize_split_route(routes: Vec<Route>, total_amount: U256) -> (r: Result<
    SplitRoute,
    RouterError,
>)
    ensures
        routes@.len() == 0 ==> r is Err && r->Err_0.is_internal(
            "No routes provided for split optimization"@,
        ),
        routes@.len() > 0 ==> r is Ok && percent_sum(r->Ok_0.routes@) == 100 && 1
            <= r->Ok_0.routes@.len() <= MAX_SPLITS,
        routes@.len() > 0 && below_split_floor(total_amount) ==> exists|i: int|
            0 <= i < routes@.len() && is_single_split(r->Ok_0, #[trigger] routes@[i]) && forall|
                j: int,
            |
                0 <= j < routes@.len() ==> (#[trigger] routes@[j]).total_amount_out@
                    <= routes@[i].total_amount_out@,
        routes@.len() == 1 && !below_split_floor(total_amount) ==> is_single_split(
            r->Ok_0,
            routes@[0],
        ),
        routes@.len() == 2 && !below_split_floor(total_amount) ==> is_best_split_two(
            r->Ok_0,
            routes@[0],
            routes@[1],
            total_amount,
        ),
        routes@.len() >= 3 && !below_split_floor(total_amount) ==> is_best_split_three(
            r->Ok_0,
            routes@[0],
            routes@[1],
            routes@[2],
            total_amount,
        ),
{
    let mut routes = routes;
    if routes.len() == 0 {
        return Err(
            RouterError::InternalError("No routes provided for split optimization".to_owned()),
        );
    }
    if total_amount.lt(&U256::from_u128(MIN_SPLIT_AMOUNT)) {
        let at = best_route_at(&routes);
        let best = routes.remove(at);
        return Ok(SplitRoute::single(best));
    }
    if routes.len() == 1 {
        let only = routes.remove(0);
        return Ok(SplitRoute::single(only));
    }
    if routes.len() == 2 {
        Ok(optimize_two_route_split(&routes[0], &routes[1], total_amount))
    } else {
        Ok(optimize_three_route_split(&routes[0], &routes[1], &routes[2], total_amount))
    }
}

proof fn lemma_two_all_first(first: Route, second: Route, total: U256)
    requires
        total@ * 100 < modulus(),
    ensures
        output_two(first, second, total@, 100) == scaled_output(
            first.total_amount_in@,
            first.total_amount_out@,
            total@,
        ),
{
    reveal(output_two);
    lemma_whole_share(total);
    lemma_scaled_output_fits(first, total);
    lemma_wrap_add_zero(
        scaled_output(first.total_amount_in@, first.total_amount_out@, total@),
    );
}

proof fn lemma_two_all_second(first: Route, second: Route, total: U256)
    requires
        total@ * 100 < modulus(),
    ensures
        output_two(first, second, total@, 0) == scaled_output(
            second.total_amount_in@,
            second.total_amount_out@,
            total@,
        ),
{
    reveal(output_two);
    lemma_whole_share(total);
    lemma_scaled_output_fits(second, total);
    lemma_wrap_add_zero(
        scaled_output(second.total_amount_in@, second.total_amount_out@, total@),
    );
}

/// The best split in two pays out at least what either route is estimated to
/// pay for the whole amount, where a hundred times the amount fits in 256
/// bits.
pub proof fn lemma_split_two_beats_single(
    split: SplitRoute,
    first: Route,
    second: Route,
    total: U256,
)
    requires
        is_best_split_two(split, first, second, total),
        total@ * 100 < modulus(),
    ensures
        split.total_amount_out@ >= scaled_output(
            first.total_amount_in@,
            first.total_amount_out@,
            total@,
        ),
        split.total_amount_out@ >= scaled_output(
            second.total_amount_in@,
            second.total_amount_out@,
            total@,
        ),
{
    assert(on_two_way_grid(100) && on_two_way_grid(0));
    lemma_two_all_first(first, second, total);
    lemma_two_all_second(first, second, total);
    assert(output_two(first, second, total@, 100) <= split.total_amount_out@);
    assert(output_two(first, second, total@, 0) <= split.total_amount_out@);
}

proof fn lemma_whole_share(total: U256)
    requires
        total@ * 100 < modulus(),
    ensures
        share_amount(total@, 100) == total@,
        share_amount(total@, 0) == 0,
        wrap_sub(total@, 0) == total@,
        wrap_sub(total@, total@) == 0,
        wrap_sub(0, 0) == 0,
{
    lemma_view_bound(total);
}

proof fn lemma_wrap_add_zero(value: nat)
    requires
        value < modulus(),
    ensures
        wrap_add(value, 0) == value,
        wrap_add(0, value) == value,
        wrap_add(0, 0) == 0,
{
}

proof fn lemma_three_all_first(first: Route, second: Route, third: Route, total: U256)
    requires
        total@ * 100 < modulus(),
    ensures
        output_three(first, second, third, total@, 100, 0) == scaled_output(
            first.total_amount_in@,
            first.total_amount_out@,
            total@,
        ),
{
    reveal(output_three);
    lemma_whole_share(total);
    lemma_scaled_output_fits(first, total);
    lemma_wrap_add_zero(
        scaled_output(first.total_amount_in@, first.total_amount_out@, total@),
    );
}

proof fn lemma_three_all_second(first: Route, second: Route, third: Route, total: U256)
    requires
        total@ * 100 < modulus(),
    ensures
        output_three(first, second, third, total@, 0, 100) == scaled_output(
            second.total_amount_in@,
            second.total_amount_out@,
            total@,
        ),
{
    reveal(output_three);
    lemma_whole_share(total);
    lemma_scaled_output_fits(second, total);
    lemma_wrap_add_zero(
        scaled_output(second.total_amount_in@, second.total_amount_out@, total@),
    );
}

proof fn lemma_three_all_third(first: Route, second: Route, third: Route, total: U256)
    requires
        total@ * 100 < modulus(),
    ensures
        output_three(first, second, third, total@, 0, 0) == scaled_output(
            third.total_amount_in@,
            third.total_amount_out@,
            total@,
        ),
{
    reveal(output_three);
    lemma_whole_share(total);
    lemma_scaled_output_fits(third, total);
    lemma_wrap_add_zero(
        scaled_output(third.total_amount_in@, third.total_amount_out@, total@),
    );
}

/// The best split in three pays out at least what each of the routes is
/// estimated to pay for the whole amount, where a hundred times the amount
/// fits in 256 bits.
pub proof fn lemma_split_three_beats_single(
    split: SplitRoute,
    first: Route,
    second: Route,
    third: Route,
    total: U256,
)
    requires
        is_best_split_three(split, first, second, third, total),
        total@ * 100 < modulus(),
    ensures
        split.total_amount_out@ >= scaled_output(
            first.total_amount_in@,
            first.total_amount_out@,
            total@,
        ),
        split.total_amount_out@ >= scaled_output(
            second.total_amount_in@,
            second.total_amount_out@,
            total@,
        ),
        split.total_amount_out@ >= scaled_output(
            third.total_amount_in@,
            third.total_amount_out@,
            total@,
        ),
{
    assert(on_three_way_grid(100, 0) && on_three_way_grid(0, 100) && on_three_way_grid(0, 0));
    lemma_three_all_first(first, second, third, total);
    lemma_three_all_second(first, second, third, total);
    lemma_three_all_third(first, second, third, total);
    assert(output_three(first, second, third, total@, 100, 0) <= split.total_amount_out@);
    assert(output_three(first, second, third, total@, 0, 100) <= split.total_amount_out@);
    assert(output_three(first, second, third, total@, 0, 0) <= split.total_amount_out@);
}

proof fn lemma_scaled_output_fits(route: Route, total: U256)
    ensures
        scaled_output(route.total_amount_in@, route.total_amount_out@, total@) < modulus(),
{
    lemma_view_bound(total);
    let product = wrap_mul(route.total_amount_out@, total@);
    if total@ != 0 && route.total_amount_in@ != 0 {
        lemma_floor_bounds(product, route.total_amount_in@);
        assert(product / route.total_amount_in@ <= product) by (nonlinear_arith)
            requires
                (product / route.total_amount_in@) * route.total_amount_in@ <= product,
                route.total_amount_in@ >= 1,
        ;
    }
}

} // verus!
