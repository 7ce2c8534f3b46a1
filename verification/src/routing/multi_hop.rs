//! Routes through several pools, found by a bounded best-first search.

use vstd::prelude::*;
use crate::graph::edge::PoolEdge;
use crate::graph::pool_graph::{linked, pool_links, pools_of, PoolGraph};
use crate::routing::order::{
    hops_before, ids_before, in_rank_order, lemma_same_routes, outputs_descend, sort_routes,
};
use crate::routing::route::{Route, RouteHop};
use crate::routing::single_hop::{
    calculate_price_impact, direct_quote, first_output, has_direct_quote, output_of,
    pays_every_direct_quote, price_impact_of, quote_from, quote_pool, BASE_SWAP_GAS, HOOK_GAS,
};
use crate::utils::address::Address;
use crate::utils::error::RouterError;
use crate::utils::uint::{wrap_mul, U256};
use crate::utils::MAX_HOPS;

verus! {

/// The share of the best output seen at a token, in percent, below which a
/// path through that token is dropped.
pub const PRUNE_PERCENT: u64 = 95;

/// The gas estimate of one hop of a longer route: 100000, and 50000 more with
/// a hook.
pub open spec fn hop_gas(pool: PoolEdge) -> nat {
    (BASE_SWAP_GAS + if pool.hook_address@ != 0 {
        HOOK_GAS
    } else {
        0
    }) as nat
}

/// The gas estimate of one hop of a longer route.
pub fn estimate_gas(pool: &PoolEdge) -> (gas: u64)
    ensures
        gas == hop_gas(*pool),
{
    if pool.has_hook() {
        BASE_SWAP_GAS + HOOK_GAS
    } else {
        BASE_SWAP_GAS
    }
}

/// The gas estimate of a sequence of hops: the sum over its hops.
pub open spec fn trail_gas(hops: Seq<RouteHop>) -> nat
    decreases hops.len(),
{
    if hops.len() == 0 {
        0
    } else {
        trail_gas(hops.drop_last()) + hop_gas(hops.last().pool)
    }
}

/// The tokens along a path that starts at `start`: `start`, then the output
/// token of each hop.
pub open spec fn trail_tokens(start: Address, hops: Seq<RouteHop>) -> Seq<Address> {
    seq![start] + Seq::new(hops.len(), |i: int| hops[i].token_out)
}

/// The token at which a path from `start` along `hops` ends.
pub open spec fn trail_end(start: Address, hops: Seq<RouteHop>) -> Address {
    if hops.len() == 0 {
        start
    } else {
        hops.last().token_out
    }
}

/// The amount that a path fed with `amount_in` pays out at its end.
pub open spec fn trail_output(amount_in: U256, hops: Seq<RouteHop>) -> U256 {
    if hops.len() == 0 {
        amount_in
    } else {
        hops.last().amount_out
    }
}

/// Whether `hop` is a swap that its pool prices: the pool joins the two
/// tokens, and the output is the pool's quote for the input, in the direction
/// that the input token gives, and at least the dust floor.
pub open spec fn hop_priced(hop: RouteHop) -> bool {
    &&& hop.pool.spec_other_token(hop.token_in) == Some(hop.token_out)
    &&& quote_from(hop.pool, hop.token_in, hop.amount_in@) == Some(hop.amount_out@)
}

/// Whether `hops` is a path through `pools` that starts at `token_in` with
/// `amount_in`: every hop is priced by a pool of `pools`, each hop pays its
/// output token and amount into the next, and no token is passed twice.
pub open spec fn is_trail(
    pools: Seq<PoolEdge>,
    hops: Seq<RouteHop>,
    token_in: Address,
    amount_in: U256,
) -> bool {
    &&& forall|i: int|
        0 <= i < hops.len() ==> hop_priced(#[trigger] hops[i]) && pools.contains(hops[i].pool)
    &&& hops.len() > 0 ==> hops[0].token_in == token_in && hops[0].amount_in == amount_in
    &&& forall|i: int|
        0 <= i < hops.len() - 1 ==> hops[i].token_out == (#[trigger] hops[i + 1]).token_in
            && hops[i].amount_out == hops[i + 1].amount_in
    &&& trail_tokens(token_in, hops).no_duplicates()
}

/// Whether `route` is a route through `pools` that carries `amount_in` from
/// `token_in` to `token_out`: a path of at least one hop that ends at
/// `token_out`, with the totals, the gas estimate and the price impact of that
/// path.
pub open spec fn is_route_along(
    route: Route,
    pools: Seq<PoolEdge>,
    token_in: Address,
    token_out: Address,
    amount_in: U256,
) -> bool {
    &&& route.hops@.len() >= 1
    &&& is_trail(pools, route.hops@, token_in, amount_in)
    &&& route.hops@.last().token_out == token_out
    &&& route.total_amount_in == amount_in
    &&& route.total_amount_out == route.hops@.last().amount_out
    &&& route.gas_estimate == trail_gas(route.hops@)
    &&& route.price_impact == price_impact_of(amount_in@, route.total_amount_out@)
}

/// A path under construction: where it stands, what it pays out there, the
/// hops that lead there and their gas.
pub struct PathState {
    pub token: Address,
    pub amount_out: U256,
    pub hops: Vec<RouteHop>,
    pub gas_used: u64,
}

/// Whether `state` is a path of at most `max_hops` hops through `pools` from
/// `token_in` with `amount_in`.
pub open spec fn state_ok(
    state: PathState,
    pools: Seq<PoolEdge>,
    token_in: Address,
    amount_in: U256,
    max_hops: nat,
) -> bool {
    &&& state.hops@.len() <= max_hops
    &&& is_trail(pools, state.hops@, token_in, amount_in)
    &&& state.token == trail_end(token_in, state.hops@)
    &&& state.amount_out == trail_output(amount_in, state.hops@)
    &&& state.gas_used == trail_gas(state.hops@)
}

/// The gas of a path is at most 150000 a hop.
pub proof fn lemma_trail_gas_bound(hops: Seq<RouteHop>)
    ensures
        trail_gas(hops) <= 150_000 * hops.len(),
    decreases hops.len(),
{
    if hops.len() > 0 {
        lemma_trail_gas_bound(hops.drop_last());
    }
}

/// Whether path `a` is taken up before path `b`: more output first, then fewer
/// hops, then the pool identifiers along the paths.
pub open spec fn state_before(a: PathState, b: PathState) -> bool {
    a.amount_out@ > b.amount_out@ || (a.amount_out@ == b.amount_out@ && (a.hops@.len()
        < b.hops@.len() || (a.hops@.len() == b.hops@.len() && ids_before(a.hops@, b.hops@))))
}

fn takes_before(a: &PathState, b: &PathState) -> (r: bool)
    ensures
        r == state_before(*a, *b),
{
    if b.amount_out.lt(&a.amount_out) {
        return true;
    }
    if a.amount_out.lt(&b.amount_out) {
        return false;
    }
    if a.hops.len() != b.hops.len() {
        return a.hops.len() < b.hops.len();
    }
    hops_before(&a.hops, &b.hops)
}

/// The number of paths that can grow out of a path with `depth` hops to go,
/// itself included, where every path has at most `fan` continuations.
pub open spec fn branch_weight(depth: nat, fan: nat) -> nat
    decreases depth,
{
    if depth == 0 {
        1
    } else {
        1 + fan * branch_weight((depth - 1) as nat, fan)
    }
}

/// The hops that `state` may still take.
pub open spec fn hops_left(state: PathState, max_hops: nat) -> nat {
    if state.hops@.len() >= max_hops {
        0
    } else {
        (max_hops - state.hops@.len()) as nat
    }
}

/// The number of paths that can still grow out of the paths in `states`.
pub open spec fn frontier_weight(states: Seq<PathState>, max_hops: nat, fan: nat) -> nat
    decreases states.len(),
{
    if states.len() == 0 {
        0
    } else {
        frontier_weight(states.drop_last(), max_hops, fan) + branch_weight(
            hops_left(states.last(), max_hops),
            fan,
        )
    }
}

proof fn lemma_weight_push(states: Seq<PathState>, state: PathState, max_hops: nat, fan: nat)
    ensures
        frontier_weight(states.push(state), max_hops, fan) == frontier_weight(
            states,
            max_hops,
            fan,
        ) + branch_weight(hops_left(state, max_hops), fan),
{
    assert(states.push(state).drop_last() =~= states);
}

proof fn lemma_weight_remove(states: Seq<PathState>, at: int, max_hops: nat, fan: nat)
    requires
        0 <= at < states.len(),
    ensures
        frontier_weight(states.remove(at), max_hops, fan) + branch_weight(
            hops_left(states[at], max_hops),
            fan,
        ) == frontier_weight(states, max_hops, fan),
    decreases states.len(),
{
    if at == states.len() - 1 {
        assert(states.remove(at) =~= states.drop_last());
    } else {
        lemma_weight_remove(states.drop_last(), at, max_hops, fan);
        assert(states.remove(at) =~= states.drop_last().remove(at).push(states.last()));
        lemma_weight_push(states.drop_last().remove(at), states.last(), max_hops, fan);
    }
}

/// Whether none of `states` pays more than `best`.
#[verifier::opaque]
pub open spec fn tops(states: Seq<PathState>, best: PathState) -> bool {
    forall|k: int| 0 <= k < states.len() ==> (#[trigger] states[k]).amount_out@ <= best.amount_out@
}

/// Takes the path that is to be taken up first out of `frontier`.
fn pop_best(frontier: &mut Vec<PathState>) -> (r: (PathState, Ghost<int>))
    requires
        old(frontier)@.len() > 0,
    ensures
        0 <= r.1@ < old(frontier)@.len(),
        r.0 == old(frontier)@[r.1@],
        final(frontier)@ == old(frontier)@.remove(r.1@),
        tops(old(frontier)@, r.0),
{
    let mut best: usize = 0;
    let mut i: usize = 1;
    while i < frontier.len()
        invariant
            0 <= best < i <= frontier@.len(),
            forall|k: int|
                0 <= k < i ==> (#[trigger] frontier@[k]).amount_out@
                    <= frontier@[best as int].amount_out@,
        decreases frontier@.len() - i,
    {
        if takes_before(&frontier[i], &frontier[best]) {
            best = i;
        }
        i = i + 1;
    }
    proof {
        reveal(tops);
    }
    let state = frontier.remove(best);
    (state, Ghost(best as int))
}

fn copy_hops(hops: &Vec<RouteHop>) -> (r: Vec<RouteHop>)
    ensures
        r@ == hops@,
{
    let mut copy: Vec<RouteHop> = Vec::new();
    let mut i: usize = 0;
    while i < hops.len()
        invariant
            i <= hops@.len(),
            copy@ == hops@.take(i as int),
        decreases hops@.len() - i,
    {
        copy.push(hops[i]);
        proof {
            assert(hops@.take(i + 1) =~= hops@.take(i as int).push(hops@[i as int]));
        }
        i = i + 1;
    }
    proof {
        assert(hops@.take(i as int) =~= hops@);
    }
    copy
}

/// Whether the path from `start` along `hops` passes `token`.
fn passes(start: Address, hops: &Vec<RouteHop>, token: Address) -> (r: bool)
    ensures
        r == trail_tokens(start, hops@).contains(token),
{
    if start == token {
        proof {
            assert(trail_tokens(start, hops@)[0] == token);
        }
        return true;
    }
    let mut i: usize = 0;
    while i < hops.len()
        invariant
            i <= hops@.len(),
            start != token,
            forall|k: int| 0 <= k < i ==> hops@[k].token_out != token,
        decreases hops@.len() - i,
    {
        if hops[i].token_out == token {
            proof {
                assert(trail_tokens(start, hops@)[i + 1] == token);
            }
            return true;
        }
        i = i + 1;
    }
    proof {
        let tokens = trail_tokens(start, hops@);
        assert forall|k: int| 0 <= k < tokens.len() implies tokens[k] != token by {
            if k > 0 {
                assert(tokens[k] == hops@[k - 1].token_out);
            }
        }
    }
    false
}

/// Whether a path that has reached `token_out` with an output of at least
/// `floor` waits in `states`.
#[verifier::opaque]
pub open spec fn goal_pending(states: Seq<PathState>, token_out: Address, floor: nat) -> bool {
    exists|k: int|
        0 <= k < states.len() && (#[trigger] states[k]).token == token_out && states[k].hops@.len()
            > 0 && states[k].amount_out@ >= floor
}

/// A path that has reached `token_out` waits, with its own output as the
/// floor.
proof fn lemma_goal_joined(states: Seq<PathState>, at: int, token_out: Address)
    requires
        0 <= at < states.len(),
        states[at].token == token_out,
        states[at].hops@.len() > 0,
    ensures
        goal_pending(states, token_out, states[at].amount_out@),
{
    reveal(goal_pending);
}

/// Where a path waits, there is a path.
proof fn lemma_goal_needs_path(states: Seq<PathState>, token_out: Address, floor: nat)
    ensures
        goal_pending(states, token_out, floor) ==> states.len() > 0,
{
    reveal(goal_pending);
}

/// A path that waits with one floor waits with every lower floor.
proof fn lemma_goal_floor(states: Seq<PathState>, token_out: Address, high: nat, low: nat)
    requires
        goal_pending(states, token_out, high),
        low <= high,
    ensures
        goal_pending(states, token_out, low),
{
    reveal(goal_pending);
    let k = choose|k: int|
        0 <= k < states.len() && (#[trigger] states[k]).token == token_out && states[k].hops@.len()
            > 0 && states[k].amount_out@ >= high;
    assert(states[k].amount_out@ >= low);
}

/// A path that pays at least as much as every path of `states` pays at least
/// the floor with which one of them waits.
proof fn lemma_goal_below_best(
    states: Seq<PathState>,
    token_out: Address,
    floor: nat,
    best: PathState,
)
    requires
        goal_pending(states, token_out, floor),
        tops(states, best),
    ensures
        best.amount_out@ >= floor,
{
    reveal(goal_pending);
    reveal(tops);
    let k = choose|k: int|
        0 <= k < states.len() && (#[trigger] states[k]).token == token_out && states[k].hops@.len()
            > 0 && states[k].amount_out@ >= floor;
    assert(states[k].amount_out@ <= best.amount_out@);
}

/// A path that waits still waits when more paths join behind it.
proof fn lemma_goal_stays(before: Seq<PathState>, after: Seq<PathState>, token_out: Address)
    requires
        before.len() <= after.len(),
        forall|k: int| 0 <= k < before.len() ==> after[k] == before[k],
    ensures
        forall|floor: nat| #[trigger]
            goal_pending(before, token_out, floor) ==> goal_pending(after, token_out, floor),
{
    reveal(goal_pending);
    assert forall|floor: nat| #[trigger] goal_pending(before, token_out, floor) implies goal_pending(
        after,
        token_out,
        floor,
    ) by {
        let k = choose|k: int|
            0 <= k < before.len() && (#[trigger] before[k]).token == token_out
                && before[k].hops@.len() > 0 && before[k].amount_out@ >= floor;
        assert(after[k] == before[k]);
    }
}

/// Whether every path in `states` is a path of at most `max_hops` hops.
pub open spec fn frontier_ok(
    states: Seq<PathState>,
    pools: Seq<PoolEdge>,
    token_in: Address,
    amount_in: U256,
    max_hops: nat,
) -> bool {
    forall|k: int|
        0 <= k < states.len() ==> state_ok(#[trigger] states[k], pools, token_in, amount_in, max_hops)
}

/// Whether the path `state` can go on through `pool`: the pool leads from
/// its token to one that it has not passed, and gives a quote for its output.
pub open spec fn can_continue(pool: PoolEdge, state: PathState, token_in: Address) -> bool {
    &&& pool.spec_other_token(state.token) is Some
    &&& !trail_tokens(token_in, state.hops@).contains(pool.spec_other_token(state.token)->0)
    &&& quote_from(pool, state.token, state.amount_out@) is Some
}

/// Whether `frontier` holds the path that goes on from `parent` through
/// `pool`.
#[verifier::opaque]
pub open spec fn holds_child(frontier: Seq<PathState>, parent: PathState, pool: PoolEdge) -> bool {
    exists|k: int|
        0 <= k < frontier.len() && (#[trigger] frontier[k]).hops@.len() == parent.hops@.len() + 1
            && frontier[k].hops@.drop_last() == parent.hops@ && frontier[k].hops@.last().pool
            == pool && frontier[k].hops@.last().token_in == parent.token
            && frontier[k].hops@.last().amount_in == parent.amount_out
}

/// A path that has joined is held.
proof fn lemma_child_joined(frontier: Seq<PathState>, at: int, parent: PathState, pool: PoolEdge)
    requires
        0 <= at < frontier.len(),
        frontier[at].hops@.len() == parent.hops@.len() + 1,
        frontier[at].hops@.drop_last() == parent.hops@,
        frontier[at].hops@.last().pool == pool,
        frontier[at].hops@.last().token_in == parent.token,
        frontier[at].hops@.last().amount_in == parent.amount_out,
    ensures
        holds_child(frontier, parent, pool),
{
    reveal(holds_child);
}

/// A path that is held is still held when more paths join behind it.
proof fn lemma_child_stays(before: Seq<PathState>, after: Seq<PathState>, parent: PathState)
    requires
        before.len() <= after.len(),
        forall|k: int| 0 <= k < before.len() ==> after[k] == before[k],
    ensures
        forall|pool: PoolEdge| #[trigger]
            holds_child(before, parent, pool) ==> holds_child(after, parent, pool),
{
    reveal(holds_child);
    assert forall|pool: PoolEdge| #[trigger] holds_child(before, parent, pool) implies holds_child(
        after,
        parent,
        pool,
    ) by {
        let k = choose|k: int|
            0 <= k < before.len() && (#[trigger] before[k]).hops@.len() == parent.hops@.len() + 1
                && before[k].hops@.drop_last() == parent.hops@ && before[k].hops@.last().pool
                == pool && before[k].hops@.last().token_in == parent.token
                && before[k].hops@.last().amount_in == parent.amount_out;
        assert(after[k] == before[k]);
    }
}

#[verifier::rlimit(50)]
proof fn lemma_extend_trail(
    pools: Seq<PoolEdge>,
    hops: Seq<RouteHop>,
    hop: RouteHop,
    token_in: Address,
    amount_in: U256,
)
    requires
        is_trail(pools, hops, token_in, amount_in),
        hop_priced(hop),
        pools.contains(hop.pool),
        hop.token_in == trail_end(token_in, hops),
        hop.amount_in == trail_output(amount_in, hops),
        !trail_tokens(token_in, hops).contains(hop.token_out),
    ensures
        is_trail(pools, hops.push(hop), token_in, amount_in),
        trail_gas(hops.push(hop)) == trail_gas(hops) + hop_gas(hop.pool),
{
    let longer = hops.push(hop);
    assert(longer.drop_last() =~= hops);
    assert(trail_tokens(token_in, longer) =~= trail_tokens(token_in, hops).push(hop.token_out));
    let tokens = trail_tokens(token_in, hops);
    assert forall|i: int, j: int|
        0 <= i < tokens.push(hop.token_out).len() && 0 <= j < tokens.push(hop.token_out).len() && i
            != j implies tokens.push(hop.token_out)[i] != tokens.push(hop.token_out)[j] by {
        if i < tokens.len() && j < tokens.len() {
        } else if i < tokens.len() {
            assert(tokens.contains(tokens[i]));
        } else {
            assert(tokens.contains(tokens[j]));
        }
    }
    assert forall|i: int| 0 <= i < longer.len() implies hop_priced(#[trigger] longer[i])
        && pools.contains(longer[i].pool) by {
        if i < hops.len() {
            assert(longer[i] == hops[i]);
        }
    }
    assert forall|i: int| 0 <= i < longer.len() - 1 implies longer[i].token_out == (
    #[trigger] longer[i + 1]).token_in && longer[i].amount_out == longer[i + 1].amount_in by {
        if i + 1 < hops.len() {
            assert(longer[i] == hops[i]);
            assert(longer[i + 1] == hops[i + 1]);
        } else {
            assert(longer[i] == hops[i]);
        }
    }
}

/// Puts into `frontier` the continuations of `state` through each of
/// `pools`: one for every pool that leads to a token not yet passed and pays
/// out at least the dust floor.
#[verifier::rlimit(50)]
fn expand(
    state: &PathState,
    pools: &Vec<PoolEdge>,
    frontier: &mut Vec<PathState>,
    Ghost(all_pools): Ghost<Seq<PoolEdge>>,
    token_in: Address,
    token_out: Address,
    amount_in: U256,
    max_hops: usize,
    Ghost(fan): Ghost<nat>,
)
    requires
        max_hops <= MAX_HOPS,
        state_ok(*state, all_pools, token_in, amount_in, max_hops as nat),
        state.hops@.len() < max_hops,
        forall|j: int| 0 <= j < pools@.len() ==> all_pools.contains(#[trigger] pools@[j]),
        frontier_ok(old(frontier)@, all_pools, token_in, amount_in, max_hops as nat),
    ensures
        frontier_ok(final(frontier)@, all_pools, token_in, amount_in, max_hops as nat),
        final(frontier)@.len() >= old(frontier)@.len(),
        final(frontier)@.take(old(frontier)@.len() as int) == old(frontier)@,
        frontier_weight(final(frontier)@, max_hops as nat, fan) <= frontier_weight(
            old(frontier)@,
            max_hops as nat,
            fan,
        ) + pools@.len() * branch_weight((hops_left(*state, max_hops as nat) - 1) as nat, fan),
        forall|j: int|
            0 <= j < pools@.len() && (#[trigger] pools@[j]).spec_other_token(state.token) == Some(
                token_out,
            ) && quote_from(pools@[j], state.token, state.amount_out@) is Some && !trail_tokens(
                token_in,
                state.hops@,
            ).contains(token_out) ==> goal_pending(
                final(frontier)@,
                token_out,
                quote_from(pools@[j], state.token, state.amount_out@)->0,
            ),
        forall|j: int|
            0 <= j < pools@.len() && can_continue(#[trigger] pools@[j], *state, token_in)
                ==> holds_child(final(frontier)@, *state, pools@[j]),
{
    let ghost before = frontier@;
    let ghost child_weight = branch_weight((hops_left(*state, max_hops as nat) - 1) as nat, fan);
    let mut j: usize = 0;
    proof {
        assert(frontier@.take(before.len() as int) =~= before);
        assert(0 * child_weight == 0) by (nonlinear_arith);
    }
    while j < pools.len()
        invariant
            j <= pools@.len(),
            max_hops <= MAX_HOPS,
            state_ok(*state, all_pools, token_in, amount_in, max_hops as nat),
            state.hops@.len() < max_hops,
            forall|k: int| 0 <= k < pools@.len() ==> all_pools.contains(#[trigger] pools@[k]),
            frontier_ok(frontier@, all_pools, token_in, amount_in, max_hops as nat),
            frontier@.len() >= before.len(),
            frontier@.take(before.len() as int) == before,
            child_weight == branch_weight((hops_left(*state, max_hops as nat) - 1) as nat, fan),
            frontier_weight(frontier@, max_hops as nat, fan) <= frontier_weight(
                before,
                max_hops as nat,
                fan,
            ) + j * child_weight,
            forall|k: int|
                0 <= k < j && (#[trigger] pools@[k]).spec_other_token(state.token) == Some(
                    token_out,
                ) && quote_from(pools@[k], state.token, state.amount_out@) is Some && !trail_tokens(
                    token_in,
                    state.hops@,
                ).contains(token_out) ==> goal_pending(
                    frontier@,
                    token_out,
                    quote_from(pools@[k], state.token, state.amount_out@)->0,
                ),
            forall|k: int|
                0 <= k < j && can_continue(#[trigger] pools@[k], *state, token_in) ==> holds_child(
                    frontier@,
                    *state,
                    pools@[k],
                ),
        decreases pools@.len() - j,
    {
        let pool = pools[j];
        let ghost frontier_before = frontier@;
        proof {
            assert((j + 1) * child_weight == j * child_weight + child_weight) by (nonlinear_arith);
        }
        match pool.other_token(state.token) {
            Some(next) => {
                if !passes(token_in, &state.hops, next) {
                    match quote_pool(&pool, state.token, state.amount_out) {
                        Some(amount_out) => {
                            let hop = RouteHop::new(
                                pool,
                                state.token,
                                next,
                                state.amount_out,
                                amount_out,
                            );
                            proof {
                                lemma_extend_trail(
                                    all_pools,
                                    state.hops@,
                                    hop,
                                    token_in,
                                    amount_in,
                                );
                                lemma_trail_gas_bound(state.hops@);
                            }
                            let mut hops = copy_hops(&state.hops);
                            hops.push(hop);
                            let child = PathState {
                                token: next,
                                amount_out,
                                hops,
                                gas_used: state.gas_used + estimate_gas(&pool),
                            };
                            proof {
                                lemma_weight_push(frontier@, child, max_hops as nat, fan);
                                assert(hops_left(child, max_hops as nat) == hops_left(
                                    *state,
                                    max_hops as nat,
                                ) - 1);
                            }
                            frontier.push(child);
                            proof {
                                assert(frontier@[frontier_before.len() as int] == child);
                                assert forall|k: int| 0 <= k < frontier@.len() implies state_ok(
                                    #[trigger] frontier@[k],
                                    all_pools,
                                    token_in,
                                    amount_in,
                                    max_hops as nat,
                                ) by {
                                    if k < frontier_before.len() {
                                        assert(frontier@[k] == frontier_before[k]);
                                    }
                                }
                                assert(frontier@.take(before.len() as int) =~= frontier_before.take(
                                    before.len() as int,
                                ));
                                if next == token_out {
                                    lemma_goal_joined(
                                        frontier@,
                                        frontier_before.len() as int,
                                        token_out,
                                    );
                                }
                                assert(child.hops@.drop_last() =~= state.hops@);
                                lemma_child_joined(
                                    frontier@,
                                    frontier_before.len() as int,
                                    *state,
                                    pool,
                                );
                            }
                        },
                        None => {},
                    }
                }
            },
            None => {},
        }
        proof {
            lemma_goal_stays(frontier_before, frontier@, token_out);
            lemma_child_stays(frontier_before, frontier@, *state);
        }
        j = j + 1;
    }
}

proof fn lemma_branch_weight_positive(depth: nat, fan: nat)
    ensures
        branch_weight(depth, fan) >= 1,
{
    if depth > 0 {
        assert(fan * branch_weight((depth - 1) as nat, fan) >= 0) by (nonlinear_arith);
    }
}

/// Whether `at` is the first place of `seen` that is kept for `token`.
pub open spec fn is_first_seen(seen: Seq<(Address, U256)>, token: Address, at: int) -> bool {
    &&& 0 <= at < seen.len()
    &&& seen[at].0 == token
    &&& forall|j: int| 0 <= j < at ==> (#[trigger] seen[j]).0 != token
}

/// The place of `seen` that is kept for `token`: the first with that token,
/// if there is one.
pub open spec fn seen_at(seen: Seq<(Address, U256)>, token: Address) -> Option<int> {
    if exists|at: int| is_first_seen(seen, token, at) {
        Some(choose|at: int| is_first_seen(seen, token, at))
    } else {
        None
    }
}

/// Only one place is the first for a token.
proof fn lemma_first_seen(seen: Seq<(Address, U256)>, token: Address, at: int)
    requires
        is_first_seen(seen, token, at),
    ensures
        seen_at(seen, token) == Some(at),
{
    let found = choose|k: int| is_first_seen(seen, token, k);
    if found < at {
        assert(seen[found].0 != token);
    } else if at < found {
        assert(seen[at].0 != token);
    }
}

/// The output below which a path is dropped at a token whose best output is
/// `best`: 95% of it, the product taken in 256 bits.
pub open spec fn prune_floor(best: nat) -> nat {
    wrap_mul(best, PRUNE_PERCENT as nat) / 100
}

/// Whether a path with the output `amount` is dropped at `token`: an output
/// was seen there, and `amount` is below the floor of it.
pub open spec fn is_pruned(seen: Seq<(Address, U256)>, token: Address, amount: nat) -> bool {
    match seen_at(seen, token) {
        Some(at) => amount < prune_floor(seen[at].1@),
        None => false,
    }
}

/// The best outputs after a path with the output `amount` was taken up at
/// `token`: a first output at the token joins at the end, a greater one takes
/// the place of the best there, and a dropped or smaller one changes nothing.
pub open spec fn recorded(seen: Seq<(Address, U256)>, token: Address, amount: U256) -> Seq<
    (Address, U256),
> {
    match seen_at(seen, token) {
        Some(at) => if amount@ >= prune_floor(seen[at].1@) && seen[at].1@ < amount@ {
            seen.update(at, (token, amount))
        } else {
            seen
        },
        None => seen.push((token, amount)),
    }
}

/// The place of the best output seen at `token`, if any path was taken up
/// there.
fn best_at(seen: &Vec<(Address, U256)>, token: Address) -> (r: Option<usize>)
    ensures
        r is Some == seen_at(seen@, token) is Some,
        r is Some ==> r->0 as int == seen_at(seen@, token)->0,
        r is Some ==> r->0 < seen@.len() && seen@[r->0 as int].0 == token,
{
    let mut i: usize = 0;
    while i < seen.len()
        invariant
            i <= seen@.len(),
            forall|j: int| 0 <= j < i ==> (#[trigger] seen@[j]).0 != token,
        decreases seen@.len() - i,
    {
        if seen[i].0 == token {
            proof {
                lemma_first_seen(seen@, token, i as int);
            }
            return Some(i);
        }
        i = i + 1;
    }
    None
}

/// Whether a path with the output `amount` is dropped at `token`: it pays
/// out less than 95% of the best output seen there. Otherwise the best output
/// seen at `token` is raised to `amount` where that is more.
fn prune_or_record(seen: &mut Vec<(Address, U256)>, token: Address, amount: U256) -> (pruned: bool)
    ensures
        pruned == is_pruned(old(seen)@, token, amount@),
        final(seen)@ == recorded(old(seen)@, token, amount),
        old(seen)@.len() == 0 ==> !pruned,
{
    match best_at(seen, token) {
        Some(i) => {
            let best = seen[i].1;
            let floor = best.wrapping_mul(U256::from_u64(PRUNE_PERCENT)).div(U256::from_u64(100));
            if amount.lt(&floor) {
                return true;
            }
            if best.lt(&amount) {
                seen.set(i, (token, amount));
            }
            false
        },
        None => {
            seen.push((token, amount));
            false
        },
    }
}

/// Whether a path of at most `max_hops` hops from `token_in` brings `amount`
/// to `token`.
pub open spec fn is_reached(
    pools: Seq<PoolEdge>,
    token_in: Address,
    amount_in: U256,
    max_hops: nat,
    token: Address,
    amount: U256,
) -> bool {
    exists|other: Seq<RouteHop>|
        #[trigger] is_trail(pools, other, token_in, amount_in) && other.len() <= max_hops
            && trail_end(token_in, other) == token && trail_output(amount_in, other) == amount
}

/// Whether `amount` at `token` is below the floor of what some path of at most
/// `max_hops` hops from `token_in` brings there.
pub open spec fn undercut(
    pools: Seq<PoolEdge>,
    token_in: Address,
    amount_in: U256,
    max_hops: nat,
    token: Address,
    amount: nat,
) -> bool {
    exists|best: U256| #[trigger]
        is_reached(pools, token_in, amount_in, max_hops, token, best) && amount < prune_floor(
            best@,
        )
}

/// Whether `hops` is a route that the search cannot lose: a path of at most
/// `max_hops` hops from `token_in` to `token_out`, none of whose beginnings
/// is undercut where it ends.
pub open spec fn is_sure_route(
    hops: Seq<RouteHop>,
    pools: Seq<PoolEdge>,
    token_in: Address,
    token_out: Address,
    amount_in: U256,
    max_hops: nat,
) -> bool {
    &&& 1 <= hops.len() <= max_hops
    &&& is_trail(pools, hops, token_in, amount_in)
    &&& hops.last().token_out == token_out
    &&& forall|i: int|
        1 <= i < hops.len() ==> !undercut(
            pools,
            token_in,
            amount_in,
            max_hops,
            trail_end(token_in, #[trigger] hops.take(i)),
            trail_output(amount_in, hops.take(i))@,
        )
}

/// Whether the graph has a route of at most `max_hops` hops that the search
/// cannot lose, between two of its tokens.
pub open spec fn has_sure_route(
    graph: PoolGraph,
    token_in: Address,
    token_out: Address,
    amount_in: U256,
    max_hops: usize,
) -> bool {
    graph.has_token(token_in) && graph.has_token(token_out) && exists|path: Seq<RouteHop>| #[trigger]
        is_sure_route(path, graph.pools(), token_in, token_out, amount_in, hop_limit(max_hops))
}

/// Whether one of `routes` goes along `hops`.
pub open spec fn has_route(routes: Seq<Route>, hops: Seq<RouteHop>) -> bool {
    exists|k: int| 0 <= k < routes.len() && (#[trigger] routes[k]).hops@ == hops
}

/// Whether every best output of `seen` is what a path brings to its token.
#[verifier::opaque]
pub open spec fn seen_ok(
    seen: Seq<(Address, U256)>,
    pools: Seq<PoolEdge>,
    token_in: Address,
    amount_in: U256,
    max_hops: nat,
) -> bool {
    forall|k: int|
        0 <= k < seen.len() ==> is_reached(
            pools,
            token_in,
            amount_in,
            max_hops,
            (#[trigger] seen[k]).0,
            seen[k].1,
        )
}

/// Whether `part` is a beginning of `hops`.
pub open spec fn is_beginning(part: Seq<RouteHop>, hops: Seq<RouteHop>) -> bool {
    part.len() <= hops.len() && part == hops.take(part.len() as int)
}

/// Whether the search still holds `hops`: as a route among `completed`, or as
/// a path of `frontier` that is a beginning of it.
#[verifier::opaque]
pub open spec fn still_held(frontier: Seq<PathState>, completed: Seq<Route>, hops: Seq<RouteHop>) -> bool {
    has_route(completed, hops) || exists|j: int|
        0 <= j < frontier.len() && is_beginning((#[trigger] frontier[j]).hops@, hops)
}

/// The path without hops is a beginning of every route.
proof fn lemma_held_start(frontier: Seq<PathState>, completed: Seq<Route>, hops: Seq<RouteHop>)
    requires
        frontier.len() == 1,
        frontier[0].hops@.len() == 0,
    ensures
        still_held(frontier, completed, hops),
{
    reveal(still_held);
    assert(frontier[0].hops@ =~= hops.take(0));
    assert(is_beginning(frontier[0].hops@, hops));
}

/// With no path left, what the search holds is among the routes.
proof fn lemma_held_end(completed: Seq<Route>, hops: Seq<RouteHop>)
    requires
        still_held(Seq::<PathState>::empty(), completed, hops),
    ensures
        has_route(completed, hops),
{
    reveal(still_held);
}

/// Taking up one path keeps what the search holds, where the path taken up is
/// carried on: paths and routes only join, and what was a beginning of the
/// route in the path taken up is held again.
proof fn lemma_held_step(
    before: Seq<PathState>,
    at: int,
    after: Seq<PathState>,
    completed_before: Seq<Route>,
    completed: Seq<Route>,
    hops: Seq<RouteHop>,
)
    requires
        0 <= at < before.len(),
        after.len() >= before.len() - 1,
        forall|k: int| 0 <= k < before.len() - 1 ==> after[k] == before.remove(at)[k],
        completed.len() >= completed_before.len(),
        forall|k: int| 0 <= k < completed_before.len() ==> completed[k] == completed_before[k],
        is_beginning(before[at].hops@, hops) ==> still_held(after, completed, hops),
        still_held(before, completed_before, hops),
    ensures
        still_held(after, completed, hops),
{
    reveal(still_held);
    if has_route(completed_before, hops) {
        let k = choose|k: int|
            0 <= k < completed_before.len() && (#[trigger] completed_before[k]).hops@ == hops;
        assert(completed[k].hops@ == hops);
    } else {
        let j = choose|j: int|
            0 <= j < before.len() && is_beginning((#[trigger] before[j]).hops@, hops);
        if j < at {
            assert(after[j] == before.remove(at)[j]);
            assert(is_beginning(after[j].hops@, hops));
        } else if j > at {
            assert(after[j - 1] == before.remove(at)[j - 1]);
            assert(is_beginning(after[j - 1].hops@, hops));
        }
    }
}

/// A route among the routes is held.
proof fn lemma_held_route(
    frontier: Seq<PathState>,
    completed: Seq<Route>,
    at: int,
    hops: Seq<RouteHop>,
)
    requires
        0 <= at < completed.len(),
        completed[at].hops@ == hops,
    ensures
        still_held(frontier, completed, hops),
{
    reveal(still_held);
}

/// A beginning among the paths is held.
proof fn lemma_held_path(
    frontier: Seq<PathState>,
    completed: Seq<Route>,
    at: int,
    hops: Seq<RouteHop>,
)
    requires
        0 <= at < frontier.len(),
        is_beginning(frontier[at].hops@, hops),
    ensures
        still_held(frontier, completed, hops),
{
    reveal(still_held);
}

/// A path ends at `token_out` only where it is the whole route.
proof fn lemma_ends_at_goal(
    hops: Seq<RouteHop>,
    n: int,
    pools: Seq<PoolEdge>,
    token_in: Address,
    token_out: Address,
    amount_in: U256,
)
    requires
        is_trail(pools, hops, token_in, amount_in),
        hops.len() >= 1,
        hops.last().token_out == token_out,
        0 <= n <= hops.len(),
    ensures
        (trail_end(token_in, hops.take(n)) == token_out) == (n == hops.len()),
{
    let tokens = trail_tokens(token_in, hops);
    assert(hops.take(hops.len() as int) =~= hops);
    assert(tokens[hops.len() as int] == token_out);
    if n < hops.len() {
        assert(tokens[n] == trail_end(token_in, hops.take(n))) by {
            if n > 0 {
                assert(hops.take(n).last() == hops[n - 1]);
            }
        }
        assert(tokens[n] != tokens[hops.len() as int]);
    }
}

/// A path that is dropped is undercut.
proof fn lemma_pruned_is_undercut(
    seen: Seq<(Address, U256)>,
    pools: Seq<PoolEdge>,
    token_in: Address,
    amount_in: U256,
    max_hops: nat,
    token: Address,
    amount: nat,
)
    requires
        seen_ok(seen, pools, token_in, amount_in, max_hops),
        is_pruned(seen, token, amount),
    ensures
        undercut(pools, token_in, amount_in, max_hops, token, amount),
{
    reveal(seen_ok);
    let at = seen_at(seen, token)->0;
    assert(is_first_seen(seen, token, at));
    assert(is_reached(pools, token_in, amount_in, max_hops, seen[at].0, seen[at].1));
}

/// The best outputs stay what paths bring there when a path is taken up.
proof fn lemma_recorded_ok(
    seen: Seq<(Address, U256)>,
    pools: Seq<PoolEdge>,
    token_in: Address,
    amount_in: U256,
    max_hops: nat,
    state: PathState,
)
    requires
        seen_ok(seen, pools, token_in, amount_in, max_hops),
        state_ok(state, pools, token_in, amount_in, max_hops),
    ensures
        seen_ok(recorded(seen, state.token, state.amount_out), pools, token_in, amount_in, max_hops),
{
    reveal(seen_ok);
    let after = recorded(seen, state.token, state.amount_out);
    assert(is_reached(pools, token_in, amount_in, max_hops, state.token, state.amount_out)) by {
        assert(is_trail(pools, state.hops@, token_in, amount_in));
    }
    assert forall|k: int| 0 <= k < after.len() implies is_reached(
        pools,
        token_in,
        amount_in,
        max_hops,
        (#[trigger] after[k]).0,
        after[k].1,
    ) by {
        if k < seen.len() && after[k] == seen[k] {
            assert(is_reached(pools, token_in, amount_in, max_hops, seen[k].0, seen[k].1));
        }
    }
}

/// The hop limit of a search: `max_hops`, but at most `MAX_HOPS`.
pub open spec fn hop_limit(max_hops: usize) -> nat {
    if max_hops > MAX_HOPS {
        MAX_HOPS as nat
    } else {
        max_hops as nat
    }
}

/// Whether every route of `routes` is a route of at most `max_hops` hops from
/// `token_in` to `token_out`.
pub open spec fn routes_ok(
    routes: Seq<Route>,
    pools: Seq<PoolEdge>,
    token_in: Address,
    token_out: Address,
    amount_in: U256,
    max_hops: nat,
) -> bool {
    forall|k: int|
        0 <= k < routes.len() ==> is_route_along(
            #[trigger] routes[k],
            pools,
            token_in,
            token_out,
            amount_in,
        ) && routes[k].hops@.len() <= max_hops
}

/// Whether a pool of `pools` gives a direct quote of at least `floor`.
#[verifier::opaque]
pub open spec fn quoted_at_least(
    pools: Seq<PoolEdge>,
    token_in: Address,
    token_out: Address,
    amount_in: nat,
    floor: nat,
) -> bool {
    exists|i: int|
        0 <= i < pools.len() && (#[trigger] direct_quote(
            pools[i],
            token_in,
            token_out,
            amount_in,
        )) is Some && direct_quote(pools[i], token_in, token_out, amount_in)->0 >= floor
}

/// Whether the search owes a route that pays at least `floor`: the two tokens
/// differ, a pool gives a direct quote of at least `floor`, and one hop is
/// allowed.
pub open spec fn promised(
    pools: Seq<PoolEdge>,
    token_in: Address,
    token_out: Address,
    amount_in: U256,
    max_hops: nat,
    floor: nat,
) -> bool {
    token_in != token_out && quoted_at_least(pools, token_in, token_out, amount_in@, floor)
        && max_hops >= 1
}

/// Whether one of `routes` pays at least `floor`.
#[verifier::opaque]
pub open spec fn pays_at_least(routes: Seq<Route>, floor: nat) -> bool {
    exists|k: int| 0 <= k < routes.len() && (#[trigger] routes[k]).total_amount_out@ >= floor
}

/// With one more route, a floor is still paid, and so is the output of the
/// new route.
proof fn lemma_pays_joined(before: Seq<Route>, after: Seq<Route>, floor: nat)
    requires
        after.len() == before.len() + 1,
        forall|k: int| 0 <= k < before.len() ==> after[k] == before[k],
        pays_at_least(before, floor) || after.last().total_amount_out@ >= floor,
    ensures
        pays_at_least(after, floor),
{
    reveal(pays_at_least);
    if pays_at_least(before, floor) {
        let k = choose|k: int|
            0 <= k < before.len() && (#[trigger] before[k]).total_amount_out@ >= floor;
        assert(after[k] == before[k]);
    } else {
        assert(after[after.len() - 1].total_amount_out@ >= floor);
    }
}

/// Where one of the routes pays a floor, the first of the same routes in
/// descending order of output pays it.
proof fn lemma_head_pays(unsorted: Seq<Route>, sorted: Seq<Route>, floor: nat)
    requires
        pays_at_least(unsorted, floor),
        outputs_descend(sorted),
        forall|j: int| 0 <= j < unsorted.len() ==> sorted.contains(#[trigger] unsorted[j]),
    ensures
        sorted.len() >= 1,
        sorted[0].total_amount_out@ >= floor,
{
    reveal(pays_at_least);
    let k = choose|k: int|
        0 <= k < unsorted.len() && (#[trigger] unsorted[k]).total_amount_out@ >= floor;
    assert(sorted.contains(unsorted[k]));
    let at = choose|at: int| 0 <= at < sorted.len() && sorted[at] == unsorted[k];
    if at > 0 {
        assert(sorted[0].total_amount_out@ >= sorted[at].total_amount_out@);
    }
}

/// Whether no pool of `pools` gives a direct quote above `floor`.
#[verifier::opaque]
pub open spec fn no_quote_above(
    pools: Seq<PoolEdge>,
    token_in: Address,
    token_out: Address,
    amount_in: nat,
    floor: nat,
) -> bool {
    forall|i: int|
        0 <= i < pools.len() && (#[trigger] direct_quote(
            pools[i],
            token_in,
            token_out,
            amount_in,
        )) is Some ==> direct_quote(pools[i], token_in, token_out, amount_in)->0 <= floor
}

/// Routes whose first pays a floor that no direct quote is above pay every
/// direct quote.
proof fn lemma_beats(
    routes: Seq<Route>,
    pools: Seq<PoolEdge>,
    token_in: Address,
    token_out: Address,
    amount_in: nat,
    floor: nat,
)
    requires
        has_direct_quote(pools, token_in, token_out, amount_in) ==> no_quote_above(
            pools,
            token_in,
            token_out,
            amount_in,
            floor,
        ) && routes.len() >= 1 && routes[0].total_amount_out@ >= floor,
    ensures
        pays_every_direct_quote(first_output(routes), pools, token_in, token_out, amount_in),
{
    reveal(no_quote_above);
}

/// Among values of which one is there, one is the greatest.
proof fn lemma_greatest(values: Seq<Option<nat>>) -> (best: int)
    requires
        exists|i: int| 0 <= i < values.len() && (#[trigger] values[i]) is Some,
    ensures
        0 <= best < values.len(),
        values[best] is Some,
        forall|i: int|
            0 <= i < values.len() && (#[trigger] values[i]) is Some ==> values[i]->0
                <= values[best]->0,
    decreases values.len(),
{
    let last = values.len() - 1;
    let shorter = values.drop_last();
    if exists|i: int| 0 <= i < shorter.len() && (#[trigger] shorter[i]) is Some {
        let before = lemma_greatest(shorter);
        assert(shorter[before] == values[before]);
        let best = if values[last] is Some && values[last]->0 > values[before]->0 {
            last
        } else {
            before
        };
        assert forall|i: int| 0 <= i < values.len() && (#[trigger] values[i]) is Some implies values[i]->0
            <= values[best]->0 by {
            if i < last {
                assert(shorter[i] == values[i]);
            }
        }
        best
    } else {
        let i = choose|i: int| 0 <= i < values.len() && (#[trigger] values[i]) is Some;
        if i < last {
            assert(shorter[i] == values[i]);
        }
        assert forall|k: int| 0 <= k < values.len() && (#[trigger] values[k]) is Some implies k
            == last by {
            if k < last {
                assert(shorter[k] == values[k]);
            }
        }
        last
    }
}

/// Among the pools that give a direct quote, one gives the greatest.
pub proof fn lemma_best_direct(
    pools: Seq<PoolEdge>,
    token_in: Address,
    token_out: Address,
    amount_in: nat,
) -> (best: int)
    requires
        has_direct_quote(pools, token_in, token_out, amount_in),
    ensures
        0 <= best < pools.len(),
        direct_quote(pools[best], token_in, token_out, amount_in) is Some,
        forall|i: int|
            0 <= i < pools.len() && (#[trigger] direct_quote(
                pools[i],
                token_in,
                token_out,
                amount_in,
            )) is Some ==> direct_quote(pools[i], token_in, token_out, amount_in)->0
                <= direct_quote(pools[best], token_in, token_out, amount_in)->0,
        quoted_at_least(
            pools,
            token_in,
            token_out,
            amount_in,
            direct_quote(pools[best], token_in, token_out, amount_in)->0,
        ),
        no_quote_above(
            pools,
            token_in,
            token_out,
            amount_in,
            direct_quote(pools[best], token_in, token_out, amount_in)->0,
        ),
{
    reveal(quoted_at_least);
    reveal(no_quote_above);
    let values = Seq::new(
        pools.len(),
        |i: int| direct_quote(pools[i], token_in, token_out, amount_in),
    );
    let some = choose|i: int|
        0 <= i < pools.len() && #[trigger] direct_quote(pools[i], token_in, token_out, amount_in)
            is Some;
    assert(values[some] is Some);
    let best = lemma_greatest(values);
    assert forall|i: int|
        0 <= i < pools.len() && (#[trigger] direct_quote(
            pools[i],
            token_in,
            token_out,
            amount_in,
        )) is Some implies direct_quote(pools[i], token_in, token_out, amount_in)->0
        <= direct_quote(pools[best], token_in, token_out, amount_in)->0 by {
        assert(values[i] is Some);
    }
    best
}

#[verifier::rlimit(50)]
proof fn lemma_pop_keeps_paths(
    before: Seq<PathState>,
    at: int,
    pools: Seq<PoolEdge>,
    token_in: Address,
    amount_in: U256,
    max_hops: nat,
)
    requires
        0 <= at < before.len(),
        frontier_ok(before, pools, token_in, amount_in, max_hops),
    ensures
        frontier_ok(before.remove(at), pools, token_in, amount_in, max_hops),
        state_ok(before[at], pools, token_in, amount_in, max_hops),
{
    let after = before.remove(at);
    assert forall|k: int| 0 <= k < after.len() implies state_ok(
        #[trigger] after[k],
        pools,
        token_in,
        amount_in,
        max_hops,
    ) by {
        let from = if k < at {
            k
        } else {
            k + 1
        };
        assert(after[k] == before[from]);
        assert(state_ok(before[from], pools, token_in, amount_in, max_hops));
    }
}

proof fn lemma_pop_keeps_goal(before: Seq<PathState>, at: int, token_out: Address, floor: nat)
    requires
        0 <= at < before.len(),
        goal_pending(before, token_out, floor),
    ensures
        goal_pending(before.remove(at), token_out, floor) || (before[at].token == token_out
            && before[at].hops@.len() > 0 && before[at].amount_out@ >= floor),
{
    reveal(goal_pending);
    let after = before.remove(at);
    let g = choose|g: int|
        0 <= g < before.len() && (#[trigger] before[g]).token == token_out && before[g].hops@.len()
            > 0 && before[g].amount_out@ >= floor;
    if g < at {
        assert(after[g] == before[g]);
    } else if g > at {
        assert(after[g - 1] == before[g]);
    }
}

/// What taking the path at `at` out of the frontier leaves behind.
proof fn lemma_pop(
    before: Seq<PathState>,
    at: int,
    pools: Seq<PoolEdge>,
    token_in: Address,
    token_out: Address,
    amount_in: U256,
    max_hops: nat,
    fan: nat,
    floor: nat,
)
    requires
        0 <= at < before.len(),
        frontier_ok(before, pools, token_in, amount_in, max_hops),
    ensures
        frontier_ok(before.remove(at), pools, token_in, amount_in, max_hops),
        state_ok(before[at], pools, token_in, amount_in, max_hops),
        frontier_weight(before.remove(at), max_hops, fan) + branch_weight(
            hops_left(before[at], max_hops),
            fan,
        ) == frontier_weight(before, max_hops, fan),
        branch_weight(hops_left(before[at], max_hops), fan) >= 1,
        goal_pending(before, token_out, floor) ==> goal_pending(
            before.remove(at),
            token_out,
            floor,
        ) || (before[at].token == token_out && before[at].hops@.len() > 0
            && before[at].amount_out@ >= floor),
{
    lemma_pop_keeps_paths(before, at, pools, token_in, amount_in, max_hops);
    lemma_weight_remove(before, at, max_hops, fan);
    lemma_branch_weight_positive(hops_left(before[at], max_hops), fan);
    if goal_pending(before, token_out, floor) {
        lemma_pop_keeps_goal(before, at, token_out, floor);
    }
}

/// Turns a path that has reached `token_out` into a route.
#[verifier::rlimit(50)]
fn complete(
    state: PathState,
    completed: &mut Vec<Route>,
    Ghost(pools): Ghost<Seq<PoolEdge>>,
    token_in: Address,
    token_out: Address,
    amount_in: U256,
    Ghost(max_hops): Ghost<nat>,
)
    requires
        state_ok(state, pools, token_in, amount_in, max_hops),
        state.token == token_out,
        state.hops@.len() > 0,
        routes_ok(old(completed)@, pools, token_in, token_out, amount_in, max_hops),
    ensures
        routes_ok(final(completed)@, pools, token_in, token_out, amount_in, max_hops),
        final(completed)@.len() == old(completed)@.len() + 1,
        final(completed)@.last().total_amount_out == state.amount_out,
        final(completed)@.last().hops@ == state.hops@,
        forall|k: int| 0 <= k < old(completed)@.len() ==> final(completed)@[k] == old(completed)@[k],
{
    let ghost before = completed@;
    let price_impact = calculate_price_impact(amount_in, state.amount_out);
    let route = Route::new(state.hops, amount_in, state.amount_out, price_impact, state.gas_used);
    completed.push(route);
    proof {
        assert forall|k: int| 0 <= k < completed@.len() implies is_route_along(
            #[trigger] completed@[k],
            pools,
            token_in,
            token_out,
            amount_in,
        ) && completed@[k].hops@.len() <= max_hops by {
            if k < before.len() {
                assert(completed@[k] == before[k]);
            }
        }
    }
}

/// Continues `state` through the pools of its token.
#[verifier::rlimit(50)]
fn continue_path(
    graph: &PoolGraph,
    state: &PathState,
    frontier: &mut Vec<PathState>,
    token_in: Address,
    token_out: Address,
    amount_in: U256,
    max_hops: usize,
    Ghost(floor): Ghost<nat>,
)
    requires
        max_hops <= MAX_HOPS,
        state_ok(*state, graph.pools(), token_in, amount_in, max_hops as nat),
        state.hops@.len() < max_hops,
        frontier_ok(old(frontier)@, graph.pools(), token_in, amount_in, max_hops as nat),
    ensures
        frontier_ok(final(frontier)@, graph.pools(), token_in, amount_in, max_hops as nat),
        frontier_weight(final(frontier)@, max_hops as nat, graph.pools().len()) + 1
            <= frontier_weight(old(frontier)@, max_hops as nat, graph.pools().len())
            + branch_weight(hops_left(*state, max_hops as nat), graph.pools().len()),
        goal_pending(old(frontier)@, token_out, floor) ==> goal_pending(
            final(frontier)@,
            token_out,
            floor,
        ),
        state.hops@.len() == 0 && promised(
            graph.pools(),
            token_in,
            token_out,
            amount_in,
            max_hops as nat,
            floor,
        ) ==> goal_pending(final(frontier)@, token_out, floor),
        final(frontier)@.len() >= old(frontier)@.len(),
        forall|k: int| 0 <= k < old(frontier)@.len() ==> final(frontier)@[k] == old(frontier)@[k],
        forall|pool: PoolEdge|
            graph.pools().contains(pool) && #[trigger] can_continue(pool, *state, token_in)
                ==> holds_child(final(frontier)@, *state, pool),
{
    let ghost all_pools = graph.pools();
    let ghost fan = all_pools.len();
    let ghost before = frontier@;
    let pools = graph.get_pools_for_token(state.token);
    proof {
        let touches = |p: PoolEdge| crate::graph::pool_graph::pool_touches(p, state.token);
        all_pools.lemma_filter_len(touches);
        assert forall|j: int| 0 <= j < pools@.len() implies all_pools.contains(
            #[trigger] pools@[j],
        ) by {
            assert(pools@.contains(pools@[j]));
            all_pools.lemma_filter_contains_rev(touches, pools@[j]);
        }
        if state.hops@.len() == 0 {
            assert(trail_tokens(token_in, state.hops@) =~= seq![token_in]);
        }
    }
    expand(
        state,
        &pools,
        frontier,
        Ghost(all_pools),
        token_in,
        token_out,
        amount_in,
        max_hops,
        Ghost(fan),
    );
    proof {
        let depth = hops_left(*state, max_hops as nat);
        let child = branch_weight((depth - 1) as nat, fan);
        assert(pools@.len() * child <= fan * child) by (nonlinear_arith)
            requires
                pools@.len() <= fan,
        ;
        assert forall|k: int| 0 <= k < before.len() implies frontier@[k] == before[k] by {
            assert(frontier@.take(before.len() as int)[k] == frontier@[k]);
        }
        lemma_goal_stays(before, frontier@, token_out);
        assert forall|pool: PoolEdge|
            all_pools.contains(pool) && #[trigger] can_continue(
                pool,
                *state,
                token_in,
            ) implies holds_child(frontier@, *state, pool) by {
            let touches = |p: PoolEdge| crate::graph::pool_graph::pool_touches(p, state.token);
            let i = choose|i: int| 0 <= i < all_pools.len() && all_pools[i] == pool;
            assert(touches(all_pools[i]));
            all_pools.lemma_filter_contains(touches, i);
            let j = choose|j: int|
                0 <= j < all_pools.filter(touches).len() && all_pools.filter(touches)[j] == pool;
            assert(pools@[j] == pool);
        }
        if state.hops@.len() == 0 && promised(
            all_pools,
            token_in,
            token_out,
            amount_in,
            max_hops as nat,
            floor,
        ) {
            let j = lemma_direct_pool_listed(all_pools, token_in, token_out, amount_in@, floor);
            let quote = quote_from(pools@[j], token_in, amount_in@)->0;
            assert(goal_pending(frontier@, token_out, quote));
            lemma_goal_floor(frontier@, token_out, quote, floor);
        }
    }
}

/// The hop of a route behind one of its beginnings goes on from where the
/// beginning ends, through a pool that lets the path continue.
proof fn lemma_next_hop(
    state: PathState,
    hops: Seq<RouteHop>,
    pools: Seq<PoolEdge>,
    token_in: Address,
    amount_in: U256,
    max_hops: nat,
)
    requires
        is_trail(pools, hops, token_in, amount_in),
        state_ok(state, pools, token_in, amount_in, max_hops),
        is_beginning(state.hops@, hops),
        state.hops@.len() < hops.len(),
    ensures
        pools.contains(hops[state.hops@.len() as int].pool),
        hop_priced(hops[state.hops@.len() as int]),
        hops[state.hops@.len() as int].token_in == state.token,
        hops[state.hops@.len() as int].amount_in == state.amount_out,
        can_continue(hops[state.hops@.len() as int].pool, state, token_in),
{
    let n = state.hops@.len() as int;
    let part = hops.take(n);
    let hop = hops[n];
    assert(hop_priced(hop) && pools.contains(hop.pool));
    assert(hop.token_in == state.token && hop.amount_in == state.amount_out) by {
        if n > 0 {
            assert(part.last() == hops[n - 1]);
            assert(hops[n - 1].token_out == hops[n - 1 + 1].token_in);
        }
    }
    let tokens = trail_tokens(token_in, hops);
    let short = trail_tokens(token_in, part);
    if short.contains(hop.token_out) {
        let i = choose|i: int| 0 <= i < short.len() && short[i] == hop.token_out;
        assert(short[i] == tokens[i]);
        assert(tokens[n + 1] == hop.token_out);
        assert(tokens[i] != tokens[n + 1]);
    }
}

/// The path that goes on from a beginning of a route through the pool of its
/// next hop is a beginning of the route, one hop longer.
proof fn lemma_child_is_next(
    state: PathState,
    hops: Seq<RouteHop>,
    pools: Seq<PoolEdge>,
    token_in: Address,
    amount_in: U256,
    max_hops: nat,
    frontier: Seq<PathState>,
    completed: Seq<Route>,
)
    requires
        is_beginning(state.hops@, hops),
        state.hops@.len() < hops.len(),
        hop_priced(hops[state.hops@.len() as int]),
        hops[state.hops@.len() as int].token_in == state.token,
        hops[state.hops@.len() as int].amount_in == state.amount_out,
        frontier_ok(frontier, pools, token_in, amount_in, max_hops),
        holds_child(frontier, state, hops[state.hops@.len() as int].pool),
    ensures
        still_held(frontier, completed, hops),
{
    reveal(holds_child);
    let n = state.hops@.len() as int;
    let hop = hops[n];
    let k = choose|k: int|
        0 <= k < frontier.len() && (#[trigger] frontier[k]).hops@.len() == state.hops@.len() + 1
            && frontier[k].hops@.drop_last() == state.hops@ && frontier[k].hops@.last().pool
            == hop.pool && frontier[k].hops@.last().token_in == state.token
            && frontier[k].hops@.last().amount_in == state.amount_out;
    let child = frontier[k].hops@;
    assert(state_ok(frontier[k], pools, token_in, amount_in, max_hops));
    assert(hop_priced(child[n]));
    crate::utils::uint::lemma_view_injective(child[n].amount_out, hop.amount_out);
    assert(child[n] == hop);
    assert(child =~= hops.take(n + 1)) by {
        assert forall|i: int| 0 <= i < n + 1 implies child[i] == hops.take(n + 1)[i] by {
            if i < n {
                assert(child.drop_last()[i] == hops.take(n)[i]);
            }
        }
    }
    lemma_held_path(frontier, completed, k, hops);
}

/// The floor of an output is not above it.
proof fn lemma_floor_below(best: nat)
    requires
        best < crate::utils::uint::modulus(),
    ensures
        prune_floor(best) <= best,
{
    let m = crate::utils::uint::modulus();
    let product = best * 95;
    assert(PRUNE_PERCENT as nat == 95);
    if product < m {
        assert(product % m == product) by (nonlinear_arith)
            requires
                0 <= product < m,
        ;
        assert(product / 100 <= best) by (nonlinear_arith)
            requires
                product == best * 95,
        ;
    } else {
        assert(product % m < m) by (nonlinear_arith)
            requires
                m > 0,
        ;
        assert((product % m) / 100 <= best) by (nonlinear_arith)
            requires
                product % m < m,
                best * 95 >= m,
                product % m >= 0,
        ;
    }
}

/// What the search starts with is not undercut: only the path without hops
/// ends where it starts.
proof fn lemma_start_not_undercut(
    pools: Seq<PoolEdge>,
    token_in: Address,
    amount_in: U256,
    max_hops: nat,
)
    ensures
        !undercut(pools, token_in, amount_in, max_hops, token_in, amount_in@),
{
    assert forall|best: U256| #[trigger]
        is_reached(pools, token_in, amount_in, max_hops, token_in, best) implies !(amount_in@
        < prune_floor(best@)) by {
        let other = choose|other: Seq<RouteHop>|
            #[trigger] is_trail(pools, other, token_in, amount_in) && other.len() <= max_hops
                && trail_end(token_in, other) == token_in && trail_output(amount_in, other)
                == best;
        if other.len() > 0 {
            let tokens = trail_tokens(token_in, other);
            assert(tokens[0] == token_in);
            assert(tokens[other.len() as int] == other.last().token_out);
            assert(tokens[0] != tokens[other.len() as int]);
        }
        crate::utils::uint::lemma_view_bound(amount_in);
        lemma_floor_below(amount_in@);
    }
}

/// A beginning of a route that the search cannot lose is not dropped.
proof fn lemma_not_pruned(
    state: PathState,
    hops: Seq<RouteHop>,
    pools: Seq<PoolEdge>,
    token_in: Address,
    token_out: Address,
    amount_in: U256,
    max_hops: nat,
    seen: Seq<(Address, U256)>,
)
    requires
        is_sure_route(hops, pools, token_in, token_out, amount_in, max_hops),
        state_ok(state, pools, token_in, amount_in, max_hops),
        is_beginning(state.hops@, hops),
        state.hops@.len() < hops.len(),
        seen_ok(seen, pools, token_in, amount_in, max_hops),
    ensures
        !is_pruned(seen, state.token, state.amount_out@),
{
    let n = state.hops@.len() as int;
    let part = hops.take(n);
    if is_pruned(seen, state.token, state.amount_out@) {
        lemma_pruned_is_undercut(
            seen,
            pools,
            token_in,
            amount_in,
            max_hops,
            state.token,
            state.amount_out@,
        );
        if n == 0 {
            lemma_start_not_undercut(pools, token_in, amount_in, max_hops);
        }
        assert(!undercut(
            pools,
            token_in,
            amount_in,
            max_hops,
            trail_end(token_in, part),
            trail_output(amount_in, part)@,
        ));
    }
}

/// A path that is a beginning of a route that the search cannot lose is
/// carried on when it is taken up: as the route, where it is the whole of it,
/// and else as the path one hop further along it.
proof fn lemma_carried_on(
    state: PathState,
    hops: Seq<RouteHop>,
    pools: Seq<PoolEdge>,
    token_in: Address,
    token_out: Address,
    amount_in: U256,
    max_hops: nat,
    seen: Seq<(Address, U256)>,
    frontier: Seq<PathState>,
    completed: Seq<Route>,
)
    requires
        is_sure_route(hops, pools, token_in, token_out, amount_in, max_hops),
        state_ok(state, pools, token_in, amount_in, max_hops),
        is_beginning(state.hops@, hops),
        seen_ok(seen, pools, token_in, amount_in, max_hops),
        frontier_ok(frontier, pools, token_in, amount_in, max_hops),
        state.token == token_out && state.hops@.len() > 0 ==> completed.len() >= 1
            && completed.last().hops@ == state.hops@,
        state.token != token_out && !is_pruned(seen, state.token, state.amount_out@)
            && state.hops@.len() < max_hops ==> forall|pool: PoolEdge|
            pools.contains(pool) && #[trigger] can_continue(pool, state, token_in) ==> holds_child(
                frontier,
                state,
                pool,
            ),
    ensures
        still_held(frontier, completed, hops),
{
    let n = state.hops@.len() as int;
    lemma_ends_at_goal(hops, n, pools, token_in, token_out, amount_in);
    if n == hops.len() {
        assert(hops.take(n) =~= hops);
        lemma_held_route(frontier, completed, completed.len() - 1, hops);
    } else {
        lemma_not_pruned(state, hops, pools, token_in, token_out, amount_in, max_hops, seen);
        lemma_next_hop(state, hops, pools, token_in, amount_in, max_hops);
        lemma_child_is_next(
            state,
            hops,
            pools,
            token_in,
            amount_in,
            max_hops,
            frontier,
            completed,
        );
    }
}

/// One round of the search: takes up the best path of `frontier`, and either
/// turns it into a route, drops it, or continues it.
#[verifier::rlimit(50)]
fn advance(
    graph: &PoolGraph,
    frontier: &mut Vec<PathState>,
    seen: &mut Vec<(Address, U256)>,
    completed: &mut Vec<Route>,
    token_in: Address,
    token_out: Address,
    amount_in: U256,
    max_hops: usize,
    Ghost(untouched): Ghost<bool>,
    Ghost(floor): Ghost<nat>,
)
    requires
        max_hops <= MAX_HOPS,
        old(frontier)@.len() > 0,
        frontier_ok(old(frontier)@, graph.pools(), token_in, amount_in, max_hops as nat),
        routes_ok(old(completed)@, graph.pools(), token_in, token_out, amount_in, max_hops as nat),
        untouched ==> old(frontier)@.len() == 1 && old(frontier)@[0].hops@.len() == 0 && old(
            seen,
        )@.len() == 0 && old(completed)@.len() == 0,
        seen_ok(old(seen)@, graph.pools(), token_in, amount_in, max_hops as nat),
    ensures
        seen_ok(final(seen)@, graph.pools(), token_in, amount_in, max_hops as nat),
        forall|hops: Seq<RouteHop>|
            is_sure_route(hops, graph.pools(), token_in, token_out, amount_in, max_hops as nat)
                && #[trigger] still_held(old(frontier)@, old(completed)@, hops) ==> still_held(
                final(frontier)@,
                final(completed)@,
                hops,
            ),
        frontier_ok(final(frontier)@, graph.pools(), token_in, amount_in, max_hops as nat),
        routes_ok(
            final(completed)@,
            graph.pools(),
            token_in,
            token_out,
            amount_in,
            max_hops as nat,
        ),
        old(completed)@.len() <= final(completed)@.len() <= old(completed)@.len() + 1,
        frontier_weight(final(frontier)@, max_hops as nat, graph.pools().len()) < frontier_weight(
            old(frontier)@,
            max_hops as nat,
            graph.pools().len(),
        ),
        promised(graph.pools(), token_in, token_out, amount_in, max_hops as nat, floor) && (
        untouched || (old(completed)@.len() == 0 && goal_pending(
            old(frontier)@,
            token_out,
            floor,
        )) || pays_at_least(old(completed)@, floor)) ==> (final(completed)@.len() == 0
            && goal_pending(final(frontier)@, token_out, floor)) || pays_at_least(
            final(completed)@,
            floor,
        ),
{
    let ghost frontier_before = frontier@;
    let ghost completed_before = completed@;
    let ghost seen_before = seen@;
    let (state, Ghost(at)) = pop_best(frontier);
    let ghost popped = state;
    proof {
        lemma_pop(
            frontier_before,
            at,
            graph.pools(),
            token_in,
            token_out,
            amount_in,
            max_hops as nat,
            graph.pools().len(),
            floor,
        );
        if untouched {
            assert(at == 0);
            assert(trail_end(token_in, state.hops@) == token_in);
        }
        if goal_pending(frontier_before, token_out, floor) {
            lemma_goal_below_best(frontier_before, token_out, floor, state);
        }
    }
    if state.token == token_out {
        proof {
            if state.hops@.len() == 0 {
                assert(trail_end(token_in, state.hops@) == token_in);
            }
        }
        if state.hops.len() > 0 {
            complete(
                state,
                completed,
                Ghost(graph.pools()),
                token_in,
                token_out,
                amount_in,
                Ghost(max_hops as nat),
            );
            proof {
                if pays_at_least(completed_before, floor) || goal_pending(
                    frontier_before,
                    token_out,
                    floor,
                ) {
                    lemma_pays_joined(completed_before, completed@, floor);
                }
            }
        }
    } else {
        let pruned = prune_or_record(seen, state.token, state.amount_out);
        proof {
            lemma_recorded_ok(
                seen_before,
                graph.pools(),
                token_in,
                amount_in,
                max_hops as nat,
                popped,
            );
        }
        if !pruned && state.hops.len() < max_hops {
            continue_path(
                graph,
                &state,
                frontier,
                token_in,
                token_out,
                amount_in,
                max_hops,
                Ghost(floor),
            );
        }
    }
    proof {
        assert forall|hops: Seq<RouteHop>|
            is_sure_route(hops, graph.pools(), token_in, token_out, amount_in, max_hops as nat)
                && #[trigger] still_held(frontier_before, completed_before, hops) implies still_held(
            frontier@,
            completed@,
            hops,
        ) by {
            if is_beginning(popped.hops@, hops) {
                lemma_carried_on(
                    popped,
                    hops,
                    graph.pools(),
                    token_in,
                    token_out,
                    amount_in,
                    max_hops as nat,
                    seen_before,
                    frontier@,
                    completed@,
                );
            }
            lemma_held_step(frontier_before, at, frontier@, completed_before, completed@, hops);
        }
    }
}

/// Up to `top_n` routes of `amount_in` from `token_in` to `token_out`, by
/// descending output.
///
/// The routes are found by a best-first search. A path is taken up in the
/// order of its output so far, the greatest first, then the fewer hops, then
/// the pool identifiers along it. A path that has reached `token_out` becomes a
/// route. Any other path is dropped where it pays less than 95% of the best
/// output seen at its token, and otherwise continued through every pool that
/// leads to a token it has not passed and pays at least the dust floor, up to
/// the hop limit. The search ends once `top_n` routes are found or no path is
/// left.
///
/// Every route is a path through pools of the graph from `token_in` to
/// `token_out` that passes no token twice, prices each hop in the direction of
/// its input token, and has at most `max_hops` hops, and never more than
/// `MAX_HOPS`. There is no route where no walk along pools joins the two
/// tokens or one of them is not a token of the graph. Where both are tokens of
/// the graph and differ, and the limits allow one route of one hop, the first
/// route pays at least as much as every direct quote between them; so there is
/// a route where a pool gives a direct quote.
///
/// Among routes of one output the one with fewer hops comes first, then the
/// one whose pool identifiers come first.
///
/// Where both are tokens of the graph and fewer than `top_n` routes are
/// found, no route was lost that the search cannot lose: every path within the
/// hop limit is among the routes, none of whose beginnings pays out less than
/// 95% of what another path within the limit brings to the same token.
#[verifier::rlimit(50)]
pub fn find_top_routes(
    graph: &PoolGraph,
    token_in: Address,
    token_out: Address,
    amount_in: U256,
    max_hops: usize,
    top_n: usize,
) -> (r: Vec<Route>)
    ensures
        r@.len() <= top_n,
        outputs_descend(r@),
        in_rank_order(r@, false),
        forall|k: int|
            0 <= k < r@.len() ==> is_route_along(
                #[trigger] r@[k],
                graph.pools(),
                token_in,
                token_out,
                amount_in,
            ) && r@[k].hops@.len() <= hop_limit(max_hops),
        !(graph.has_token(token_in) && graph.has_token(token_out) && linked(
            pool_links(graph.pools()),
            token_in,
            token_out,
        )) ==> r@.len() == 0,
        graph.has_token(token_in) && graph.has_token(token_out) && token_in != token_out
            && max_hops >= 1 && top_n >= 1 ==> pays_every_direct_quote(
            first_output(r@),
            graph.pools(),
            token_in,
            token_out,
            amount_in@,
        ),
        graph.has_token(token_in) && graph.has_token(token_out) ==> r@.len() == top_n || forall|
            hops: Seq<RouteHop>,
        | #[trigger]
            is_sure_route(
                hops,
                graph.pools(),
                token_in,
                token_out,
                amount_in,
                hop_limit(max_hops),
            ) ==> has_route(r@, hops),
{
    let ghost asked = max_hops;
    let max_hops: usize = if max_hops > MAX_HOPS {
        MAX_HOPS
    } else {
        max_hops
    };
    if !graph.has_path(token_in, token_out) {
        proof {
            if has_direct_quote(graph.pools(), token_in, token_out, amount_in@) {
                lemma_direct_pool_links(graph.pools(), token_in, token_out, amount_in@);
            }
            assert forall|hops: Seq<RouteHop>| #[trigger]
                is_sure_route(
                    hops,
                    graph.pools(),
                    token_in,
                    token_out,
                    amount_in,
                    hop_limit(asked),
                ) implies !(graph.has_token(token_in) && graph.has_token(token_out)) by {
                lemma_route_links(graph.pools(), hops, token_in, token_out, amount_in);
            }
        }
        return Vec::new();
    }
    let ghost all_pools = graph.pools();
    let ghost fan = all_pools.len();
    let ghost quoted = has_direct_quote(all_pools, token_in, token_out, amount_in@);
    let ghost mut floor: nat = 0;
    proof {
        if quoted {
            let best = lemma_best_direct(all_pools, token_in, token_out, amount_in@);
            floor = direct_quote(all_pools[best], token_in, token_out, amount_in@)->0;
        }
    }
    let mut frontier: Vec<PathState> = Vec::new();
    let mut seen: Vec<(Address, U256)> = Vec::new();
    let mut completed: Vec<Route> = Vec::new();
    let start = PathState { token: token_in, amount_out: amount_in, hops: Vec::new(), gas_used: 0 };
    proof {
        assert(trail_tokens(token_in, start.hops@) =~= seq![token_in]);
    }
    frontier.push(start);
    let ghost mut untouched = true;
    proof {
        reveal(seen_ok);
        assert forall|hops: Seq<RouteHop>| #[trigger]
            is_sure_route(
                hops,
                all_pools,
                token_in,
                token_out,
                amount_in,
                max_hops as nat,
            ) implies still_held(frontier@, completed@, hops) by {
            lemma_held_start(frontier@, completed@, hops);
        }
    }
    while frontier.len() > 0 && completed.len() < top_n
        invariant
            max_hops <= MAX_HOPS,
            seen_ok(seen@, all_pools, token_in, amount_in, max_hops as nat),
            forall|hops: Seq<RouteHop>| #[trigger]
                is_sure_route(hops, all_pools, token_in, token_out, amount_in, max_hops as nat)
                    ==> still_held(frontier@, completed@, hops),
            all_pools == graph.pools(),
            fan == all_pools.len(),
            frontier_ok(frontier@, all_pools, token_in, amount_in, max_hops as nat),
            completed@.len() <= top_n,
            routes_ok(completed@, all_pools, token_in, token_out, amount_in, max_hops as nat),
            untouched ==> frontier@.len() == 1 && frontier@[0].hops@.len() == 0 && seen@.len() == 0
                && completed@.len() == 0,
            promised(all_pools, token_in, token_out, amount_in, max_hops as nat, floor)
                ==> untouched || (completed@.len() == 0 && goal_pending(
                frontier@,
                token_out,
                floor,
            )) || pays_at_least(completed@, floor),
        decreases frontier_weight(frontier@, max_hops as nat, fan),
    {
        advance(
            graph,
            &mut frontier,
            &mut seen,
            &mut completed,
            token_in,
            token_out,
            amount_in,
            max_hops,
            Ghost(untouched),
            Ghost(floor),
        );
        proof {
            untouched = false;
        }
    }
    let ghost unsorted = completed@;
    let sorted = sort_routes(completed, false);
    proof {
        lemma_same_routes(unsorted, sorted@);
        if token_in != token_out && max_hops >= 1 && top_n >= 1 {
            if quoted {
                if frontier@.len() == 0 {
                    lemma_goal_needs_path(frontier@, token_out, floor);
                }
                lemma_head_pays(unsorted, sorted@, floor);
            }
            lemma_beats(sorted@, all_pools, token_in, token_out, amount_in@, floor);
        }
        if sorted@.len() != top_n {
            assert(frontier@ =~= Seq::<PathState>::empty());
            assert forall|hops: Seq<RouteHop>| #[trigger]
                is_sure_route(
                    hops,
                    all_pools,
                    token_in,
                    token_out,
                    amount_in,
                    max_hops as nat,
                ) implies has_route(sorted@, hops) by {
                lemma_held_end(unsorted, hops);
                let k = choose|k: int| 0 <= k < unsorted.len() && (#[trigger] unsorted[k]).hops@ == hops;
                assert(sorted@.contains(unsorted[k]));
                let at = choose|at: int| 0 <= at < sorted@.len() && sorted@[at] == unsorted[k];
                assert(sorted@[at].hops@ == hops);
            }
        }
        assert forall|k: int| 0 <= k < sorted@.len() implies is_route_along(
            #[trigger] sorted@[k],
            graph.pools(),
            token_in,
            token_out,
            amount_in,
        ) && sorted@[k].hops@.len() <= hop_limit(max_hops) by {
            assert(unsorted.contains(sorted@[k]));
            let u = choose|u: int| 0 <= u < unsorted.len() && unsorted[u] == sorted@[k];
            assert(unsorted[u] == sorted@[k]);
        }
    }
    sorted
}

/// The best route of `amount_in` from `token_in` to `token_out` that the
/// search of [`find_top_routes`] finds first.
///
/// The route is a simple path through pools of the graph with at most
/// `max_hops` hops, and never more than `MAX_HOPS`. The result is
/// `NoRouteFound` where the search finds no route. Where both tokens are
/// tokens of the graph and differ, and one hop is allowed, the route pays at
/// least as much as every direct quote between them; so there is a route
/// where a pool gives a direct quote. There is a route as well wherever there
/// is one that the search cannot lose.
pub fn find_best_multi_hop_route(
    graph: &PoolGraph,
    token_in: Address,
    token_out: Address,
    amount_in: U256,
    max_hops: usize,
) -> (r: Result<Route, RouterError>)
    ensures
        r is Ok ==> is_route_along(r->Ok_0, graph.pools(), token_in, token_out, amount_in)
            && r->Ok_0.hops@.len() <= hop_limit(max_hops),
        r is Err ==> r->Err_0.is_no_route(token_in, token_out),
        !(graph.has_token(token_in) && graph.has_token(token_out) && linked(
            pool_links(graph.pools()),
            token_in,
            token_out,
        )) ==> r is Err,
        graph.has_token(token_in) && graph.has_token(token_out) && token_in != token_out
            && max_hops >= 1 ==> pays_every_direct_quote(
            output_of(r),
            graph.pools(),
            token_in,
            token_out,
            amount_in@,
        ),
        has_sure_route(*graph, token_in, token_out, amount_in, max_hops) ==> r is Ok,
{
    let mut routes = find_top_routes(graph, token_in, token_out, amount_in, max_hops, 1);
    proof {
        if has_sure_route(*graph, token_in, token_out, amount_in, max_hops) && routes@.len() == 0 {
            let path = choose|path: Seq<RouteHop>| #[trigger]
                is_sure_route(
                    path,
                    graph.pools(),
                    token_in,
                    token_out,
                    amount_in,
                    hop_limit(max_hops),
                );
            assert(has_route(routes@, path));
        }
    }
    if routes.len() > 0 {
        Ok(routes.remove(0))
    } else {
        Err(RouterError::NoRouteFound { from: token_in, to: token_out })
    }
}

/// A pool that gives a direct quote of at least `floor` from `token_in` is
/// among the pools of `token_in`.
proof fn lemma_direct_pool_listed(
    pools: Seq<PoolEdge>,
    token_in: Address,
    token_out: Address,
    amount_in: nat,
    floor: nat,
) -> (j: int)
    requires
        quoted_at_least(pools, token_in, token_out, amount_in, floor),
    ensures
        0 <= j < pools_of(pools, token_in).len(),
        pools_of(pools, token_in)[j].spec_other_token(token_in) == Some(token_out),
        quote_from(pools_of(pools, token_in)[j], token_in, amount_in) is Some,
        quote_from(pools_of(pools, token_in)[j], token_in, amount_in)->0 >= floor,
{
    reveal(quoted_at_least);
    let i = choose|i: int|
        0 <= i < pools.len() && (#[trigger] direct_quote(pools[i], token_in, token_out, amount_in))
            is Some && direct_quote(pools[i], token_in, token_out, amount_in)->0 >= floor;
    let touches = |p: PoolEdge| crate::graph::pool_graph::pool_touches(p, token_in);
    assert(touches(pools[i]));
    pools.lemma_filter_contains(touches, i);
    assert(pools.filter(touches).contains(pools[i]));
    let j = choose|j: int|
        0 <= j < pools.filter(touches).len() && pools.filter(touches)[j] == pools[i];
    assert(pools_of(pools, token_in)[j] == pools[i]);
    j
}

/// The two ends of a route are linked.
proof fn lemma_route_links(
    pools: Seq<PoolEdge>,
    hops: Seq<RouteHop>,
    token_in: Address,
    token_out: Address,
    amount_in: U256,
)
    requires
        is_trail(pools, hops, token_in, amount_in),
        hops.len() >= 1,
        hops.last().token_out == token_out,
    ensures
        linked(pool_links(pools), token_in, token_out),
{
    let walk = trail_tokens(token_in, hops);
    assert forall|k: int| 0 <= k < walk.len() - 1 implies #[trigger] pool_links(pools).contains(
        (walk[k], walk[k + 1]),
    ) by {
        let hop = hops[k];
        assert(hop_priced(hop) && pools.contains(hop.pool));
        assert(walk[k] == hop.token_in) by {
            if k > 0 {
                assert(hops[k - 1].token_out == hops[k - 1 + 1].token_in);
            }
        }
        let i = choose|i: int| 0 <= i < pools.len() && pools[i] == hop.pool;
        crate::graph::pool_graph::lemma_pool_is_linked(pools, i);
    }
    assert(crate::graph::pool_graph::link_walk(pool_links(pools), walk));
    assert(walk[0] == token_in && walk.last() == token_out);
}

/// Two tokens that a pool joins are linked.
proof fn lemma_direct_pool_links(
    pools: Seq<PoolEdge>,
    token_in: Address,
    token_out: Address,
    amount_in: nat,
)
    requires
        has_direct_quote(pools, token_in, token_out, amount_in),
    ensures
        linked(pool_links(pools), token_in, token_out),
{
    let i = choose|i: int|
        0 <= i < pools.len() && #[trigger] direct_quote(pools[i], token_in, token_out, amount_in)
            is Some;
    crate::graph::pool_graph::lemma_pool_is_linked(pools, i);
    let walk = seq![token_in, token_out];
    assert(crate::graph::pool_graph::link_walk(pool_links(pools), walk)) by {
        assert forall|k: int| 0 <= k < walk.len() - 1 implies #[trigger] pool_links(pools).contains(
            (walk[k], walk[k + 1]),
        ) by {
            assert(k == 0);
        }
    }
    assert(walk[0] == token_in && walk.last() == token_out);
}

} // verus!
