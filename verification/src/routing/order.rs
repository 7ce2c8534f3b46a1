//! The ranking of routes, and sorting by it.

use vstd::prelude::*;
use vstd::multiset::Multiset;
use crate::graph::edge::{
    lemma_pool_id_before_asymmetric, lemma_pool_id_before_irreflexive,
    lemma_pool_id_before_total, lemma_pool_id_before_transitive, pool_id_before, pool_id_lt,
};
use crate::routing::route::{Route, RouteHop};

verus! {

/// Whether the pool identifiers along `a` come before those along `b`, pool
/// by pool.
pub open spec fn ids_before(a: Seq<RouteHop>, b: Seq<RouteHop>) -> bool
    decreases a.len(),
{
    if a.len() == 0 || b.len() == 0 {
        a.len() < b.len()
    } else if pool_id_before(a[0].pool.pool_id@, b[0].pool.pool_id@) {
        true
    } else if pool_id_before(b[0].pool.pool_id@, a[0].pool.pool_id@) {
        false
    } else {
        ids_before(a.skip(1), b.skip(1))
    }
}

/// Whether route `a` ranks before route `b`.
///
/// More output ranks first. Among equal outputs the lower gas estimate ranks
/// first where `by_gas` is set, the fewer hops where it is not; after that the
/// pool identifiers along the routes decide.
pub open spec fn route_before(a: Route, b: Route, by_gas: bool) -> bool {
    let (key_a, key_b) = if by_gas {
        (a.gas_estimate as nat, b.gas_estimate as nat)
    } else {
        (a.hops@.len(), b.hops@.len())
    };
    a.total_amount_out@ > b.total_amount_out@ || (a.total_amount_out@ == b.total_amount_out@ && (
    key_a < key_b || (key_a == key_b && ids_before(a.hops@, b.hops@))))
}

/// The order of the pool identifiers along routes is transitive.
pub proof fn lemma_ids_before_transitive(a: Seq<RouteHop>, b: Seq<RouteHop>, c: Seq<RouteHop>)
    requires
        ids_before(a, b),
        ids_before(b, c),
    ensures
        ids_before(a, c),
    decreases a.len(),
{
    if a.len() > 0 && b.len() > 0 && c.len() > 0 {
        let x = a[0].pool.pool_id@;
        let y = b[0].pool.pool_id@;
        let z = c[0].pool.pool_id@;
        lemma_pool_id_before_asymmetric(x, y);
        lemma_pool_id_before_asymmetric(y, z);
        lemma_pool_id_before_asymmetric(x, z);
        if pool_id_before(x, y) && pool_id_before(y, z) {
            lemma_pool_id_before_transitive(x, y, z);
        } else if pool_id_before(x, y) {
            lemma_pool_id_before_total(y, z);
        } else if pool_id_before(y, z) {
            lemma_pool_id_before_total(x, y);
        } else {
            lemma_pool_id_before_total(x, y);
            lemma_pool_id_before_total(y, z);
            lemma_pool_id_before_irreflexive(x);
            lemma_ids_before_transitive(a.skip(1), b.skip(1), c.skip(1));
        }
    }
}

/// Of two routes, the pool identifiers along at most one come before those
/// along the other.
pub proof fn lemma_ids_before_asymmetric(a: Seq<RouteHop>, b: Seq<RouteHop>)
    ensures
        !(ids_before(a, b) && ids_before(b, a)),
    decreases a.len(),
{
    if a.len() > 0 && b.len() > 0 {
        lemma_pool_id_before_asymmetric(a[0].pool.pool_id@, b[0].pool.pool_id@);
        lemma_ids_before_asymmetric(a.skip(1), b.skip(1));
    }
}

/// The ranking of routes is transitive.
pub proof fn lemma_route_before_transitive(a: Route, b: Route, c: Route, by_gas: bool)
    requires
        route_before(a, b, by_gas),
        route_before(b, c, by_gas),
    ensures
        route_before(a, c, by_gas),
{
    if a.total_amount_out@ == b.total_amount_out@ && b.total_amount_out@ == c.total_amount_out@ {
        let (ka, kb, kc) = if by_gas {
            (a.gas_estimate as nat, b.gas_estimate as nat, c.gas_estimate as nat)
        } else {
            (a.hops@.len(), b.hops@.len(), c.hops@.len())
        };
        if ka == kb && kb == kc {
            lemma_ids_before_transitive(a.hops@, b.hops@, c.hops@);
        }
    }
}

/// Of two routes, at most one ranks before the other.
pub proof fn lemma_route_before_asymmetric(a: Route, b: Route, by_gas: bool)
    ensures
        !(route_before(a, b, by_gas) && route_before(b, a, by_gas)),
{
    lemma_ids_before_asymmetric(a.hops@, b.hops@);
}

/// Whether `routes` are in the order of their ranks: no route ranks before
/// one that stands before it.
pub open spec fn in_rank_order(routes: Seq<Route>, by_gas: bool) -> bool {
    forall|i: int, j: int|
        0 <= i < j < routes.len() ==> !route_before(
            #[trigger] routes[j],
            #[trigger] routes[i],
            by_gas,
        )
}

/// Whether the pool identifiers along `a` come before those along `b`.
pub fn hops_before(a: &Vec<RouteHop>, b: &Vec<RouteHop>) -> (r: bool)
    ensures
        r == ids_before(a@, b@),
{
    let mut i: usize = 0;
    proof {
        assert(a@.skip(0) =~= a@);
        assert(b@.skip(0) =~= b@);
    }
    while i < a.len() && i < b.len()
        invariant
            i <= a@.len(),
            i <= b@.len(),
            ids_before(a@, b@) == ids_before(a@.skip(i as int), b@.skip(i as int)),
        decreases a@.len() - i,
    {
        proof {
            assert(a@.skip(i as int)[0] == a@[i as int]);
            assert(b@.skip(i as int)[0] == b@[i as int]);
            assert(a@.skip(i as int).skip(1) =~= a@.skip(i + 1));
            assert(b@.skip(i as int).skip(1) =~= b@.skip(i + 1));
        }
        if pool_id_lt(&a[i].pool.pool_id, &b[i].pool.pool_id) {
            return true;
        }
        if pool_id_lt(&b[i].pool.pool_id, &a[i].pool.pool_id) {
            return false;
        }
        i = i + 1;
    }
    a.len() < b.len()
}

/// Whether route `a` ranks before route `b`, see [`route_before`].
pub fn ranks_before(a: &Route, b: &Route, by_gas: bool) -> (r: bool)
    ensures
        r == route_before(*a, *b, by_gas),
{
    if b.total_amount_out.lt(&a.total_amount_out) {
        return true;
    }
    if a.total_amount_out.lt(&b.total_amount_out) {
        return false;
    }
    if by_gas {
        if a.gas_estimate != b.gas_estimate {
            return a.gas_estimate < b.gas_estimate;
        }
    } else {
        if a.hops.len() != b.hops.len() {
            return a.hops.len() < b.hops.len();
        }
    }
    hops_before(&a.hops, &b.hops)
}

/// Whether the outputs of `routes` never rise from one route to the next.
pub open spec fn outputs_descend(routes: Seq<Route>) -> bool {
    forall|i: int, j: int|
        0 <= i < j < routes.len() ==> (#[trigger] routes[i]).total_amount_out@ >= (
        #[trigger] routes[j]).total_amount_out@
}

/// Sorts routes by descending output; routes of one output are placed by
/// [`route_before`].
///
/// The result holds the same routes, each as often as before, and none of
/// them ranks before one that stands before it.
#[verifier::rlimit(50)]
pub fn sort_routes(routes: Vec<Route>, by_gas: bool) -> (sorted: Vec<Route>)
    ensures
        outputs_descend(sorted@),
        in_rank_order(sorted@, by_gas),
        sorted@.to_multiset() == routes@.to_multiset(),
        sorted@.len() == routes@.len(),
{
    broadcast use vstd::seq_lib::group_to_multiset_ensures;

    let ghost original = routes@;
    let mut rest = routes;
    let mut sorted: Vec<Route> = Vec::new();
    while rest.len() > 0
        invariant
            outputs_descend(sorted@),
            in_rank_order(sorted@, by_gas),
            sorted@.to_multiset().add(rest@.to_multiset()) == original.to_multiset(),
            sorted@.len() + rest@.len() == original.len(),
        decreases rest@.len(),
    {
        let ghost before_pop = rest@;
        let ghost sorted_before = sorted@;
        let route = rest.pop().unwrap();
        proof {
            assert(before_pop =~= rest@.push(route));
            vstd::seq_lib::to_multiset_build(rest@, route);
        }
        let mut at: usize = 0;
        while at < sorted.len() && !ranks_before(&route, &sorted[at], by_gas)
            invariant
                at <= sorted@.len(),
                forall|k: int|
                    0 <= k < at ==> (#[trigger] sorted@[k]).total_amount_out@
                        >= route.total_amount_out@,
                forall|k: int| 0 <= k < at ==> !route_before(route, #[trigger] sorted@[k], by_gas),
            decreases sorted@.len() - at,
        {
            at = at + 1;
        }
        let ghost before_insert = sorted@;
        sorted.insert(at, route);
        proof {
            vstd::seq_lib::to_multiset_insert(before_insert, at as int, route);
            assert(sorted@.to_multiset().add(rest@.to_multiset()) =~= before_insert.to_multiset().add(
                before_pop.to_multiset(),
            ));
            assert forall|i: int, j: int| 0 <= i < j < sorted@.len() implies (
            #[trigger] sorted@[i]).total_amount_out@ >= (#[trigger] sorted@[j]).total_amount_out@ by {
                let a = if i < at {
                    before_insert[i]
                } else if i == at {
                    route
                } else {
                    before_insert[i - 1]
                };
                let b = if j < at {
                    before_insert[j]
                } else if j == at {
                    route
                } else {
                    before_insert[j - 1]
                };
                assert(sorted@[i] == a);
                assert(sorted@[j] == b);
                if at < before_insert.len() {
                    assert(before_insert[at as int].total_amount_out@
                        <= route.total_amount_out@);
                }
            }
            assert forall|i: int, j: int| 0 <= i < j < sorted@.len() implies !route_before(
                #[trigger] sorted@[j],
                #[trigger] sorted@[i],
                by_gas,
            ) by {
                if i == at {
                    assert(sorted@[j] == before_insert[j - 1]);
                    lemma_route_before_asymmetric(route, before_insert[at as int], by_gas);
                    if route_before(before_insert[j - 1], route, by_gas) {
                        lemma_route_before_transitive(
                            before_insert[j - 1],
                            route,
                            before_insert[at as int],
                            by_gas,
                        );
                    }
                } else if j == at {
                    assert(sorted@[i] == before_insert[i]);
                } else {
                    let x = if i < at { i } else { i - 1 };
                    let y = if j < at { j } else { j - 1 };
                    assert(sorted@[i] == before_insert[x] && sorted@[j] == before_insert[y]);
                }
            }
        }
    }
    proof {
        assert(rest@ =~= Seq::<Route>::empty());
        assert(rest@.to_multiset() =~= Multiset::<Route>::empty());
        assert(sorted@.to_multiset().add(Multiset::<Route>::empty()) =~= sorted@.to_multiset());
    }
    sorted
}

/// Two lists with the same routes, each as often: every route of one is in
/// the other.
pub proof fn lemma_same_routes(before: Seq<Route>, after: Seq<Route>)
    requires
        after.to_multiset() == before.to_multiset(),
    ensures
        forall|k: int| 0 <= k < after.len() ==> before.contains(#[trigger] after[k]),
        forall|j: int| 0 <= j < before.len() ==> after.contains(#[trigger] before[j]),
{
    broadcast use vstd::seq_lib::group_to_multiset_ensures;

    assert forall|k: int| 0 <= k < after.len() implies before.contains(#[trigger] after[k]) by {
        assert(after.contains(after[k]));
        assert(before.to_multiset().count(after[k]) > 0);
    }
    assert forall|j: int| 0 <= j < before.len() implies after.contains(#[trigger] before[j]) by {
        assert(before.contains(before[j]));
        assert(after.to_multiset().count(before[j]) > 0);
    }
}

/// Between two routes of one hop, the pool identifiers along them compare as
/// the identifiers of the two pools.
pub proof fn lemma_single_hop_ids(a: Seq<RouteHop>, b: Seq<RouteHop>)
    requires
        a.len() == 1,
        b.len() == 1,
    ensures
        ids_before(a, b) == pool_id_before(a[0].pool.pool_id@, b[0].pool.pool_id@),
{
    reveal_with_fuel(ids_before, 2);
    crate::graph::edge::lemma_pool_id_before_asymmetric(a[0].pool.pool_id@, b[0].pool.pool_id@);
}

} // verus!
