//! The keys of the route and quote caches.

use vstd::prelude::*;
use vstd::laws_eq::obeys_concrete_eq;
use vstd::std_specs::cmp::PartialEqSpecImpl;
use crate::utils::address::Address;
use crate::utils::uint::U256;

verus! {

/// The key of a cached route: the two tokens, the bucket of the amount and
/// the hop limit.
#[derive(Clone, Copy, Debug)]
pub struct RouteKey {
    pub token_in: Address,
    pub token_out: Address,
    pub amount_bucket: U256,
    pub max_hops: usize,
}

impl PartialEq for RouteKey {
    fn eq(&self, other: &RouteKey) -> (r: bool) {
        self.token_in == other.token_in && self.token_out == other.token_out
            && self.amount_bucket == other.amount_bucket && self.max_hops == other.max_hops
    }
}

impl PartialEqSpecImpl for RouteKey {
    open spec fn obeys_eq_spec() -> bool {
        true
    }

    open spec fn eq_spec(&self, other: &RouteKey) -> bool {
        self.token_in == other.token_in && self.token_out == other.token_out
            && self.amount_bucket == other.amount_bucket && self.max_hops == other.max_hops
    }
}

/// Two route keys are equal to `==` exactly where they are the same value.
pub proof fn lemma_route_key_eq()
    ensures
        obeys_concrete_eq::<RouteKey>(),
{
    reveal(obeys_concrete_eq);
}

/// The key of a cached quote: the key of a route and the slippage in basis
/// points.
#[derive(Clone, Copy, Debug)]
pub struct QuoteKey {
    pub token_in: Address,
    pub token_out: Address,
    pub amount_bucket: U256,
    pub slippage_bps: u32,
    pub max_hops: usize,
}

impl PartialEq for QuoteKey {
    fn eq(&self, other: &QuoteKey) -> (r: bool) {
        self.token_in == other.token_in && self.token_out == other.token_out
            && self.amount_bucket == other.amount_bucket && self.slippage_bps
            == other.slippage_bps && self.max_hops == other.max_hops
    }
}

impl PartialEqSpecImpl for QuoteKey {
    open spec fn obeys_eq_spec() -> bool {
        true
    }

    open spec fn eq_spec(&self, other: &QuoteKey) -> bool {
        self.token_in == other.token_in && self.token_out == other.token_out
            && self.amount_bucket == other.amount_bucket && self.slippage_bps
            == other.slippage_bps && self.max_hops == other.max_hops
    }
}

/// Two quote keys are equal to `==` exactly where they are the same value.
pub proof fn lemma_quote_key_eq()
    ensures
        obeys_concrete_eq::<QuoteKey>(),
{
    reveal(obeys_concrete_eq);
}

} // verus!
