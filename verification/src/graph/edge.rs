//! Pools, the edges of the pool graph.

use vstd::prelude::*;
use crate::utils::address::Address;
use crate::utils::uint::U256;

verus! {

/// One concentrated-liquidity pool between two tokens.
#[derive(Clone, Copy, Debug)]
pub struct PoolEdge {
    /// The 32-byte identifier of the pool.
    pub pool_id: [u8; 32],
    pub token0: Address,
    pub token1: Address,
    /// The fee in millionths of the input.
    pub fee: u32,
    pub tick_spacing: i32,
    /// The liquidity that is active at the current price.
    pub liquidity: u128,
    /// The current square-root price in Q64.96.
    pub sqrt_price_x96: U256,
    /// The tick of the current price.
    pub tick: i32,
    /// The hook contract of the pool; the zero address where it has none.
    pub hook_address: Address,
}

impl PoolEdge {
    /// A pool without a hook.
    pub fn new(
        pool_id: [u8; 32],
        token0: Address,
        token1: Address,
        fee: u32,
        tick_spacing: i32,
        liquidity: u128,
        sqrt_price_x96: U256,
        tick: i32,
    ) -> (p: PoolEdge)
        ensures
            p == (PoolEdge {
                pool_id,
                token0,
                token1,
                fee,
                tick_spacing,
                liquidity,
                sqrt_price_x96,
                tick,
                hook_address: Address { hi: 0, mid: 0, lo: 0 },
            }),
    {
        PoolEdge {
            pool_id,
            token0,
            token1,
            fee,
            tick_spacing,
            liquidity,
            sqrt_price_x96,
            tick,
            hook_address: Address::zero(),
        }
    }

    /// A pool with the hook contract at `hook_address`.
    pub fn with_hook(
        pool_id: [u8; 32],
        token0: Address,
        token1: Address,
        fee: u32,
        tick_spacing: i32,
        liquidity: u128,
        sqrt_price_x96: U256,
        tick: i32,
        hook_address: Address,
    ) -> (p: PoolEdge)
        ensures
            p == (PoolEdge {
                pool_id,
                token0,
                token1,
                fee,
                tick_spacing,
                liquidity,
                sqrt_price_x96,
                tick,
                hook_address,
            }),
    {
        PoolEdge {
            pool_id,
            token0,
            token1,
            fee,
            tick_spacing,
            liquidity,
            sqrt_price_x96,
            tick,
            hook_address,
        }
    }

    /// The token on the other side of the pool from `token`.
    pub open spec fn spec_other_token(&self, token: Address) -> Option<Address> {
        if token == self.token0 {
            Some(self.token1)
        } else if token == self.token1 {
            Some(self.token0)
        } else {
            None
        }
    }

    /// The token on the other side of the pool from `token`, or `None` where
    /// `token` is not in the pool.
    pub fn other_token(&self, token: Address) -> (r: Option<Address>)
        ensures
            r == self.spec_other_token(token),
    {
        if token == self.token0 {
            Some(self.token1)
        } else if token == self.token1 {
            Some(self.token0)
        } else {
            None
        }
    }

    /// Whether `token` is one of the pool's two tokens.
    pub fn contains_token(&self, token: Address) -> (r: bool)
        ensures
            r == (self.token0 == token || self.token1 == token),
    {
        self.token0 == token || self.token1 == token
    }

    /// The direction of a swap that pays in `token_in`: `true` where it is
    /// token0, so that the price falls.
    pub open spec fn spec_zero_for_one(&self, token_in: Address) -> Option<bool> {
        if token_in == self.token0 {
            Some(true)
        } else if token_in == self.token1 {
            Some(false)
        } else {
            None
        }
    }

    /// The direction of a swap that pays in `token_in`, or `None` where
    /// `token_in` is not in the pool.
    pub fn zero_for_one(&self, token_in: Address) -> (r: Option<bool>)
        ensures
            r == self.spec_zero_for_one(token_in),
    {
        if token_in == self.token0 {
            Some(true)
        } else if token_in == self.token1 {
            Some(false)
        } else {
            None
        }
    }

    /// Whether the pool has a hook contract.
    pub fn has_hook(&self) -> (r: bool)
        ensures
            r == (self.hook_address@ != 0),
    {
        !self.hook_address.is_zero()
    }
}

/// Whether two pool identifiers hold the same bytes.
pub fn pool_id_eq(a: &[u8; 32], b: &[u8; 32]) -> (r: bool)
    ensures
        r == (a@ == b@),
{
    let mut i: usize = 0;
    while i < 32
        invariant
            i <= 32,
            forall|j: int| 0 <= j < i ==> a@[j] == b@[j],
        decreases 32 - i,
    {
        if a[i] != b[i] {
            return false;
        }
        i = i + 1;
    }
    assert(a@ =~= b@);
    true
}

/// Whether identifier `a` comes before `b`, byte by byte.
pub open spec fn pool_id_before(a: Seq<u8>, b: Seq<u8>) -> bool
    decreases a.len(),
{
    if a.len() == 0 || b.len() == 0 {
        a.len() < b.len()
    } else if a[0] != b[0] {
        a[0] < b[0]
    } else {
        pool_id_before(a.skip(1), b.skip(1))
    }
}

/// Of two different identifiers of one length, one comes before the other.
pub proof fn lemma_pool_id_before_total(a: Seq<u8>, b: Seq<u8>)
    requires
        a.len() == b.len(),
        !pool_id_before(a, b),
        !pool_id_before(b, a),
    ensures
        a == b,
    decreases a.len(),
{
    if a.len() > 0 {
        lemma_pool_id_before_total(a.skip(1), b.skip(1));
        assert forall|i: int| 0 <= i < a.len() implies a[i] == b[i] by {
            if i > 0 {
                assert(a.skip(1)[i - 1] == b.skip(1)[i - 1]);
            }
        }
    }
    assert(a =~= b);
}

/// The order of identifiers is transitive.
pub proof fn lemma_pool_id_before_transitive(a: Seq<u8>, b: Seq<u8>, c: Seq<u8>)
    requires
        pool_id_before(a, b),
        pool_id_before(b, c),
    ensures
        pool_id_before(a, c),
    decreases a.len(),
{
    if a.len() > 0 && b.len() > 0 && c.len() > 0 {
        if a[0] == b[0] && b[0] == c[0] {
            lemma_pool_id_before_transitive(a.skip(1), b.skip(1), c.skip(1));
        }
    }
}

/// Of two identifiers, at most one comes before the other.
pub proof fn lemma_pool_id_before_asymmetric(a: Seq<u8>, b: Seq<u8>)
    ensures
        !(pool_id_before(a, b) && pool_id_before(b, a)),
    decreases a.len(),
{
    if a.len() > 0 && b.len() > 0 && a[0] == b[0] {
        lemma_pool_id_before_asymmetric(a.skip(1), b.skip(1));
    }
}

/// No identifier comes before itself.
pub proof fn lemma_pool_id_before_irreflexive(a: Seq<u8>)
    ensures
        !pool_id_before(a, a),
    decreases a.len(),
{
    if a.len() > 0 {
        lemma_pool_id_before_irreflexive(a.skip(1));
    }
}

/// Whether identifier `a` comes before `b`, byte by byte.
pub fn pool_id_lt(a: &[u8; 32], b: &[u8; 32]) -> (r: bool)
    ensures
        r == pool_id_before(a@, b@),
{
    let mut i: usize = 0;
    proof {
        assert(a@.skip(0) =~= a@);
        assert(b@.skip(0) =~= b@);
    }
    while i < 32
        invariant
            i <= 32,
            pool_id_before(a@, b@) == pool_id_before(a@.skip(i as int), b@.skip(i as int)),
        decreases 32 - i,
    {
        proof {
            assert(a@.skip(i as int)[0] == a@[i as int]);
            assert(b@.skip(i as int)[0] == b@[i as int]);
            assert(a@.skip(i as int).skip(1) =~= a@.skip(i + 1));
            assert(b@.skip(i as int).skip(1) =~= b@.skip(i + 1));
        }
        if a[i] != b[i] {
            return a[i] < b[i];
        }
        i = i + 1;
    }
    false
}

} // verus!
