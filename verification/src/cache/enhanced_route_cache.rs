//! The caches of the router: routes, split routes and quotes, by bucketed
//! amount.

use vstd::prelude::*;
use crate::cache::bucket::{bucket_of, bucket_value};
use crate::cache::keys::{lemma_quote_key_eq, lemma_route_key_eq, QuoteKey, RouteKey};
use crate::cache::lru_cache::{
    distinct_keys, reads, total_reads, written, CacheEntry, CacheStats, LruCache,
};
use crate::routing::quote::Quote;
use crate::routing::route::{Route, SplitRoute};
use crate::utils::address::Address;
use crate::utils::uint::U256;

verus! {

/// The statistics of the three caches.
#[derive(Clone, Copy, Debug)]
pub struct CacheStatistics {
    pub route_stats: CacheStats,
    pub split_stats: CacheStats,
    pub quote_stats: CacheStats,
}

/// The key under which a route for `amount` is cached: the amount counts by
/// its bucket only.
pub open spec fn route_key(
    token_in: Address,
    token_out: Address,
    amount: U256,
    max_hops: usize,
) -> RouteKey {
    RouteKey {
        token_in,
        token_out,
        amount_bucket: bucket_limbs(amount),
        max_hops,
    }
}

/// The bucket of `amount` as a 256-bit integer.
pub open spec fn bucket_limbs(amount: U256) -> U256 {
    choose|b: U256| b@ == bucket_of(amount@)
}

/// The key under which a quote for `amount` is cached.
pub open spec fn quote_key(
    token_in: Address,
    token_out: Address,
    amount: U256,
    slippage_bps: u32,
    max_hops: usize,
) -> QuoteKey {
    QuoteKey {
        token_in,
        token_out,
        amount_bucket: bucket_limbs(amount),
        slippage_bps,
        max_hops,
    }
}

fn make_route_key(token_in: Address, token_out: Address, amount: U256, max_hops: usize) -> (k:
    RouteKey)
    ensures
        k == route_key(token_in, token_out, amount, max_hops),
{
    let bucket = bucket_value(amount);
    proof {
        crate::utils::uint::lemma_view_injective(bucket, bucket_limbs(amount));
    }
    RouteKey { token_in, token_out, amount_bucket: bucket, max_hops }
}

fn make_quote_key(
    token_in: Address,
    token_out: Address,
    amount: U256,
    slippage_bps: u32,
    max_hops: usize,
) -> (k: QuoteKey)
    ensures
        k == quote_key(token_in, token_out, amount, slippage_bps, max_hops),
{
    let bucket = bucket_value(amount);
    proof {
        crate::utils::uint::lemma_view_injective(bucket, bucket_limbs(amount));
    }
    QuoteKey { token_in, token_out, amount_bucket: bucket, slippage_bps, max_hops }
}

/// Amounts of one bucket have one route key.
pub proof fn lemma_bucket_shares_key(
    token_in: Address,
    token_out: Address,
    a: U256,
    b: U256,
    max_hops: usize,
)
    requires
        bucket_of(a@) == bucket_of(b@),
    ensures
        route_key(token_in, token_out, a, max_hops) == route_key(token_in, token_out, b, max_hops),
{
}

/// Three caches with one time to live: routes, split routes and quotes.
pub struct EnhancedRouteCache {
    route_cache: LruCache<RouteKey, Route>,
    split_cache: LruCache<RouteKey, SplitRoute>,
    quote_cache: LruCache<QuoteKey, Quote>,
}

impl EnhancedRouteCache {
    /// The entries of the route cache, the least recently used first.
    pub closed spec fn routes(&self) -> Seq<CacheEntry<RouteKey, Route>> {
        self.route_cache.entries()
    }

    /// The entries of the split-route cache, the least recently used first.
    pub closed spec fn splits(&self) -> Seq<CacheEntry<RouteKey, SplitRoute>> {
        self.split_cache.entries()
    }

    /// The entries of the quote cache, the least recently used first.
    pub closed spec fn quotes(&self) -> Seq<CacheEntry<QuoteKey, Quote>> {
        self.quote_cache.entries()
    }

    /// The size at which the route cache makes room.
    pub closed spec fn max_routes(&self) -> usize {
        self.route_cache.max_size()
    }

    /// The size at which the split-route cache makes room.
    pub closed spec fn max_splits(&self) -> usize {
        self.split_cache.max_size()
    }

    /// The size at which the quote cache makes room.
    pub closed spec fn max_quotes(&self) -> usize {
        self.quote_cache.max_size()
    }

    /// The seconds for which an entry lives.
    pub closed spec fn ttl(&self) -> u64 {
        self.route_cache.ttl()
    }

    /// Whether the sizes and the time to live of the caches are the same as
    /// those of `other`.
    pub open spec fn same_limits(&self, other: &EnhancedRouteCache) -> bool {
        &&& self.max_routes() == other.max_routes()
        &&& self.max_splits() == other.max_splits()
        &&& self.max_quotes() == other.max_quotes()
        &&& self.ttl() == other.ttl()
    }

    #[verifier::type_invariant]
    spec fn one_ttl(self) -> bool {
        self.split_cache.ttl() == self.route_cache.ttl() && self.quote_cache.ttl()
            == self.route_cache.ttl()
    }

    /// Empty caches: at most `max_routes` routes, half as many split routes
    /// and `max_quotes` quotes, each living for `ttl_seconds` seconds.
    pub fn new(max_routes: usize, max_quotes: usize, ttl_seconds: u64) -> (c: EnhancedRouteCache)
        ensures
            c.routes().len() == 0,
            c.splits().len() == 0,
            c.quotes().len() == 0,
            c.max_routes() == max_routes,
            c.max_splits() == max_routes / 2,
            c.max_quotes() == max_quotes,
            c.ttl() == ttl_seconds,
    {
        EnhancedRouteCache {
            route_cache: LruCache::new(max_routes, ttl_seconds),
            split_cache: LruCache::new(max_routes / 2, ttl_seconds),
            quote_cache: LruCache::new(max_quotes, ttl_seconds),
        }
    }

    /// No key occurs twice in any of the three caches.
    pub fn distinct(&self)
        ensures
            distinct_keys(self.routes()),
            distinct_keys(self.splits()),
            distinct_keys(self.quotes()),
    {
        self.route_cache.distinct();
        self.split_cache.distinct();
        self.quote_cache.distinct();
    }

    /// Reads the route cached for the bucket of `amount` at the time `now`.
    pub fn get_route(
        &mut self,
        token_in: Address,
        token_out: Address,
        amount: U256,
        max_hops: usize,
        now: u64,
    ) -> (r: Option<Route>)
        ensures
            reads(
                old(self).routes(),
                old(self).ttl(),
                route_key(token_in, token_out, amount, max_hops),
                now,
                final(self).routes(),
                r,
            ),
            final(self).splits() == old(self).splits(),
            final(self).quotes() == old(self).quotes(),
            final(self).same_limits(old(self)),
    {
        proof {
            use_type_invariant(&*self);
            lemma_route_key_eq();
        }
        let key = make_route_key(token_in, token_out, amount, max_hops);
        let mut cache: LruCache<RouteKey, Route> = LruCache::new(0, self.ttl_seconds());
        core::mem::swap(&mut self.route_cache, &mut cache);
        let found = cache.get(&key, now);
        core::mem::swap(&mut self.route_cache, &mut cache);
        found
    }

    /// Caches `route` for the bucket of `amount` at the time `now`.
    pub fn insert_route(
        &mut self,
        token_in: Address,
        token_out: Address,
        amount: U256,
        max_hops: usize,
        route: Route,
        now: u64,
    )
        ensures
            final(self).routes() == written(
                old(self).routes(),
                old(self).max_routes(),
                route_key(token_in, token_out, amount, max_hops),
                route,
                now,
            ),
            final(self).splits() == old(self).splits(),
            final(self).quotes() == old(self).quotes(),
            final(self).same_limits(old(self)),
    {
        proof {
            use_type_invariant(&*self);
            lemma_route_key_eq();
        }
        let key = make_route_key(token_in, token_out, amount, max_hops);
        let mut cache: LruCache<RouteKey, Route> = LruCache::new(0, self.ttl_seconds());
        core::mem::swap(&mut self.route_cache, &mut cache);
        cache.insert(key, route, now);
        core::mem::swap(&mut self.route_cache, &mut cache);
    }

    /// Reads the split route cached for the bucket of `amount` at the time
    /// `now`.
    pub fn get_split_route(
        &mut self,
        token_in: Address,
        token_out: Address,
        amount: U256,
        max_hops: usize,
        now: u64,
    ) -> (r: Option<SplitRoute>)
        ensures
            reads(
                old(self).splits(),
                old(self).ttl(),
                route_key(token_in, token_out, amount, max_hops),
                now,
                final(self).splits(),
                r,
            ),
            final(self).routes() == old(self).routes(),
            final(self).quotes() == old(self).quotes(),
            final(self).same_limits(old(self)),
    {
        proof {
            use_type_invariant(&*self);
            lemma_route_key_eq();
        }
        let key = make_route_key(token_in, token_out, amount, max_hops);
        let mut cache: LruCache<RouteKey, SplitRoute> = LruCache::new(0, self.ttl_seconds());
        core::mem::swap(&mut self.split_cache, &mut cache);
        let found = cache.get(&key, now);
        core::mem::swap(&mut self.split_cache, &mut cache);
        found
    }

    /// Caches `split_route` for the bucket of `amount` at the time `now`.
    pub fn insert_split_route(
        &mut self,
        token_in: Address,
        token_out: Address,
        amount: U256,
        max_hops: usize,
        split_route: SplitRoute,
        now: u64,
    )
        ensures
            final(self).splits() == written(
                old(self).splits(),
                old(self).max_splits(),
                route_key(token_in, token_out, amount, max_hops),
                split_route,
                now,
            ),
            final(self).routes() == old(self).routes(),
            final(self).quotes() == old(self).quotes(),
            final(self).same_limits(old(self)),
    {
        proof {
            use_type_invariant(&*self);
            lemma_route_key_eq();
        }
        let key = make_route_key(token_in, token_out, amount, max_hops);
        let mut cache: LruCache<RouteKey, SplitRoute> = LruCache::new(0, self.ttl_seconds());
        core::mem::swap(&mut self.split_cache, &mut cache);
        cache.insert(key, split_route, now);
        core::mem::swap(&mut self.split_cache, &mut cache);
    }

    /// Reads the quote cached for the bucket of `amount` and the slippage at
    /// the time `now`.
    pub fn get_quote(
        &mut self,
        token_in: Address,
        token_out: Address,
        amount: U256,
        slippage_bps: u32,
        max_hops: usize,
        now: u64,
    ) -> (r: Option<Quote>)
        ensures
            reads(
                old(self).quotes(),
                old(self).ttl(),
                quote_key(token_in, token_out, amount, slippage_bps, max_hops),
                now,
                final(self).quotes(),
                r,
            ),
            final(self).routes() == old(self).routes(),
            final(self).splits() == old(self).splits(),
            final(self).same_limits(old(self)),
    {
        proof {
            use_type_invariant(&*self);
            lemma_quote_key_eq();
        }
        let key = make_quote_key(token_in, token_out, amount, slippage_bps, max_hops);
        let mut cache: LruCache<QuoteKey, Quote> = LruCache::new(0, self.ttl_seconds());
        core::mem::swap(&mut self.quote_cache, &mut cache);
        let found = cache.get(&key, now);
        core::mem::swap(&mut self.quote_cache, &mut cache);
        found
    }

    /// Caches `quote` for the bucket of `amount` and the slippage at the time
    /// `now`.
    pub fn insert_quote(
        &mut self,
        token_in: Address,
        token_out: Address,
        amount: U256,
        slippage_bps: u32,
        max_hops: usize,
        quote: Quote,
        now: u64,
    )
        ensures
            final(self).quotes() == written(
                old(self).quotes(),
                old(self).max_quotes(),
                quote_key(token_in, token_out, amount, slippage_bps, max_hops),
                quote,
                now,
            ),
            final(self).routes() == old(self).routes(),
            final(self).splits() == old(self).splits(),
            final(self).same_limits(old(self)),
    {
        proof {
            use_type_invariant(&*self);
            lemma_quote_key_eq();
        }
        let key = make_quote_key(token_in, token_out, amount, slippage_bps, max_hops);
        let mut cache: LruCache<QuoteKey, Quote> = LruCache::new(0, self.ttl_seconds());
        core::mem::swap(&mut self.quote_cache, &mut cache);
        cache.insert(key, quote, now);
        core::mem::swap(&mut self.quote_cache, &mut cache);
    }

    /// Empties the three caches.
    pub fn clear_all(&mut self)
        ensures
            final(self).routes().len() == 0,
            final(self).splits().len() == 0,
            final(self).quotes().len() == 0,
            final(self).same_limits(old(self)),
    {
        proof {
            use_type_invariant(&*self);
        }
        let ttl = self.ttl_seconds();
        let routes = self.route_cache.stats().max_size;
        let splits = self.split_cache.stats().max_size;
        let quotes = self.quote_cache.stats().max_size;
        let mut route_cache: LruCache<RouteKey, Route> = LruCache::new(routes, ttl);
        let mut split_cache: LruCache<RouteKey, SplitRoute> = LruCache::new(splits, ttl);
        let mut quote_cache: LruCache<QuoteKey, Quote> = LruCache::new(quotes, ttl);
        core::mem::swap(&mut self.route_cache, &mut route_cache);
        core::mem::swap(&mut self.split_cache, &mut split_cache);
        core::mem::swap(&mut self.quote_cache, &mut quote_cache);
    }

    /// The statistics of the three caches.
    pub fn stats(&self) -> (s: CacheStatistics)
        ensures
            s.route_stats.size == self.routes().len(),
            s.route_stats.max_size == self.max_routes(),
            s.route_stats.total_accesses == total_reads(self.routes()),
            s.split_stats.size == self.splits().len(),
            s.split_stats.max_size == self.max_splits(),
            s.split_stats.total_accesses == total_reads(self.splits()),
            s.quote_stats.size == self.quotes().len(),
            s.quote_stats.max_size == self.max_quotes(),
            s.quote_stats.total_accesses == total_reads(self.quotes()),
    {
        CacheStatistics {
            route_stats: self.route_cache.stats(),
            split_stats: self.split_cache.stats(),
            quote_stats: self.quote_cache.stats(),
        }
    }

    fn ttl_seconds(&self) -> (ttl: u64)
        ensures
            ttl == self.ttl(),
    {
        self.route_cache.ttl_seconds()
    }
}

impl Default for EnhancedRouteCache {
    /// A thousand routes, two thousand quotes, fifteen seconds to live.
    fn default() -> (c: EnhancedRouteCache)
        ensures
            c.routes().len() == 0,
            c.splits().len() == 0,
            c.quotes().len() == 0,
            c.max_routes() == 1000,
            c.max_splits() == 500,
            c.max_quotes() == 2000,
            c.ttl() == 15,
    {
        EnhancedRouteCache::new(1000, 2000, 15)
    }
}

} // verus!
