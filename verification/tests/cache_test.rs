use routing_engine::cache::bucket::{bucket_amount, bucket_value};
use routing_engine::cache::{EnhancedRouteCache, LruCache, RouteCache};
use routing_engine::graph::PoolEdge;
use routing_engine::routing::{Quote, Route, RouteHop, SplitRoute};
use routing_engine::utils::{address_from_u64, U256};

fn u(n: u128) -> U256 {
    U256::from_u128(n)
}

fn test_route(out: u128) -> Route {
    let token_in = address_from_u64(1);
    let token_out = address_from_u64(2);
    let pool = PoolEdge::new([1u8; 32], token_in, token_out, 3000, 60, 1_000_000, u(1u128 << 96), 0);
    let hop = RouteHop::new(pool, token_in, token_out, u(1000), u(out));
    Route::new(vec![hop], u(1000), u(out), 100_000, 100_000)
}

#[test]
fn test_amount_bucketing() {
    assert_eq!(bucket_amount(u(0)), "0");
    assert_eq!(bucket_amount(u(5)), "5");
    assert_eq!(bucket_amount(u(99)), "99");
    assert_eq!(bucket_amount(u(123)), "120");
    assert_eq!(bucket_amount(u(1234)), "1200");
    assert_eq!(bucket_amount(u(98765)), "98000");
}

#[test]
fn test_route_cache_basic() {
    let mut cache = EnhancedRouteCache::new(10, 10, 60);

    let token_in = address_from_u64(1);
    let token_out = address_from_u64(2);
    let amount = u(1000);

    assert!(cache.get_route(token_in, token_out, amount, 2, 0).is_none());
}

#[test]
fn test_cache_hit_with_similar_amounts() {
    let mut cache = EnhancedRouteCache::new(10, 10, 60);

    let token_in = address_from_u64(1);
    let token_out = address_from_u64(2);

    let route = test_route(990);

    cache.insert_route(token_in, token_out, u(1234), 2, route.clone(), 0);

    let cached = cache.get_route(token_in, token_out, u(1250), 2, 0);
    assert!(cached.is_some());
}

#[test]
fn test_lru_basic() {
    let mut cache = LruCache::new(3, 60);

    cache.insert("a", 1, 0);
    cache.insert("b", 2, 0);
    cache.insert("c", 3, 0);

    assert_eq!(cache.get(&"a", 0), Some(1));
    assert_eq!(cache.get(&"b", 0), Some(2));
    assert_eq!(cache.get(&"c", 0), Some(3));
}

#[test]
fn test_lru_eviction() {
    let mut cache = LruCache::new(2, 60);

    cache.insert("a", 1, 0);
    cache.insert("b", 2, 0);
    cache.insert("c", 3, 0);

    assert_eq!(cache.get(&"a", 0), None);
    assert_eq!(cache.get(&"b", 0), Some(2));
    assert_eq!(cache.get(&"c", 0), Some(3));
}

#[test]
fn test_lru_access_order() {
    let mut cache = LruCache::new(2, 60);

    cache.insert("a", 1, 0);
    cache.insert("b", 2, 0);

    cache.get(&"a", 0);

    cache.insert("c", 3, 0);

    assert_eq!(cache.get(&"a", 0), Some(1));
    assert_eq!(cache.get(&"b", 0), None);
    assert_eq!(cache.get(&"c", 0), Some(3));
}

#[test]
fn test_ttl_expiration() {
    let mut cache = LruCache::new(10, 1);

    cache.insert("a", 1, 100);
    assert_eq!(cache.get(&"a", 100), Some(1));

    // Two seconds later the entry has outlived its one second.
    assert_eq!(cache.get(&"a", 102), None);
}

#[test]
fn test_cache_stats() {
    let mut cache = LruCache::new(10, 60);

    cache.insert("a", 1, 0);
    cache.insert("b", 2, 0);

    cache.get(&"a", 0);
    cache.get(&"a", 0);
    cache.get(&"b", 0);

    let stats = cache.stats();
    assert_eq!(stats.size, 2);
    assert_eq!(stats.max_size, 10);
    assert!(stats.total_accesses >= 3);
    assert_eq!(stats.total_accesses, 3);
}

#[test]
fn test_ttl_boundary_and_removal() {
    let mut cache = LruCache::new(10, 5);
    cache.insert(1u64, "one", 100);
    assert_eq!(cache.get(&1, 104), Some("one"));
    // At the age of the time to live the entry is gone, and stays gone.
    assert_eq!(cache.get(&1, 105), None);
    assert_eq!(cache.stats().size, 0);
    assert_eq!(cache.get(&1, 100), None);
    // A clock that went back does not age an entry.
    cache.insert(2u64, "two", 100);
    assert_eq!(cache.get(&2, 50), Some("two"));
    // With no time to live nothing is ever read.
    let mut none = LruCache::new(10, 0);
    none.insert(1u64, 1, 7);
    assert_eq!(none.get(&1, 7), None);
    assert_eq!(cache.ttl_seconds(), 5);
}

#[test]
fn test_insert_replaces_and_refreshes() {
    let mut cache = LruCache::new(2, 10);
    cache.insert("a", 1, 0);
    cache.insert("b", 2, 0);
    cache.get(&"a", 1);
    cache.get(&"a", 1);
    // Below the limit of two after making room, "a" is replaced: its reads
    // start again and it lives from now.
    cache.insert("a", 10, 8);
    assert_eq!(cache.stats().size, 1);
    assert_eq!(cache.stats().total_accesses, 0);
    assert_eq!(cache.get(&"b", 8), None);
    assert_eq!(cache.get(&"a", 17), Some(10));
    assert_eq!(cache.get(&"a", 18), None);
}

#[test]
fn test_eviction_follows_use_not_insertion() {
    let mut cache = LruCache::new(3, 60);
    cache.insert(1u64, 'a', 0);
    cache.insert(2u64, 'b', 0);
    cache.insert(3u64, 'c', 0);
    assert_eq!(cache.get(&1, 1), Some('a'));
    assert_eq!(cache.get(&2, 1), Some('b'));
    cache.insert(4u64, 'd', 2);
    assert_eq!(cache.get(&3, 2), None);
    cache.insert(5u64, 'e', 2);
    assert_eq!(cache.get(&1, 2), None);
    assert_eq!(cache.get(&2, 2), Some('b'));
    assert_eq!(cache.get(&4, 2), Some('d'));
    assert_eq!(cache.get(&5, 2), Some('e'));
    assert_eq!(cache.stats().size, 3);
}

#[test]
fn test_cache_of_size_zero_holds_one_entry() {
    let mut cache = LruCache::new(0, 60);
    cache.insert("a", 1, 0);
    assert_eq!(cache.stats().size, 1);
    cache.insert("b", 2, 0);
    assert_eq!(cache.stats().size, 1);
    assert_eq!(cache.get(&"a", 0), None);
    assert_eq!(cache.get(&"b", 0), Some(2));
}

#[test]
fn test_clear_expired_and_clear() {
    let mut cache = LruCache::new(10, 10);
    cache.insert("old", 1, 0);
    cache.insert("mid", 2, 5);
    cache.insert("new", 3, 9);
    cache.insert("mid2", 4, 5);
    cache.clear_expired(15);
    assert_eq!(cache.stats().size, 1);
    assert_eq!(cache.get(&"new", 15), Some(3));
    assert_eq!(cache.get(&"mid", 15), None);
    cache.insert("a", 1, 15);
    cache.insert("b", 2, 15);
    cache.clear_expired(16);
    assert_eq!(cache.stats().size, 3);
    // What is kept keeps its order of use: "new" is the oldest.
    let mut small = LruCache::new(3, 10);
    small.insert("x", 1, 0);
    small.insert("y", 2, 2);
    small.insert("z", 3, 3);
    small.clear_expired(10);
    small.insert("w", 4, 10);
    small.insert("v", 5, 10);
    assert_eq!(small.get(&"y", 10), None);
    assert_eq!(small.get(&"z", 10), Some(3));
    cache.clear();
    assert_eq!(cache.stats().size, 0);
    assert_eq!(cache.get(&"new", 16), None);
    assert_eq!(cache.stats().max_size, 10);
}

#[test]
fn test_bucket_values() {
    assert_eq!(bucket_value(u(0)), u(0));
    assert_eq!(bucket_value(u(100)), u(100));
    assert_eq!(bucket_value(u(109)), u(100));
    assert_eq!(bucket_value(u(999)), u(990));
    assert_eq!(bucket_value(u(1_000_000_000_000_000_000)), u(1_000_000_000_000_000_000));
    assert_eq!(bucket_value(u(1_234_567_890_123_456_789)), u(1_200_000_000_000_000_000));
    let max = U256 { w3: u64::MAX, w2: u64::MAX, w1: u64::MAX, w0: u64::MAX };
    assert_eq!(
        bucket_amount(max),
        "110000000000000000000000000000000000000000000000000000000000000000000000000000"
    );
    // The same first two digits and the same number of digits share a bucket.
    assert_eq!(bucket_value(u(1234)), bucket_value(u(1299)));
    assert_ne!(bucket_value(u(1234)), bucket_value(u(1300)));
    assert_ne!(bucket_value(u(1234)), bucket_value(u(12340)));
    assert_eq!(routing_engine::api::handlers::bucket_amount(u(98765)), "98000");
}

#[test]
fn test_enhanced_cache_keys() {
    let mut cache = EnhancedRouteCache::new(10, 10, 60);
    let a = address_from_u64(1);
    let b = address_from_u64(2);
    cache.insert_route(a, b, u(1234), 2, test_route(990), 0);
    assert_eq!(cache.get_route(a, b, u(1200), 2, 0).unwrap().total_amount_out, u(990));
    assert!(cache.get_route(a, b, u(1300), 2, 0).is_none());
    assert!(cache.get_route(a, b, u(12340), 2, 0).is_none());
    assert!(cache.get_route(a, b, u(1234), 3, 0).is_none());
    assert!(cache.get_route(b, a, u(1234), 2, 0).is_none());
    assert!(cache.get_route(a, b, u(1234), 2, 60).is_none());
    // The three caches are apart.
    assert!(cache.get_split_route(a, b, u(1234), 2, 0).is_none());
    assert!(cache.get_quote(a, b, u(1234), 50, 2, 0).is_none());
    cache.insert_split_route(a, b, u(1234), 2, SplitRoute::single(test_route(991)), 0);
    let quote = Quote::from_route(SplitRoute::single(test_route(992)), 50);
    cache.insert_quote(a, b, u(1234), 50, 2, quote, 0);
    assert_eq!(cache.get_split_route(a, b, u(1250), 2, 1).unwrap().total_amount_out, u(991));
    assert_eq!(cache.get_quote(a, b, u(1250), 50, 2, 1).unwrap().amount_out, "992");
    assert!(cache.get_quote(a, b, u(1250), 51, 2, 1).is_none());
    assert!(cache.get_route(a, b, u(1250), 2, 1).is_none());
    let stats = cache.stats();
    assert_eq!(stats.route_stats.size, 0);
    assert_eq!(stats.split_stats.size, 1);
    assert_eq!(stats.quote_stats.size, 1);
    assert_eq!(stats.route_stats.max_size, 10);
    assert_eq!(stats.split_stats.max_size, 5);
    assert_eq!(stats.quote_stats.max_size, 10);
    assert_eq!(stats.split_stats.total_accesses, 1);
    cache.clear_all();
    let stats = cache.stats();
    assert_eq!(stats.split_stats.size, 0);
    assert_eq!(stats.quote_stats.size, 0);
    assert_eq!(stats.split_stats.max_size, 5);
    let default = EnhancedRouteCache::default().stats();
    assert_eq!(default.route_stats.max_size, 1000);
    assert_eq!(default.split_stats.max_size, 500);
    assert_eq!(default.quote_stats.max_size, 2000);
}

#[test]
fn test_quote_cache_by_text() {
    let mut cache = RouteCache::new(15);
    let quote = Quote::from_route(SplitRoute::single(test_route(990)), 50);
    assert!(cache.get("k", 0).is_none());
    cache.set("k", &quote, 10);
    assert_eq!(cache.get("k", 10).unwrap().amount_out, "990");
    assert_eq!(cache.get("k", 24).unwrap().amount_out, "990");
    assert!(cache.get("other", 10).is_none());
    let newer = Quote::from_route(SplitRoute::single(test_route(980)), 50);
    cache.set("k", &newer, 20);
    assert_eq!(cache.get("k", 34).unwrap().amount_out, "980");
    assert!(cache.get("k", 35).is_none());
    assert!(cache.get("k", 20).is_none());
    cache.set("a", &quote, 0);
    cache.set("b", &quote, 0);
    cache.clear();
    assert!(cache.get("a", 0).is_none());
    let mut default = RouteCache::default();
    default.set("a", &quote, 0);
    assert!(default.get("a", 14).is_some());
    assert!(default.get("a", 15).is_none());
}

#[test]
fn test_quote_from_route() {
    let quote = Quote::from_route(SplitRoute::single(test_route(990)), 50);
    assert_eq!(quote.amount_in, "1000");
    assert_eq!(quote.amount_out, "990");
    // 990 * (10000 - 50) / 10000, rounded down
    assert_eq!(quote.amount_out_min, "985");
    assert_eq!(quote.price_impact, 100_000);
    assert_eq!(quote.gas_estimate, 100_000);
    // 100000 gas at 0.01 gwei and 3000 dollars an ether: 0.003 dollars.
    assert_eq!(quote.gas_estimate_usd, 3_000_000);
    assert_eq!(
        quote.route_string,
        "0x0000000000000000000000000000000000000001 → 0x0000000000000000000000000000000000000002"
    );
    assert_eq!(quote.route.routes.len(), 1);
    let copy = quote.clone();
    assert_eq!(copy.amount_out_min, "985");
    assert_eq!(copy.route.routes[0].1, 100);
    let empty = Quote::from_route(SplitRoute::new(Vec::new(), u(5), u(4), 0, u64::MAX), 0);
    assert_eq!(empty.route_string, "");
    assert_eq!(empty.amount_out_min, "4");
    assert_eq!(empty.gas_estimate_usd, u64::MAX);
}
