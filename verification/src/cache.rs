//! Caches of routes and quotes.

pub mod bucket;
pub mod enhanced_route_cache;
pub mod keys;
pub mod lru_cache;
pub mod route_cache;

pub use enhanced_route_cache::{CacheStatistics, EnhancedRouteCache};
pub use lru_cache::{CacheStats, LruCache};
pub use route_cache::RouteCache;
