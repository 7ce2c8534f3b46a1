//! The state that the handlers of the service share.

use vstd::prelude::*;
use crate::cache::route_cache::RouteCache;
use crate::config::settings::Settings;
use crate::graph::pool_graph::PoolGraph;
use crate::routing::router::Router;

verus! {

/// The router with its graph, the cache of answered quotes, and the settings.
pub struct AppState {
    pub router: Router,
    pub cache: RouteCache,
    pub settings: Settings,
}

impl AppState {
    /// A state with an empty graph, empty caches and the given settings.
    pub fn new(settings: Settings) -> (s: AppState)
        ensures
            s.settings == settings,
            s.router.spec_graph().tokens().len() == 0,
            s.router.spec_graph().pools().len() == 0,
            s.cache.entries().len() == 0,
            s.cache.ttl() == 15,
    {
        AppState {
            router: Router::new(PoolGraph::new()),
            cache: RouteCache::default(),
            settings,
        }
    }
}

} // verus!
