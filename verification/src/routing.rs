//! Routes and the searches that find them.

pub mod laws;
pub mod multi_hop;
pub mod order;
pub mod parallel;
pub mod pathfinder;
pub mod quote;
pub mod route;
pub mod router;
pub mod single_hop;
pub mod split;

pub use multi_hop::{find_best_multi_hop_route, find_top_routes};
pub use parallel::{
    batch_find_routes, find_best_route_parallel, find_routes_parallel, simulate_amounts_parallel,
};
pub use quote::Quote;
pub use route::{Route, RouteHop, SplitRoute};
pub use router::{Router, RouterConfig};
pub use single_hop::{find_all_single_hop_routes, find_best_single_hop_route};
pub use split::optimize_split_route;
