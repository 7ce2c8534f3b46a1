//! Settings of the service.

use vstd::prelude::*;

verus! {

/// Where the service listens.
#[derive(Debug)]
pub struct ServerSettings {
    pub host: String,
    pub port: u16,
}

/// The chain the service reads.
#[derive(Debug)]
pub struct ChainSettings {
    pub chain_id: u64,
    pub rpc_url: String,
    pub pool_manager: String,
}

/// The limits of a route search.
#[derive(Debug)]
pub struct RoutingSettings {
    pub max_hops: usize,
    pub max_splits: usize,
}

/// All settings of the service.
#[derive(Debug)]
pub struct Settings {
    pub server: ServerSettings,
    pub chain: ChainSettings,
    pub routing: RoutingSettings,
}

/// The settings used where nothing else is configured: port 3001 on every
/// interface, Base mainnet, four hops and three splits.
pub open spec fn default_settings(s: Settings) -> bool {
    &&& s.server.host@ == "0.0.0.0"@
    &&& s.server.port == 3001
    &&& s.chain.chain_id == 8453
    &&& s.chain.rpc_url@ == "https://mainnet.base.org"@
    &&& s.chain.pool_manager@ == "0x91B9463d0e4d99BB2D922cba2C9D4cd13c9a7C05"@
    &&& s.routing.max_hops == 4
    &&& s.routing.max_splits == 3
}

impl Clone for ServerSettings {
    fn clone(&self) -> (s: ServerSettings)
        ensures
            s == *self,
    {
        ServerSettings { host: self.host.clone(), port: self.port }
    }
}

impl Clone for ChainSettings {
    fn clone(&self) -> (s: ChainSettings)
        ensures
            s == *self,
    {
        ChainSettings {
            chain_id: self.chain_id,
            rpc_url: self.rpc_url.clone(),
            pool_manager: self.pool_manager.clone(),
        }
    }
}

impl Clone for RoutingSettings {
    fn clone(&self) -> (s: RoutingSettings)
        ensures
            s == *self,
    {
        RoutingSettings { max_hops: self.max_hops, max_splits: self.max_splits }
    }
}

impl Clone for Settings {
    fn clone(&self) -> (s: Settings)
        ensures
            s == *self,
    {
        Settings {
            server: self.server.clone(),
            chain: self.chain.clone(),
            routing: self.routing.clone(),
        }
    }
}

impl Default for Settings {
    fn default() -> (s: Settings)
        ensures
            default_settings(s),
    {
        Settings {
            server: ServerSettings { host: "0.0.0.0".to_owned(), port: 3001 },
            chain: ChainSettings {
                chain_id: 8453,
                rpc_url: "https://mainnet.base.org".to_owned(),
                pool_manager: "0x91B9463d0e4d99BB2D922cba2C9D4cd13c9a7C05".to_owned(),
            },
            routing: RoutingSettings { max_hops: 4, max_splits: 3 },
        }
    }
}

impl Settings {
    /// The settings of the service: the defaults.
    pub fn load() -> (s: Settings)
        ensures
            default_settings(s),
    {
        Settings::default()
    }
}

} // verus!
