//! Settings of the pool synchroniser.

use vstd::prelude::*;
use crate::graph::edge::PoolEdge;
use crate::graph::node::TokenNode;
use crate::graph::pool_graph::{with_pool, with_token, PoolGraph};
use crate::utils::addresses::{usdc, weth};
use crate::utils::tick::{sqrt_price_at_tick, tick_to_sqrt_price_x96};

verus! {

/// How the pool data is fetched and how often.
#[derive(Debug)]
pub struct SyncConfig {
    /// The endpoint of the chain.
    pub rpc_url: String,
    /// The endpoint from which pools are discovered, if any.
    pub subgraph_url: Option<String>,
    /// The seconds between two refreshes.
    pub refresh_interval_secs: u64,
    /// The seconds for which a fetched pool state is kept.
    pub cache_ttl_secs: u64,
}

impl Clone for SyncConfig {
    fn clone(&self) -> (c: SyncConfig)
        ensures
            c.rpc_url == self.rpc_url,
            c.subgraph_url is Some == self.subgraph_url is Some,
            c.refresh_interval_secs == self.refresh_interval_secs,
            c.cache_ttl_secs == self.cache_ttl_secs,
    {
        SyncConfig {
            rpc_url: self.rpc_url.clone(),
            subgraph_url: match &self.subgraph_url {
                Some(url) => Some(url.clone()),
                None => None,
            },
            refresh_interval_secs: self.refresh_interval_secs,
            cache_ttl_secs: self.cache_ttl_secs,
        }
    }
}

impl Default for SyncConfig {
    /// A refresh every twelve seconds, about one block, from Base mainnet,
    /// kept for thirty seconds, without pool discovery.
    fn default() -> (c: SyncConfig)
        ensures
            c.rpc_url@ == "https://mainnet.base.org"@,
            c.subgraph_url is None,
            c.refresh_interval_secs == 12,
            c.cache_ttl_secs == 30,
    {
        SyncConfig {
            rpc_url: "https://mainnet.base.org".to_owned(),
            subgraph_url: None,
            refresh_interval_secs: 12,
            cache_ttl_secs: 30,
        }
    }
}

/// The numbers of one of the pools that stand for Base mainnet.
pub struct PoolFigures {
    /// The byte that fills the identifier of the pool.
    pub id_byte: u8,
    pub token0: nat,
    pub token1: nat,
    pub fee: u32,
    pub tick_spacing: i32,
    pub liquidity: u128,
    pub tick: i32,
}

/// The address of wrapped ether on Base.
pub open spec fn weth_number() -> nat {
    0x4200_0000_0000_0000_0000_0000_0000_0000_0000_0006nat
}

/// The address of USD Coin on Base.
pub open spec fn usdc_number() -> nat {
    0x8335_89fc_d6ed_b6e0_8f4c_7c32_d4f7_1b54_bda0_2913nat
}

/// The pools that stand for Base mainnet, in the order of their installation:
/// wrapped ether against USD Coin at 0.3% and at 0.05%, wrapped ether against
/// DAI, USD Coin against DAI, wrapped ether against wrapped bitcoin, staked
/// ether against wrapped ether, and wrapped bitcoin against USD Coin. DAI,
/// wrapped bitcoin and staked ether have the addresses 3, 4 and 5.
pub open spec fn mainnet_figures(i: int) -> PoolFigures {
    if i == 0 {
        PoolFigures {
            id_byte: 1,
            token0: weth_number(),
            token1: usdc_number(),
            fee: 3000,
            tick_spacing: 60,
            liquidity: 50_000_000_000_000_000_000_000,
            tick: 201240,
        }
    } else if i == 1 {
        PoolFigures {
            id_byte: 2,
            token0: weth_number(),
            token1: usdc_number(),
            fee: 500,
            tick_spacing: 10,
            liquidity: 30_000_000_000_000_000_000_000,
            tick: 201240,
        }
    } else if i == 2 {
        PoolFigures {
            id_byte: 3,
            token0: weth_number(),
            token1: 3,
            fee: 3000,
            tick_spacing: 60,
            liquidity: 20_000_000_000_000_000_000_000,
            tick: 0,
        }
    } else if i == 3 {
        PoolFigures {
            id_byte: 4,
            token0: usdc_number(),
            token1: 3,
            fee: 100,
            tick_spacing: 1,
            liquidity: 100_000_000_000_000_000_000_000,
            tick: 276324,
        }
    } else if i == 4 {
        PoolFigures {
            id_byte: 5,
            token0: weth_number(),
            token1: 4,
            fee: 3000,
            tick_spacing: 60,
            liquidity: 10_000_000_000_000_000_000_000,
            tick: 0,
        }
    } else if i == 5 {
        PoolFigures {
            id_byte: 6,
            token0: 5,
            token1: weth_number(),
            fee: 500,
            tick_spacing: 10,
            liquidity: 15_000_000_000_000_000_000_000,
            tick: 100,
        }
    } else {
        PoolFigures {
            id_byte: 7,
            token0: 4,
            token1: usdc_number(),
            fee: 3000,
            tick_spacing: 60,
            liquidity: 8_000_000_000_000_000_000_000,
            tick: 0,
        }
    }
}

/// Whether `pool` has the numbers `figures`: an identifier of 32 equal bytes,
/// the price of its tick, and no hook.
pub open spec fn has_figures(pool: PoolEdge, figures: PoolFigures) -> bool {
    &&& pool.pool_id@ =~= Seq::new(32, |k: int| figures.id_byte)
    &&& pool.token0@ == figures.token0
    &&& pool.token1@ == figures.token1
    &&& pool.fee == figures.fee
    &&& pool.tick_spacing == figures.tick_spacing
    &&& pool.liquidity == figures.liquidity
    &&& pool.sqrt_price_x96@ == sqrt_price_at_tick(figures.tick as int)
    &&& pool.tick == figures.tick
    &&& pool.hook_address@ == 0
}

/// One pool to install, with the nodes of its two tokens.
pub struct PoolListing {
    pub pool: PoolEdge,
    pub token0: TokenNode,
    pub token1: TokenNode,
}

/// The tokens of a graph after `listings` are installed in their order.
pub open spec fn tokens_after(tokens: Seq<TokenNode>, listings: Seq<PoolListing>) -> Seq<TokenNode>
    decreases listings.len(),
{
    if listings.len() == 0 {
        tokens
    } else {
        with_token(
            with_token(tokens_after(tokens, listings.drop_last()), listings.last().token0),
            listings.last().token1,
        )
    }
}

/// The pools of a graph after `listings` are installed in their order.
pub open spec fn pools_after(pools: Seq<PoolEdge>, listings: Seq<PoolListing>) -> Seq<PoolEdge>
    decreases listings.len(),
{
    if listings.len() == 0 {
        pools
    } else {
        with_pool(pools_after(pools, listings.drop_last()), listings.last().pool)
    }
}

/// Whether `listings` are the seven pools that stand for Base mainnet, each
/// with the nodes of its own two tokens.
pub open spec fn are_mainnet_listings(listings: Seq<PoolListing>) -> bool {
    &&& listings.len() == 7
    &&& forall|i: int|
        0 <= i < 7 ==> has_figures((#[trigger] listings[i]).pool, mainnet_figures(i))
            && listings[i].token0.address == listings[i].pool.token0 && listings[i].token1.address
            == listings[i].pool.token1
}

fn listing(
    id_byte: u8,
    token0: &TokenNode,
    token1: &TokenNode,
    fee: u32,
    tick_spacing: i32,
    liquidity: u128,
    tick: i32,
) -> (l: PoolListing)
    ensures
        has_figures(
            l.pool,
            PoolFigures {
                id_byte,
                token0: token0.address@,
                token1: token1.address@,
                fee,
                tick_spacing,
                liquidity,
                tick,
            },
        ),
        l.token0 == *token0,
        l.token1 == *token1,
{
    let pool = PoolEdge::new(
        [id_byte;32],
        token0.address,
        token1.address,
        fee,
        tick_spacing,
        liquidity,
        tick_to_sqrt_price_x96(tick),
        tick,
    );
    PoolListing { pool, token0: token0.clone(), token1: token1.clone() }
}

/// The seven pools that stand for Base mainnet where no chain is read, with
/// the nodes of their tokens.
#[verifier::rlimit(50)]
pub fn base_mainnet_pools() -> (r: Vec<PoolListing>)
    ensures
        are_mainnet_listings(r@),
{
    let weth_node = TokenNode::native(weth(), "WETH".to_owned(), 18);
    let usdc_node = TokenNode::new(usdc(), "USDC".to_owned(), 6);
    let dai = TokenNode::new(crate::utils::address_from_u64(3), "DAI".to_owned(), 18);
    let wbtc = TokenNode::new(crate::utils::address_from_u64(4), "WBTC".to_owned(), 8);
    let cbeth = TokenNode::new(crate::utils::address_from_u64(5), "cbETH".to_owned(), 18);
    let mut listings: Vec<PoolListing> = Vec::new();
    listings.push(
        listing(1, &weth_node, &usdc_node, 3000, 60, 50_000_000_000_000_000_000_000, 201240),
    );
    listings.push(
        listing(2, &weth_node, &usdc_node, 500, 10, 30_000_000_000_000_000_000_000, 201240),
    );
    listings.push(listing(3, &weth_node, &dai, 3000, 60, 20_000_000_000_000_000_000_000, 0));
    listings.push(listing(4, &usdc_node, &dai, 100, 1, 100_000_000_000_000_000_000_000, 276324));
    listings.push(listing(5, &weth_node, &wbtc, 3000, 60, 10_000_000_000_000_000_000_000, 0));
    listings.push(listing(6, &cbeth, &weth_node, 500, 10, 15_000_000_000_000_000_000_000, 100));
    listings.push(listing(7, &wbtc, &usdc_node, 3000, 60, 8_000_000_000_000_000_000_000, 0));
    proof {
        assert(has_figures(listings@[0].pool, mainnet_figures(0)));
        assert(has_figures(listings@[1].pool, mainnet_figures(1)));
        assert(has_figures(listings@[2].pool, mainnet_figures(2)));
        assert(has_figures(listings@[3].pool, mainnet_figures(3)));
        assert(has_figures(listings@[4].pool, mainnet_figures(4)));
        assert(has_figures(listings@[5].pool, mainnet_figures(5)));
        assert(has_figures(listings@[6].pool, mainnet_figures(6)));
    }
    listings
}

/// Installs `listings` in `graph` in their order at the time `now`.
#[verifier::rlimit(50)]
pub fn install_pools(graph: &mut PoolGraph, listings: Vec<PoolListing>, now: u64)
    ensures
        final(graph).tokens() == tokens_after(old(graph).tokens(), listings@),
        final(graph).pools() == pools_after(old(graph).pools(), listings@),
        final(graph).last_update() == if listings@.len() > 0 && now > old(graph).last_update() {
            now
        } else {
            old(graph).last_update()
        },
{
    let ghost original = listings@;
    let ghost tokens_before = graph.tokens();
    let ghost pools_before = graph.pools();
    let ghost update_before = graph.last_update();
    let mut rest = listings;
    let mut i: usize = 0;
    proof {
        assert(original.take(0) =~= Seq::<PoolListing>::empty());
    }
    while i < rest.len()
        invariant
            i <= rest@.len(),
            rest@.len() == original.len(),
            forall|j: int| i <= j < rest@.len() ==> rest@[j] == original[j],
            graph.tokens() == tokens_after(tokens_before, original.take(i as int)),
            graph.pools() == pools_after(pools_before, original.take(i as int)),
            graph.last_update() == if i > 0 && now > update_before {
                now
            } else {
                update_before
            },
        decreases rest@.len() - i,
    {
        let entry = PoolListing {
            pool: rest[i].pool,
            token0: rest[i].token0.clone(),
            token1: rest[i].token1.clone(),
        };
        proof {
            let upto = original.take(i + 1);
            assert(upto.drop_last() =~= original.take(i as int));
            assert(upto.last() == original[i as int]);
        }
        graph.upsert_pool(entry.pool, entry.token0, entry.token1, now);
        i = i + 1;
    }
    proof {
        assert(original.take(i as int) =~= original);
    }
}

/// Fills a pool graph with pools.
pub struct PoolSyncer {
    config: SyncConfig,
}

impl PoolSyncer {
    /// The configuration of the synchroniser.
    pub closed spec fn spec_config(&self) -> SyncConfig {
        self.config
    }

    /// A synchroniser with the default configuration.
    pub fn new() -> (s: PoolSyncer)
        ensures
            s.spec_config().refresh_interval_secs == 12,
            s.spec_config().cache_ttl_secs == 30,
            s.spec_config().subgraph_url is None,
    {
        PoolSyncer { config: SyncConfig::default() }
    }

    /// A synchroniser with the configuration `config`.
    pub fn with_config(config: SyncConfig) -> (s: PoolSyncer)
        ensures
            s.spec_config() == config,
    {
        PoolSyncer { config }
    }

    /// The seconds between two refreshes.
    pub fn refresh_interval_secs(&self) -> (secs: u64)
        ensures
            secs == self.spec_config().refresh_interval_secs,
    {
        self.config.refresh_interval_secs
    }

    /// Brings `graph` up to date at the time `now`: installs the pools that
    /// stand for Base mainnet.
    pub fn sync_pools(&self, graph: &mut PoolGraph, now: u64) -> (r: Result<(), String>)
        ensures
            r is Ok,
            exists|listings: Seq<PoolListing>|
                #[trigger] are_mainnet_listings(listings) && final(graph).tokens() == tokens_after(
                    old(graph).tokens(),
                    listings,
                ) && final(graph).pools() == pools_after(old(graph).pools(), listings),
    {
        self.add_base_mainnet_pools(graph, now);
        Ok(())
    }

    /// Installs the pools that stand for Base mainnet in `graph`.
    pub fn add_base_mainnet_pools(&self, graph: &mut PoolGraph, now: u64)
        ensures
            exists|listings: Seq<PoolListing>|
                #[trigger] are_mainnet_listings(listings) && final(graph).tokens() == tokens_after(
                    old(graph).tokens(),
                    listings,
                ) && final(graph).pools() == pools_after(old(graph).pools(), listings),
    {
        let listings = base_mainnet_pools();
        let ghost installed = listings@;
        install_pools(graph, listings, now);
        proof {
            assert(are_mainnet_listings(installed));
        }
    }
}

} // verus!
