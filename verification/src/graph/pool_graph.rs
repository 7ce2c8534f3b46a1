//! The pool graph: tokens, pools, and the questions the searches ask of them.
//!
//! Tokens and pools are kept in two arenas in the order in which they were
//! installed. A pool joins its two tokens in both directions, so the graph has
//! two opposing edges for every pool. No token address and no pool identifier
//! occurs twice.
//!
//! Beside the arenas the graph keeps a directed graph of node numbers, which
//! answers reachability. Its nodes are the addresses that pools join, numbered
//! in the order in which they first occurred, and its edges are those of the
//! pools in their order. Two indexes lead from an address to its place among
//! the tokens and to its node number.

use vstd::prelude::*;
use crate::graph::edge::{pool_id_eq, PoolEdge};
use crate::graph::index::{index_entries, index_new, indexes, place_behind, place_of};
use crate::graph::node::TokenNode;
use crate::graph::topology::{
    index_linked, index_walk, topology_add_edge, topology_add_node, topology_clear_edges,
    topology_has_path, topology_links, topology_new, topology_size,
};
use crate::utils::address::Address;

verus! {

/// Whether `token` is one of the two tokens of `pool`.
pub open spec fn pool_touches(pool: PoolEdge, token: Address) -> bool {
    pool.token0 == token || pool.token1 == token
}

/// The pools of `pools` that `token` is in, in their order.
pub open spec fn pools_of(pools: Seq<PoolEdge>, token: Address) -> Seq<PoolEdge> {
    pools.filter(|p: PoolEdge| pool_touches(p, token))
}

/// The directed edges of the graph: for every pool, one from token0 to token1
/// and one back.
pub open spec fn pool_links(pools: Seq<PoolEdge>) -> Seq<(Address, Address)>
    decreases pools.len(),
{
    if pools.len() == 0 {
        Seq::empty()
    } else {
        pool_links(pools.drop_last()).push((pools.last().token0, pools.last().token1)).push(
            (pools.last().token1, pools.last().token0),
        )
    }
}

/// Whether `walk` is a walk along `links`: at least one token, and an edge
/// from each token to the next.
pub open spec fn link_walk(links: Seq<(Address, Address)>, walk: Seq<Address>) -> bool {
    &&& walk.len() >= 1
    &&& forall|k: int|
        0 <= k < walk.len() - 1 ==> #[trigger] links.contains((walk[k], walk[k + 1]))
}

/// Whether a walk along `links` leads from `from` to `to`. A token is linked
/// to itself.
pub open spec fn linked(links: Seq<(Address, Address)>, from: Address, to: Address) -> bool {
    exists|walk: Seq<Address>|
        #[trigger] link_walk(links, walk) && walk[0] == from && walk.last() == to
}

/// Each pool of `pools` links its two tokens in both directions.
#[verifier::rlimit(50)]
pub proof fn lemma_pool_is_linked(pools: Seq<PoolEdge>, at: int)
    requires
        0 <= at < pools.len(),
    ensures
        pool_links(pools).contains((pools[at].token0, pools[at].token1)),
        pool_links(pools).contains((pools[at].token1, pools[at].token0)),
    decreases pools.len(),
{
    let links = pool_links(pools);
    let last = pools.last();
    if at == pools.len() - 1 {
        assert(links[links.len() - 2] == (last.token0, last.token1));
        assert(links[links.len() - 1] == (last.token1, last.token0));
    } else {
        lemma_pool_is_linked(pools.drop_last(), at);
        let shorter = pool_links(pools.drop_last());
        let forth = (pools[at].token0, pools[at].token1);
        let back = (pools[at].token1, pools[at].token0);
        let i = choose|i: int| 0 <= i < shorter.len() && shorter[i] == forth;
        assert(links[i] == forth);
        let j = choose|j: int| 0 <= j < shorter.len() && shorter[j] == back;
        assert(links[j] == back);
    }
}

/// Counts of what the graph holds, and when it last changed.
#[derive(Clone, Copy, Debug)]
pub struct GraphStats {
    pub token_count: usize,
    pub pool_count: usize,
    pub last_update: u64,
}

/// The graph of tokens and pools.
pub struct PoolGraph {
    tokens: Vec<TokenNode>,
    pools: Vec<PoolEdge>,
    token_index: dashmap::DashMap<(u32, u64, u64), usize, std::hash::RandomState>,
    vertices: Vec<Address>,
    vertex_index: dashmap::DashMap<(u32, u64, u64), usize, std::hash::RandomState>,
    topology: petgraph::graph::Graph<(), (), petgraph::Directed, usize>,
    last_update: u64,
}

/// The position of the token with `address` in `tokens`, if it is there.
pub open spec fn token_position(tokens: Seq<TokenNode>, address: Address) -> Option<int> {
    if exists|i: int| 0 <= i < tokens.len() && tokens[i].address == address {
        Some(choose|i: int| 0 <= i < tokens.len() && tokens[i].address == address)
    } else {
        None
    }
}

/// The position of the pool with the identifier `id` in `pools`, if it is
/// there.
pub open spec fn pool_position(pools: Seq<PoolEdge>, id: Seq<u8>) -> Option<int> {
    if exists|i: int| 0 <= i < pools.len() && pools[i].pool_id@ == id {
        Some(choose|i: int| 0 <= i < pools.len() && pools[i].pool_id@ == id)
    } else {
        None
    }
}

/// `tokens` with `token` added at the end, unless its address is there.
pub open spec fn with_token(tokens: Seq<TokenNode>, token: TokenNode) -> Seq<TokenNode> {
    if token_position(tokens, token.address) is Some {
        tokens
    } else {
        tokens.push(token)
    }
}

/// `pools` with `pool` in the place of the pool of the same identifier, or at
/// the end where there is none.
pub open spec fn with_pool(pools: Seq<PoolEdge>, pool: PoolEdge) -> Seq<PoolEdge> {
    match pool_position(pools, pool.pool_id@) {
        Some(i) => pools.update(i, pool),
        None => pools.push(pool),
    }
}

/// Whether no token address occurs twice.
pub open spec fn distinct_tokens(tokens: Seq<TokenNode>) -> bool {
    forall|i: int, j: int|
        0 <= i < j < tokens.len() ==> (#[trigger] tokens[i]).address != (#[trigger] tokens[j]).address
}

/// Whether no pool identifier occurs twice.
pub open spec fn distinct_pools(pools: Seq<PoolEdge>) -> bool {
    forall|i: int, j: int|
        0 <= i < j < pools.len() ==> (#[trigger] pools[i]).pool_id@ != (#[trigger] pools[j]).pool_id@
}

/// A pool that is installed is in the graph in both directions at once: it is
/// among the pools, both its directed edges are among the edges, and it is
/// among the pools of each of its tokens. No other pool changes, and the number
/// of pools grows by one only where the identifier is new.
pub proof fn lemma_installed_pool_is_linked(pools: Seq<PoolEdge>, pool: PoolEdge)
    ensures
        with_pool(pools, pool).contains(pool),
        pool_links(with_pool(pools, pool)).contains((pool.token0, pool.token1)),
        pool_links(with_pool(pools, pool)).contains((pool.token1, pool.token0)),
        pools_of(with_pool(pools, pool), pool.token0).contains(pool),
        pools_of(with_pool(pools, pool), pool.token1).contains(pool),
        with_pool(pools, pool).len() == if pool_position(pools, pool.pool_id@) is Some {
            pools.len()
        } else {
            pools.len() + 1
        },
{
    let after = with_pool(pools, pool);
    let at = match pool_position(pools, pool.pool_id@) {
        Some(i) => i,
        None => pools.len() as int,
    };
    assert(after[at] == pool);
    lemma_pool_is_linked(after, at);
    after.lemma_filter_contains(|p: PoolEdge| pool_touches(p, pool.token0), at);
    after.lemma_filter_contains(|p: PoolEdge| pool_touches(p, pool.token1), at);
}

/// The addresses of `tokens`, in their order.
spec fn token_addresses(tokens: Seq<TokenNode>) -> Seq<Address> {
    Seq::new(tokens.len(), |i: int| tokens[i].address)
}

fn find_token(
    tokens: &Vec<TokenNode>,
    index: &dashmap::DashMap<(u32, u64, u64), usize, std::hash::RandomState>,
    address: Address,
) -> (r: Option<usize>)
    requires
        indexes(index_entries(*index), token_addresses(tokens@)),
    ensures
        r is Some == token_position(tokens@, address) is Some,
        r is Some ==> r->0 < tokens@.len() && tokens@[r->0 as int].address == address,
{
    let r = place_of(index, address, Ghost(token_addresses(tokens@)));
    proof {
        let addresses = token_addresses(tokens@);
        if token_position(tokens@, address) is Some {
            let i = choose|i: int| 0 <= i < tokens@.len() && tokens@[i].address == address;
            assert(addresses[i] == address);
        }
        if addresses.contains(address) {
            let i = choose|i: int| 0 <= i < addresses.len() && addresses[i] == address;
            assert(tokens@[i].address == address);
        }
    }
    r
}

fn find_pool(pools: &Vec<PoolEdge>, pool_id: &[u8; 32]) -> (r: Option<usize>)
    requires
        distinct_pools(pools@),
    ensures
        r is Some == pool_position(pools@, pool_id@) is Some,
        r is Some ==> Some(r->0 as int) == pool_position(pools@, pool_id@),
        r is Some ==> r->0 < pools@.len() && pools@[r->0 as int].pool_id@ == pool_id@,
{
    let mut i: usize = 0;
    while i < pools.len()
        invariant
            i <= pools@.len(),
            forall|j: int| 0 <= j < i ==> pools@[j].pool_id@ != pool_id@,
            distinct_pools(pools@),
        decreases pools@.len() - i,
    {
        if pool_id_eq(&pools[i].pool_id, pool_id) {
            proof {
                let c = choose|k: int| 0 <= k < pools@.len() && pools@[k].pool_id@ == pool_id@;
                if c > i {
                    assert(pools@[i as int].pool_id@ != pools@[c].pool_id@);
                }
            }
            return Some(i);
        }
        i = i + 1;
    }
    None
}

fn install_token(
    tokens: &mut Vec<TokenNode>,
    index: &mut dashmap::DashMap<(u32, u64, u64), usize, std::hash::RandomState>,
    token: TokenNode,
)
    requires
        distinct_tokens(old(tokens)@),
        indexes(index_entries(*old(index)), token_addresses(old(tokens)@)),
    ensures
        final(tokens)@ == with_token(old(tokens)@, token),
        distinct_tokens(final(tokens)@),
        indexes(index_entries(*final(index)), token_addresses(final(tokens)@)),
{
    if find_token(tokens, index, token.address).is_none() {
        let ghost before = token_addresses(tokens@);
        proof {
            if before.contains(token.address) {
                let i = choose|i: int| 0 <= i < before.len() && before[i] == token.address;
                assert(tokens@[i].address == token.address);
            }
        }
        place_behind(index, token.address, tokens.len(), Ghost(before));
        tokens.push(token);
        proof {
            assert(token_addresses(tokens@) =~= before.push(token.address));
        }
    }
}

/// Whether `pool` joins `from` to `to`, in one of its two directions.
pub open spec fn pool_joins(pool: PoolEdge, from: Address, to: Address) -> bool {
    (pool.token0 == from && pool.token1 == to) || (pool.token1 == from && pool.token0 == to)
}

/// Every directed edge belongs to a pool that joins its two ends.
pub proof fn lemma_link_has_pool(pools: Seq<PoolEdge>, from: Address, to: Address) -> (at: int)
    requires
        pool_links(pools).contains((from, to)),
    ensures
        0 <= at < pools.len(),
        pool_joins(pools[at], from, to),
    decreases pools.len(),
{
    let links = pool_links(pools);
    let k = choose|k: int| 0 <= k < links.len() && links[k] == (from, to);
    if pools.len() == 0 {
        0
    } else {
        let shorter = pool_links(pools.drop_last());
        if k < shorter.len() {
            assert(shorter[k] == (from, to));
            lemma_link_has_pool(pools.drop_last(), from, to)
        } else {
            pools.len() - 1
        }
    }
}

/// Whether no address occurs twice.
spec fn distinct_vertices(vertices: Seq<Address>) -> bool {
    forall|i: int, j: int| 0 <= i < j < vertices.len() ==> vertices[i] != vertices[j]
}

/// The number of `address` among `vertices`.
spec fn vertex_position(vertices: Seq<Address>, address: Address) -> nat {
    choose|i: nat| i < vertices.len() && vertices[i as int] == address
}

/// Whether both tokens of every pool are among `vertices`.
spec fn joins_all(vertices: Seq<Address>, pools: Seq<PoolEdge>) -> bool {
    forall|i: int|
        0 <= i < pools.len() ==> vertices.contains((#[trigger] pools[i]).token0)
            && vertices.contains(pools[i].token1)
}

/// The edges of `pools` over the numbers of their tokens: for every pool, in
/// the order of the pools, one from token0 to token1 and one back.
spec fn index_links(vertices: Seq<Address>, pools: Seq<PoolEdge>) -> Seq<(nat, nat)> {
    Seq::new(
        2 * pools.len(),
        |k: int|
            if k % 2 == 0 {
                (
                    vertex_position(vertices, pools[k / 2].token0),
                    vertex_position(vertices, pools[k / 2].token1),
                )
            } else {
                (
                    vertex_position(vertices, pools[k / 2].token1),
                    vertex_position(vertices, pools[k / 2].token0),
                )
            },
    )
}

/// Whether `topology` is the graph of `pools` over `vertices`.
spec fn wired(
    vertices: Seq<Address>,
    pools: Seq<PoolEdge>,
    topology: petgraph::graph::Graph<(), (), petgraph::Directed, usize>,
) -> bool {
    &&& distinct_vertices(vertices)
    &&& joins_all(vertices, pools)
    &&& topology_size(topology) == vertices.len()
    &&& topology_links(topology) == index_links(vertices, pools)
}

/// Where no address occurs twice, the number of an address is its place.
proof fn lemma_vertex_position(vertices: Seq<Address>, at: int)
    requires
        distinct_vertices(vertices),
        0 <= at < vertices.len(),
    ensures
        vertex_position(vertices, vertices[at]) == at,
{
    let found = vertex_position(vertices, vertices[at]);
    assert((at as nat) < vertices.len() && vertices[at as nat as int] == vertices[at]);
    if found < at {
        assert(vertices[found as int] != vertices[at]);
    } else if found > at {
        assert(vertices[at] != vertices[found as int]);
    }
}

/// An address that is among `vertices` has a number, and is found at it.
proof fn lemma_vertex_found(vertices: Seq<Address>, address: Address)
    requires
        vertices.contains(address),
    ensures
        vertex_position(vertices, address) < vertices.len(),
        vertices[vertex_position(vertices, address) as int] == address,
{
    let i = choose|i: int| 0 <= i < vertices.len() && vertices[i] == address;
    assert((i as nat) < vertices.len() && vertices[i as nat as int] == address);
}

/// A new address at the end changes the number of none before it.
proof fn lemma_more_vertices(vertices: Seq<Address>, pools: Seq<PoolEdge>, address: Address)
    requires
        distinct_vertices(vertices),
        joins_all(vertices, pools),
        !vertices.contains(address),
    ensures
        distinct_vertices(vertices.push(address)),
        joins_all(vertices.push(address), pools),
        index_links(vertices.push(address), pools) == index_links(vertices, pools),
{
    let more = vertices.push(address);
    assert forall|i: int, j: int| 0 <= i < j < more.len() implies more[i] != more[j] by {
        if j == vertices.len() {
            assert(vertices.contains(vertices[i]));
        }
    }
    assert forall|a: Address| vertices.contains(a) implies more.contains(a)
        && vertex_position(more, a) == vertex_position(vertices, a) by {
        lemma_vertex_found(vertices, a);
        let at = vertex_position(vertices, a) as int;
        assert(more[at] == a);
        lemma_vertex_position(more, at);
    }
    assert(index_links(more, pools) =~= index_links(vertices, pools));
}

/// With the edges of `pools` as its edges, the graph of node numbers links two
/// addresses where the pools link them.
proof fn lemma_same_reach(
    vertices: Seq<Address>,
    pools: Seq<PoolEdge>,
    from: Address,
    to: Address,
)
    requires
        distinct_vertices(vertices),
        joins_all(vertices, pools),
        vertices.contains(from),
        vertices.contains(to),
    ensures
        index_linked(
            index_links(vertices, pools),
            vertex_position(vertices, from),
            vertex_position(vertices, to),
        ) == linked(pool_links(pools), from, to),
{
    let numbered = index_links(vertices, pools);
    let links = pool_links(pools);
    let start = vertex_position(vertices, from);
    let goal = vertex_position(vertices, to);
    lemma_vertex_found(vertices, from);
    lemma_vertex_found(vertices, to);
    if index_linked(numbered, start, goal) {
        let steps = choose|w: Seq<nat>|
            #[trigger] index_walk(numbered, w) && w[0] == start && w.last() == goal;
        let walk = Seq::new(steps.len(), |t: int| vertices[steps[t] as int]);
        assert forall|t: int| 0 <= t < walk.len() - 1 implies #[trigger] links.contains(
            (walk[t], walk[t + 1]),
        ) by {
            assert(numbered.contains((steps[t], steps[t + 1])));
            let k = choose|k: int| 0 <= k < numbered.len() && numbered[k] == (steps[t], steps[t + 1]);
            let pool = pools[k / 2];
            lemma_vertex_found(vertices, pool.token0);
            lemma_vertex_found(vertices, pool.token1);
            lemma_pool_is_linked(pools, k / 2);
        }
        assert(link_walk(links, walk) && walk[0] == from && walk.last() == to);
    }
    if linked(links, from, to) {
        let walk = choose|w: Seq<Address>|
            #[trigger] link_walk(links, w) && w[0] == from && w.last() == to;
        let steps = Seq::new(walk.len(), |t: int| vertex_position(vertices, walk[t]));
        assert forall|t: int| 0 <= t < steps.len() - 1 implies #[trigger] numbered.contains(
            (steps[t], steps[t + 1]),
        ) by {
            assert(links.contains((walk[t], walk[t + 1])));
            let at = lemma_link_has_pool(pools, walk[t], walk[t + 1]);
            if pools[at].token0 == walk[t] && pools[at].token1 == walk[t + 1] {
                assert(numbered[2 * at] == (steps[t], steps[t + 1]));
            } else {
                assert(numbered[2 * at + 1] == (steps[t], steps[t + 1]));
            }
        }
        assert(index_walk(numbered, steps) && steps[0] == start && steps.last() == goal);
    }
}

/// An address that no pool joins is linked to itself alone.
proof fn lemma_apart(pools: Seq<PoolEdge>, vertices: Seq<Address>, from: Address, to: Address)
    requires
        joins_all(vertices, pools),
        !vertices.contains(from) || !vertices.contains(to),
    ensures
        linked(pool_links(pools), from, to) == (from == to),
{
    let links = pool_links(pools);
    if from == to {
        let walk = seq![from];
        assert(link_walk(links, walk) && walk[0] == from && walk.last() == to);
    }
    if linked(links, from, to) {
        let walk = choose|w: Seq<Address>|
            #[trigger] link_walk(links, w) && w[0] == from && w.last() == to;
        if walk.len() >= 2 {
            let z = 0int;
            assert(links.contains((walk[z], walk[z + 1])));
            let first = lemma_link_has_pool(pools, walk[0], walk[1]);
            let n = walk.len() - 2;
            assert(links.contains((walk[n], walk[n + 1])));
            let last = lemma_link_has_pool(pools, walk[n], walk[n + 1]);
            assert(vertices.contains(pools[first].token0) && vertices.contains(pools[last].token0));
        }
    }
}

/// Makes `address` a node, unless it is one, and gives its number.
fn install_vertex(
    vertices: &mut Vec<Address>,
    topology: &mut petgraph::graph::Graph<(), (), petgraph::Directed, usize>,
    index: &mut dashmap::DashMap<(u32, u64, u64), usize, std::hash::RandomState>,
    address: Address,
    Ghost(pools): Ghost<Seq<PoolEdge>>,
) -> (at: usize)
    requires
        wired(old(vertices)@, pools, *old(topology)),
        indexes(index_entries(*old(index)), old(vertices)@),
    ensures
        wired(final(vertices)@, pools, *final(topology)),
        indexes(index_entries(*final(index)), final(vertices)@),
        at < final(vertices)@.len(),
        final(vertices)@[at as int] == address,
        old(vertices)@.len() <= final(vertices)@.len(),
        forall|i: int| 0 <= i < old(vertices)@.len() ==> final(vertices)@[i] == old(vertices)@[i],
{
    match place_of(index, address, Ghost(vertices@)) {
        Some(at) => at,
        None => {
            proof {
                lemma_more_vertices(vertices@, pools, address);
            }
            place_behind(index, address, vertices.len(), Ghost(vertices@));
            vertices.push(address);
            topology_add_node(topology)
        },
    }
}

/// Puts the two edges of every pool back, in the order of the pools.
fn rewire(
    vertices: &Vec<Address>,
    index: &dashmap::DashMap<(u32, u64, u64), usize, std::hash::RandomState>,
    pools: &Vec<PoolEdge>,
    topology: &mut petgraph::graph::Graph<(), (), petgraph::Directed, usize>,
)
    requires
        indexes(index_entries(*index), vertices@),
        distinct_vertices(vertices@),
        joins_all(vertices@, pools@),
        topology_size(*old(topology)) == vertices@.len(),
    ensures
        wired(vertices@, pools@, *final(topology)),
{
    topology_clear_edges(topology);
    let mut i: usize = 0;
    proof {
        assert(index_links(vertices@, pools@.take(0)) =~= Seq::<(nat, nat)>::empty());
    }
    while i < pools.len()
        invariant
            i <= pools@.len(),
            indexes(index_entries(*index), vertices@),
            distinct_vertices(vertices@),
            joins_all(vertices@, pools@),
            topology_size(*topology) == vertices@.len(),
            topology_links(*topology) == index_links(vertices@, pools@.take(i as int)),
        decreases pools@.len() - i,
    {
        let pool = pools[i];
        proof {
            lemma_vertex_found(vertices@, pool.token0);
            lemma_vertex_found(vertices@, pool.token1);
        }
        let from = place_of(index, pool.token0, Ghost(vertices@));
        let to = place_of(index, pool.token1, Ghost(vertices@));
        if let (Some(from), Some(to)) = (from, to) {
            proof {
                lemma_vertex_position(vertices@, from as int);
                lemma_vertex_position(vertices@, to as int);
            }
            topology_add_edge(topology, from, to);
            topology_add_edge(topology, to, from);
        }
        proof {
            assert(index_links(vertices@, pools@.take(i + 1)) =~= index_links(
                vertices@,
                pools@.take(i as int),
            ).push(
                (
                    vertex_position(vertices@, pool.token0),
                    vertex_position(vertices@, pool.token1),
                ),
            ).push(
                (
                    vertex_position(vertices@, pool.token1),
                    vertex_position(vertices@, pool.token0),
                ),
            ));
        }
        i = i + 1;
    }
    proof {
        assert(pools@.take(i as int) =~= pools@);
    }
}

/// Installs `pool`, whose tokens are the nodes `from` and `to`: in the place of
/// the pool of the same identifier, or at the end where there is none.
#[verifier::rlimit(50)]
fn install_pool(
    pools: &mut Vec<PoolEdge>,
    vertices: &Vec<Address>,
    index: &dashmap::DashMap<(u32, u64, u64), usize, std::hash::RandomState>,
    topology: &mut petgraph::graph::Graph<(), (), petgraph::Directed, usize>,
    pool: PoolEdge,
    from: usize,
    to: usize,
)
    requires
        indexes(index_entries(*index), vertices@),
        distinct_pools(old(pools)@),
        wired(vertices@, old(pools)@, *old(topology)),
        from < vertices@.len(),
        to < vertices@.len(),
        vertices@[from as int] == pool.token0,
        vertices@[to as int] == pool.token1,
    ensures
        final(pools)@ == with_pool(old(pools)@, pool),
        distinct_pools(final(pools)@),
        wired(vertices@, final(pools)@, *final(topology)),
{
    let ghost before = pools@;
    match find_pool(pools, &pool.pool_id) {
        Some(i) => {
            let same = pools[i].token0 == pool.token0 && pools[i].token1 == pool.token1;
            pools.set(i, pool);
            proof {
                assert forall|j: int| 0 <= j < pools@.len() implies vertices@.contains(
                    (#[trigger] pools@[j]).token0,
                ) && vertices@.contains(pools@[j].token1) by {
                    if j != i {
                        assert(pools@[j] == before[j]);
                    }
                }
            }
            if same {
                proof {
                    assert(index_links(vertices@, pools@) =~= index_links(vertices@, before));
                }
            } else {
                rewire(vertices, index, pools, topology);
            }
        },
        None => {
            pools.push(pool);
            proof {
                lemma_vertex_position(vertices@, from as int);
                lemma_vertex_position(vertices@, to as int);
                assert forall|j: int| 0 <= j < pools@.len() implies vertices@.contains(
                    (#[trigger] pools@[j]).token0,
                ) && vertices@.contains(pools@[j].token1) by {
                    if j < before.len() {
                        assert(pools@[j] == before[j]);
                    }
                }
                assert(index_links(vertices@, pools@) =~= index_links(vertices@, before).push(
                    (from as nat, to as nat),
                ).push((to as nat, from as nat)));
            }
            topology_add_edge(topology, from, to);
            topology_add_edge(topology, to, from);
        },
    }
}

impl PoolGraph {
    #[verifier::type_invariant]
    spec fn well_formed(self) -> bool {
        &&& distinct_tokens(self.tokens@)
        &&& distinct_pools(self.pools@)
        &&& wired(self.vertices@, self.pools@, self.topology)
        &&& indexes(index_entries(self.token_index), token_addresses(self.tokens@))
        &&& indexes(index_entries(self.vertex_index), self.vertices@)
    }

    /// The tokens of the graph in the order in which they were installed.
    pub closed spec fn tokens(&self) -> Seq<TokenNode> {
        self.tokens@
    }

    /// The pools of the graph in the order in which they were installed.
    pub closed spec fn pools(&self) -> Seq<PoolEdge> {
        self.pools@
    }

    /// The time of the latest change.
    pub closed spec fn last_update(&self) -> u64 {
        self.last_update
    }

    /// Whether `address` is the address of a token of the graph.
    pub open spec fn has_token(&self, address: Address) -> bool {
        token_position(self.tokens(), address) is Some
    }

    /// An empty graph.
    pub fn new() -> (g: PoolGraph)
        ensures
            g.tokens().len() == 0,
            g.pools().len() == 0,
            g.last_update() == 0,
    {
        let vertices: Vec<Address> = Vec::new();
        let pools: Vec<PoolEdge> = Vec::new();
        let topology = topology_new();
        proof {
            assert(index_links(vertices@, pools@) =~= Seq::<(nat, nat)>::empty());
        }
        let tokens: Vec<TokenNode> = Vec::new();
        PoolGraph {
            tokens,
            pools,
            token_index: index_new(),
            vertices,
            vertex_index: index_new(),
            topology,
            last_update: 0,
        }
    }

    /// No token address and no pool identifier occurs twice in the graph.
    pub fn distinct(&self)
        ensures
            distinct_tokens(self.tokens()),
            distinct_pools(self.pools()),
    {
        proof {
            use_type_invariant(self);
        }
    }

    /// Installs `pool`, together with the nodes of its two tokens.
    ///
    /// A token whose address the graph already has stays as it is; a new one
    /// is added, `token0_node` first. A pool whose identifier the graph already
    /// has is replaced in its place, so that both its directed edges change at
    /// once; a new one is added at the end. The time of the latest change moves
    /// up to `now` and never back.
    pub fn upsert_pool(
        &mut self,
        pool: PoolEdge,
        token0_node: TokenNode,
        token1_node: TokenNode,
        now: u64,
    )
        ensures
            final(self).tokens() == with_token(
                with_token(old(self).tokens(), token0_node),
                token1_node,
            ),
            final(self).pools() == with_pool(old(self).pools(), pool),
            final(self).last_update() == if now > old(self).last_update() {
                now
            } else {
                old(self).last_update()
            },
    {
        proof {
            use_type_invariant(&*self);
        }
        let mut taken = PoolGraph::new();
        core::mem::swap(self, &mut taken);
        let PoolGraph {
            tokens,
            pools,
            token_index,
            vertices,
            vertex_index,
            topology,
            last_update,
        } = taken;
        let mut tokens = tokens;
        let mut pools = pools;
        let mut token_index = token_index;
        let mut vertices = vertices;
        let mut vertex_index = vertex_index;
        let mut topology = topology;
        install_token(&mut tokens, &mut token_index, token0_node);
        install_token(&mut tokens, &mut token_index, token1_node);
        let from = install_vertex(
            &mut vertices,
            &mut topology,
            &mut vertex_index,
            pool.token0,
            Ghost(pools@),
        );
        let to = install_vertex(
            &mut vertices,
            &mut topology,
            &mut vertex_index,
            pool.token1,
            Ghost(pools@),
        );
        install_pool(&mut pools, &vertices, &vertex_index, &mut topology, pool, from, to);
        let last_update = if now > last_update {
            now
        } else {
            last_update
        };
        *self = PoolGraph {
            tokens,
            pools,
            token_index,
            vertices,
            vertex_index,
            topology,
            last_update,
        };
    }

    /// The pools that `token` is in: one entry for every edge that leaves the
    /// token.
    pub fn get_pools_for_token(&self, token: Address) -> (r: Vec<PoolEdge>)
        ensures
            r@ == pools_of(self.pools(), token),
    {
        let mut found: Vec<PoolEdge> = Vec::new();
        let mut i: usize = 0;
        proof {
            assert(self.pools@.take(0) =~= Seq::<PoolEdge>::empty());
            reveal(Seq::filter);
        }
        while i < self.pools.len()
            invariant
                i <= self.pools@.len(),
                found@ == pools_of(self.pools@.take(i as int), token),
            decreases self.pools@.len() - i,
        {
            let pool = self.pools[i];
            proof {
                assert(self.pools@.take(i + 1) =~= self.pools@.take(i as int).push(pool));
                self.pools@.take(i as int).lemma_filter_push(
                    pool,
                    |p: PoolEdge| pool_touches(p, token),
                );
            }
            if pool.contains_token(token) {
                found.push(pool);
            }
            i = i + 1;
        }
        proof {
            assert(self.pools@.take(i as int) =~= self.pools@);
        }
        found
    }

    /// The pool with the identifier `pool_id`, if the graph has one.
    pub fn get_pool(&self, pool_id: [u8; 32]) -> (r: Option<PoolEdge>)
        ensures
            match pool_position(self.pools(), pool_id@) {
                Some(i) => r == Some(self.pools()[i]),
                None => r is None,
            },
    {
        proof {
            use_type_invariant(self);
        }
        match find_pool(&self.pools, &pool_id) {
            Some(i) => Some(self.pools[i]),
            None => None,
        }
    }

    /// Whether a walk along pools leads from `from` to `to`. Both must be
    /// tokens of the graph; a token reaches itself.
    pub fn has_path(&self, from: Address, to: Address) -> (r: bool)
        ensures
            r == (self.has_token(from) && self.has_token(to) && linked(
                pool_links(self.pools()),
                from,
                to,
            )),
    {
        proof {
            use_type_invariant(self);
        }
        if find_token(&self.tokens, &self.token_index, from).is_none() || find_token(
            &self.tokens,
            &self.token_index,
            to,
        ).is_none() {
            return false;
        }
        let start = place_of(&self.vertex_index, from, Ghost(self.vertices@));
        let goal = place_of(&self.vertex_index, to, Ghost(self.vertices@));
        match (start, goal) {
            (Some(start), Some(goal)) => {
                proof {
                    lemma_vertex_position(self.vertices@, start as int);
                    lemma_vertex_position(self.vertices@, goal as int);
                    lemma_same_reach(self.vertices@, self.pools@, from, to);
                }
                topology_has_path(&self.topology, start, goal)
            },
            _ => {
                proof {
                    lemma_apart(self.pools@, self.vertices@, from, to);
                }
                from == to
            },
        }
    }

    /// The tokens of the graph.
    pub fn get_all_tokens(&self) -> (r: Vec<TokenNode>)
        ensures
            r@ == self.tokens(),
    {
        let mut all: Vec<TokenNode> = Vec::new();
        let mut i: usize = 0;
        while i < self.tokens.len()
            invariant
                i <= self.tokens@.len(),
                all@ == self.tokens@.take(i as int),
            decreases self.tokens@.len() - i,
        {
            all.push(self.tokens[i].clone());
            proof {
                assert(self.tokens@.take(i + 1) =~= self.tokens@.take(i as int).push(
                    self.tokens@[i as int],
                ));
            }
            i = i + 1;
        }
        proof {
            assert(self.tokens@.take(i as int) =~= self.tokens@);
        }
        all
    }

    /// The number of tokens and of pools, and the time of the latest change.
    pub fn stats(&self) -> (s: GraphStats)
        ensures
            s.token_count == self.tokens().len(),
            s.pool_count == self.pools().len(),
            s.last_update == self.last_update(),
    {
        GraphStats {
            token_count: self.tokens.len(),
            pool_count: self.pools.len(),
            last_update: self.last_update,
        }
    }
}

impl Default for PoolGraph {
    fn default() -> (g: PoolGraph)
        ensures
            g.tokens().len() == 0,
            g.pools().len() == 0,
            g.last_update() == 0,
    {
        PoolGraph::new()
    }
}

} // verus!
