//! The directed graph that answers reachability.
//!
//! The graph is a `petgraph` graph without weights. Its nodes are numbered in
//! the order in which they were added, and what it holds is spoken of as the
//! number of its nodes and the sequence of its edges, each a pair of node
//! numbers.

use vstd::prelude::*;

verus! {

/// `petgraph::graph::Graph`, of which nothing is known here but what the
/// functions below state.
#[verifier::external_type_specification]
#[verifier::external_body]
#[verifier::reject_recursive_types(N)]
#[verifier::reject_recursive_types(E)]
#[verifier::reject_recursive_types(Ty)]
#[verifier::reject_recursive_types(Ix)]
pub struct ExGraph<N, E, Ty, Ix>(petgraph::graph::Graph<N, E, Ty, Ix>);

/// `petgraph::Directed`, the marker of a graph whose edges have a direction.
#[verifier::external_type_specification]
#[verifier::external_body]
pub struct ExDirected(petgraph::Directed);

/// The number of nodes of `graph`.
pub uninterp spec fn topology_size(
    graph: petgraph::graph::Graph<(), (), petgraph::Directed, usize>,
) -> nat;

/// The edges of `graph` in the order in which they were added, each as the
/// numbers of the node it leaves and of the node it enters.
pub uninterp spec fn topology_links(
    graph: petgraph::graph::Graph<(), (), petgraph::Directed, usize>,
) -> Seq<(nat, nat)>;

/// Whether `walk` is a walk along `links`: at least one node, and an edge from
/// each node to the next.
pub open spec fn index_walk(links: Seq<(nat, nat)>, walk: Seq<nat>) -> bool {
    &&& walk.len() >= 1
    &&& forall|k: int|
        0 <= k < walk.len() - 1 ==> #[trigger] links.contains((walk[k], walk[k + 1]))
}

/// Whether a walk along `links` leads from `from` to `to`. A node is linked to
/// itself.
pub open spec fn index_linked(links: Seq<(nat, nat)>, from: nat, to: nat) -> bool {
    exists|walk: Seq<nat>|
        #[trigger] index_walk(links, walk) && walk[0] == from && walk.last() == to
}

/// `Graph::with_capacity` of `petgraph`, asked for no room: a graph without
/// nodes and without edges.
#[verifier::external_body]
pub(crate) fn topology_new() -> (graph: petgraph::graph::Graph<
    (),
    (),
    petgraph::Directed,
    usize,
>)
    ensures
        topology_size(graph) == 0,
        topology_links(graph) == Seq::<(nat, nat)>::empty(),
{
    petgraph::graph::Graph::with_capacity(0, 0)
}

/// `Graph::add_node` of `petgraph`: the graph gets one more node, whose number
/// is the number of nodes that it had, and keeps its edges.
#[verifier::external_body]
pub(crate) fn topology_add_node(
    graph: &mut petgraph::graph::Graph<(), (), petgraph::Directed, usize>,
) -> (node: usize)
    ensures
        node == topology_size(*old(graph)),
        topology_size(*final(graph)) == topology_size(*old(graph)) + 1,
        topology_links(*final(graph)) == topology_links(*old(graph)),
{
    graph.add_node(()).index()
}

/// `Graph::add_edge` of `petgraph`, which panics where one of the two nodes is
/// not in the graph: the graph gets an edge from `from` to `to` behind its
/// other edges, also where it has one between the two already, and keeps its
/// nodes.
#[verifier::external_body]
pub(crate) fn topology_add_edge(
    graph: &mut petgraph::graph::Graph<(), (), petgraph::Directed, usize>,
    from: usize,
    to: usize,
)
    requires
        from < topology_size(*old(graph)),
        to < topology_size(*old(graph)),
    ensures
        topology_size(*final(graph)) == topology_size(*old(graph)),
        topology_links(*final(graph)) == topology_links(*old(graph)).push(
            (from as nat, to as nat),
        ),
{
    graph.add_edge(
        petgraph::graph::NodeIndex::new(from),
        petgraph::graph::NodeIndex::new(to),
        (),
    );
}

/// `Graph::clear_edges` of `petgraph`: the graph loses all its edges and keeps
/// its nodes.
#[verifier::external_body]
pub(crate) fn topology_clear_edges(
    graph: &mut petgraph::graph::Graph<(), (), petgraph::Directed, usize>,
)
    ensures
        topology_size(*final(graph)) == topology_size(*old(graph)),
        topology_links(*final(graph)) == Seq::<(nat, nat)>::empty(),
{
    graph.clear_edges();
}

/// `petgraph::algo::has_path_connecting`: a depth-first search from `from`
/// along the edges, which answers whether `to` is among the nodes that it
/// reaches, `from` itself being one of them. The search marks `from` in a
/// set of the graph's size, and panics where `from` is not in the graph.
#[verifier::external_body]
pub(crate) fn topology_has_path(
    graph: &petgraph::graph::Graph<(), (), petgraph::Directed, usize>,
    from: usize,
    to: usize,
) -> (r: bool)
    requires
        from < topology_size(*graph),
    ensures
        r == index_linked(topology_links(*graph), from as nat, to as nat),
{
    petgraph::algo::has_path_connecting(
        graph,
        petgraph::graph::NodeIndex::new(from),
        petgraph::graph::NodeIndex::new(to),
        None,
    )
}

} // verus!
