use vstd::prelude::*;
use petgraph::graph::{NodeIndex, UnGraph};

verus! {

#[verifier::external_type_specification]
#[verifier::external_body]
#[verifier::reject_recursive_types(N)]
#[verifier::reject_recursive_types(E)]
#[verifier::reject_recursive_types(Ty)]
#[verifier::reject_recursive_types(Ix)]
pub struct ExGraph<N, E, Ty, Ix>(petgraph::graph::Graph<N, E, Ty, Ix>);

#[verifier::external_type_specification]
#[verifier::external_body]
pub struct ExUndirected(petgraph::Undirected);

/// The node weights of a graph, by node index.
pub uninterp spec fn graph_nodes(g: UnGraph<String, String>) -> Seq<Seq<char>>;

/// The edges of a graph, by edge index: (node, node, weight).
pub uninterp spec fn graph_edges(g: UnGraph<String, String>) -> Seq<(nat, nat, Seq<char>)>;

/// Relies on petgraph's `Graph::new_undirected`: a graph with no node and
/// no edge.
#[verifier::external_body]
pub(crate) fn new_graph() -> (g: UnGraph<String, String>)
    ensures
        graph_nodes(g) == Seq::<Seq<char>>::empty(),
        graph_edges(g) == Seq::<(nat, nat, Seq<char>)>::empty(),
{
    UnGraph::new_undirected()
}

/// Relies on petgraph's `Graph::add_node`: the node is pushed after the
/// others and its index is the former node count; it panics when the count
/// reaches the `u32` index limit.
#[verifier::external_body]
pub(crate) fn add_node(g: &mut UnGraph<String, String>, w: String) -> (r: usize)
    requires
        graph_nodes(*old(g)).len() < u32::MAX,
    ensures
        graph_nodes(*final(g)) == graph_nodes(*old(g)).push(w@),
        graph_edges(*final(g)) == graph_edges(*old(g)),
        r == graph_nodes(*old(g)).len(),
{
    g.add_node(w).index()
}

/// Relies on petgraph's `Graph::add_edge`: the edge is pushed after the
/// others; it panics on a missing node or when the edge count reaches the
/// `u32` index limit.
#[verifier::external_body]
pub(crate) fn add_edge(g: &mut UnGraph<String, String>, a: usize, b: usize, w: String)
    requires
        a < graph_nodes(*old(g)).len(),
        b < graph_nodes(*old(g)).len(),
        graph_edges(*old(g)).len() < u32::MAX,
    ensures
        graph_nodes(*final(g)) == graph_nodes(*old(g)),
        graph_edges(*final(g)) == graph_edges(*old(g)).push((a as nat, b as nat, w@)),
{
    g.add_edge(NodeIndex::new(a), NodeIndex::new(b), w);
}

} // verus!
