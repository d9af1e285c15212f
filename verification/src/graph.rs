//! Trusted view of the directed graphs that the search reads.
//!
//! The motif and the host are `petgraph` graph maps over integer node
//! identifiers. Verified code never looks inside them; it reads them through
//! the wrappers below, whose contracts speak of two names: the node sequence
//! (`graph_nodes`, in insertion order) and the edge set (`graph_edges`).

use vstd::prelude::*;

use petgraph::graphmap::DiGraphMap;
use petgraph::graphmap::GraphMap;

verus! {

#[verifier::external_type_specification]
#[verifier::external_body]
#[verifier::reject_recursive_types(N)]
#[verifier::reject_recursive_types(E)]
#[verifier::reject_recursive_types(Ty)]
#[verifier::reject_recursive_types(S)]
pub struct ExGraphMap<N, E, Ty, S>(GraphMap<N, E, Ty, S>)
    where
        S: std::hash::BuildHasher;

#[verifier::external_type_specification]
#[verifier::external_body]
pub struct ExDirected(petgraph::Directed);

/// The nodes that a graph holds, in insertion order, without duplicates.
pub uninterp spec fn graph_nodes(g: DiGraphMap<u64, i64>) -> Seq<u64>;

/// The directed edges that a graph holds, as ordered pairs of nodes.
pub uninterp spec fn graph_edges(g: DiGraphMap<u64, i64>) -> Set<(u64, u64)>;

/// Relies on `GraphMap::nodes`: the node keys, in insertion order, each once.
#[verifier::external_body]
pub fn graph_node_list(g: &DiGraphMap<u64, i64>) -> (r: Vec<u64>)
    ensures
        r@ == graph_nodes(*g),
        r@.no_duplicates(),
{
    g.nodes().collect()
}

/// Relies on `GraphMap::node_count`: the number of node keys.
#[verifier::external_body]
pub fn graph_node_count(g: &DiGraphMap<u64, i64>) -> (r: usize)
    ensures
        r == graph_nodes(*g).len(),
{
    g.node_count()
}

/// Relies on `GraphMap::contains_edge`: membership in the edge key map.
#[verifier::external_body]
pub fn graph_has_edge(g: &DiGraphMap<u64, i64>, a: u64, b: u64) -> (r: bool)
    ensures
        r == graph_edges(*g).contains((a, b)),
{
    g.contains_edge(a, b)
}

/// Relies on `GraphMap::neighbors_directed` with `Outgoing`: exactly the
/// targets of edges leaving `a`, each once, and every one a graph node.
#[verifier::external_body]
pub fn graph_out_neighbors(g: &DiGraphMap<u64, i64>, a: u64) -> (r: Vec<u64>)
    ensures
        r@.no_duplicates(),
        forall|b: u64| r@.contains(b) <==> graph_edges(*g).contains((a, b)),
        forall|i: int| 0 <= i < r@.len() ==> graph_nodes(*g).contains(#[trigger] r@[i]),
{
    g.neighbors_directed(a, petgraph::Direction::Outgoing).collect()
}

/// Relies on `GraphMap::neighbors_directed` with `Incoming`: exactly the
/// sources of edges entering `a`, each once, and every one a graph node.
#[verifier::external_body]
pub fn graph_in_neighbors(g: &DiGraphMap<u64, i64>, a: u64) -> (r: Vec<u64>)
    ensures
        r@.no_duplicates(),
        forall|b: u64| r@.contains(b) <==> graph_edges(*g).contains((b, a)),
        forall|i: int| 0 <= i < r@.len() ==> graph_nodes(*g).contains(#[trigger] r@[i]),
{
    g.neighbors_directed(a, petgraph::Direction::Incoming).collect()
}

/// Relies on `GraphMap::all_edges`: every stored edge once, as a source and
/// target pair, with both endpoints present as graph nodes.
#[verifier::external_body]
pub fn graph_edge_list(g: &DiGraphMap<u64, i64>) -> (r: Vec<(u64, u64)>)
    ensures
        r@.no_duplicates(),
        forall|e: (u64, u64)| r@.contains(e) <==> graph_edges(*g).contains(e),
        forall|i: int| 0 <= i < r@.len() ==> graph_nodes(*g).contains(#[trigger] r@[i].0)
            && graph_nodes(*g).contains(r@[i].1),
{
    g.all_edges().map(|(a, b, _)| (a, b)).collect()
}

} // verus!
