//! The directed graph the queries run on: petgraph's `DiGraphMap` over `u32`
//! node identifiers, seen through its node set and its edge set.

use petgraph::graphmap::{DiGraphMap, GraphMap};
use petgraph::{Directed, Direction};
use std::hash::BuildHasher;
use vstd::prelude::*;

verus! {

#[verifier::external_type_specification]
#[verifier::external_body]
#[verifier::reject_recursive_types(N)]
#[verifier::reject_recursive_types(E)]
#[verifier::reject_recursive_types(Ty)]
#[verifier::reject_recursive_types(S)]
pub struct ExGraphMap<N, E, Ty, S: BuildHasher>(GraphMap<N, E, Ty, S>);

#[verifier::external_type_specification]
#[verifier::external_body]
pub struct ExDirected(Directed);

/// The nodes of a graph.
pub uninterp spec fn graph_nodes(g: DiGraphMap<u32, ()>) -> Set<u32>;

/// The edges of a graph, as (source, target) pairs.
pub uninterp spec fn graph_edges(g: DiGraphMap<u32, ()>) -> Set<(u32, u32)>;

/// Relies on `GraphMap::nodes`: it yields every node of the graph once.
#[verifier::external_body]
pub(crate) fn node_list(g: &DiGraphMap<u32, ()>) -> (r: Vec<u32>)
    ensures
        r@.no_duplicates(),
        forall|n: u32| r@.contains(n) <==> graph_nodes(*g).contains(n),
{
    g.nodes().collect()
}

/// Relies on `GraphMap::neighbors_directed` with `Direction::Incoming`: it
/// yields the source of every edge that ends at `n` (a self-loop included),
/// and each such source is a node of the graph.
#[verifier::external_body]
pub(crate) fn predecessors(g: &DiGraphMap<u32, ()>, n: u32) -> (r: Vec<u32>)
    ensures
        forall|m: u32| r@.contains(m) <==> graph_edges(*g).contains((m, n)),
        forall|m: u32| r@.contains(m) ==> graph_nodes(*g).contains(m),
{
    g.neighbors_directed(n, Direction::Incoming).collect()
}

/// Relies on `GraphMap::add_edge`: it adds the edge and both of its ends,
/// and returns the old weight exactly when the edge was already there.
#[verifier::external_body]
pub(crate) fn add_edge(g: &mut DiGraphMap<u32, ()>, a: u32, b: u32) -> (existed: bool)
    ensures
        graph_edges(*final(g)) == graph_edges(*old(g)).insert((a, b)),
        graph_nodes(*final(g)) == graph_nodes(*old(g)).insert(a).insert(b),
        existed == graph_edges(*old(g)).contains((a, b)),
{
    g.add_edge(a, b, ()).is_some()
}

} // verus!
