//! The skyline query: distance vectors for every node, then the nodes whose
//! vector no other node's vector dominates.

use crate::distance::{
    distance_vector, index_sorted, is_distance, keyword_distances, lemma_distance_unique,
    nodes_indexed,
};
use crate::dominance::{dominates, skyline, skyline_rows, table_view, undominated, uniform_width};
use crate::graph::{graph_nodes, node_list};
use petgraph::graphmap::DiGraphMap;
use std::collections::HashMap;
use vstd::prelude::*;

verus! {

broadcast use vstd::std_specs::hash::group_hash_axioms, vstd::seq_lib::group_filter_ensures;

/// `t` holds one row per node of the graph, each with the node's distance vector.
pub open spec fn is_distance_table(
    g: DiGraphMap<u32, ()>,
    index: Map<u32, Vec<u32>>,
    keywords: Seq<u32>,
    t: Seq<(u32, Seq<u64>)>,
) -> bool {
    &&& forall|i: int|
        0 <= i < t.len() ==> graph_nodes(g).contains(#[trigger] t[i].0) && t[i].1 == distance_vector(
            g,
            index,
            keywords,
            t[i].0,
        )
    &&& forall|v: u32| graph_nodes(g).contains(v) ==> exists|i: int| 0 <= i < t.len() && #[trigger] t[i].0 == v
    &&& forall|i: int, j: int| 0 <= i < j < t.len() ==> #[trigger] t[i].0 != #[trigger] t[j].0
}

/// `v` is a node of the graph whose distance vector no node's vector dominates.
pub open spec fn in_skyline(
    g: DiGraphMap<u32, ()>,
    index: Map<u32, Vec<u32>>,
    keywords: Seq<u32>,
    v: u32,
) -> bool {
    &&& graph_nodes(g).contains(v)
    &&& forall|u: u32|
        graph_nodes(g).contains(u) ==> !dominates(
            #[trigger] distance_vector(g, index, keywords, u),
            distance_vector(g, index, keywords, v),
        )
}

/// The distance vector of every node of the graph, one row per node.
pub fn compute_distances(
    graph: &DiGraphMap<u32, ()>,
    node_to_keyword: &HashMap<u32, Vec<u32>>,
    keywords: &[u32],
) -> (r: Vec<(u32, Vec<u64>)>)
    requires
        index_sorted(node_to_keyword@),
    ensures
        is_distance_table(*graph, node_to_keyword@, keywords@, table_view(r@)),
        uniform_width(r@),
        forall|i: int| 0 <= i < r@.len() ==> (#[trigger] r@[i]).1@.len() == keywords@.len(),
{
    let nodes = node_list(graph);
    let n = nodes.len();
    let mut pos: HashMap<u32, usize> = HashMap::new();
    let mut j: usize = 0;
    while j < n
        invariant
            j <= n,
            n == nodes@.len(),
            nodes@.no_duplicates(),
            forall|t: int| 0 <= t < j ==> #[trigger] pos@.contains_key(nodes@[t]) && pos@[nodes@[t]] == t,
            forall|x: u32| #[trigger] pos@.contains_key(x) ==> pos@[x] < j && nodes@[pos@[x] as int] == x,
        decreases n - j,
    {
        pos.insert(nodes[j], j);
        j = j + 1;
    }
    let ghost g = *graph;
    let ghost index = node_to_keyword@;
    assert(nodes_indexed(g, nodes@, pos@));
    let kn = keywords.len();
    let mut columns: Vec<Vec<u64>> = Vec::new();
    let mut i: usize = 0;
    while i < kn
        invariant
            i <= kn,
            kn == keywords@.len(),
            n == nodes@.len(),
            g == *graph,
            index == node_to_keyword@,
            nodes_indexed(g, nodes@, pos@),
            index_sorted(index),
            columns@.len() == i,
            forall|c: int| 0 <= c < i ==> (#[trigger] columns@[c])@.len() == n,
            forall|c: int, t: int|
                0 <= c < i && 0 <= t < n ==> is_distance(g, index, keywords@[c], nodes@[t], #[trigger] columns@[c]@[t]),
        decreases kn - i,
    {
        let col = keyword_distances(graph, node_to_keyword, &nodes, &pos, keywords[i]);
        columns.push(col);
        i = i + 1;
    }
    let mut r: Vec<(u32, Vec<u64>)> = Vec::new();
    let mut j: usize = 0;
    while j < n
        invariant
            j <= n,
            n == nodes@.len(),
            kn == keywords@.len(),
            g == *graph,
            index == node_to_keyword@,
            columns@.len() == kn,
            forall|c: int| 0 <= c < kn ==> (#[trigger] columns@[c])@.len() == n,
            forall|c: int, t: int|
                0 <= c < kn && 0 <= t < n ==> is_distance(g, index, keywords@[c], nodes@[t], #[trigger] columns@[c]@[t]),
            r@.len() == j,
            forall|t: int|
                0 <= t < j ==> (#[trigger] r@[t]).0 == nodes@[t] && r@[t].1@ == distance_vector(
                    g,
                    index,
                    keywords@,
                    nodes@[t],
                ),
        decreases n - j,
    {
        let mut row: Vec<u64> = Vec::new();
        let mut i: usize = 0;
        while i < kn
            invariant
                i <= kn,
                j < n,
                kn == keywords@.len(),
                columns@.len() == kn,
                forall|c: int| 0 <= c < kn ==> (#[trigger] columns@[c])@.len() == n,
                row@.len() == i,
                forall|c: int| 0 <= c < i ==> #[trigger] row@[c] == columns@[c]@[j as int],
            decreases kn - i,
        {
            row.push(columns[i][j]);
            i = i + 1;
        }
        proof {
            assert forall|c: int| 0 <= c < kn implies #[trigger] row@[c] == distance_vector(g, index, keywords@, nodes@[j as int])[c] by {
                lemma_distance_unique(g, index, keywords@[c], nodes@[j as int], columns@[c]@[j as int]);
            }
            assert(row@ =~= distance_vector(g, index, keywords@, nodes@[j as int]));
        }
        r.push((nodes[j], row));
        j = j + 1;
    }
    proof {
        let t = table_view(r@);
        assert forall|v: u32| graph_nodes(g).contains(v) implies exists|i: int| 0 <= i < t.len() && #[trigger] t[i].0 == v by {
            assert(nodes@.contains(v));
            let w = choose|w: int| 0 <= w < nodes@.len() && nodes@[w] == v;
            assert(t[w].0 == v);
        }
        assert forall|i: int| 0 <= i < t.len() implies graph_nodes(g).contains(#[trigger] t[i].0) by {
            assert(nodes@.contains(nodes@[i]));
        }
        assert forall|a: int, b: int| 0 <= a < b < t.len() implies #[trigger] t[a].0 != #[trigger] t[b].0 by {
            assert(nodes@[a] != nodes@[b]);
        }
    }
    r
}

/// `t` is the answer to the query `keywords`: each row is a node of the
/// skyline with its distance vector, every node of the skyline has a row, and
/// no node has two.
pub open spec fn is_skyline_answer(
    g: DiGraphMap<u32, ()>,
    index: Map<u32, Vec<u32>>,
    keywords: Seq<u32>,
    t: Seq<(u32, Seq<u64>)>,
) -> bool {
    &&& forall|i: int|
        0 <= i < t.len() ==> in_skyline(g, index, keywords, (#[trigger] t[i]).0) && t[i].1
            == distance_vector(g, index, keywords, t[i].0)
    &&& forall|v: u32|
        in_skyline(g, index, keywords, v) ==> exists|i: int| 0 <= i < t.len() && (#[trigger] t[i]).0 == v
    &&& forall|i: int, j: int| 0 <= i < j < t.len() ==> (#[trigger] t[i]).0 != (#[trigger] t[j]).0
}

/// Keeping some rows of a table keeps its node identifiers distinct.
proof fn lemma_filter_distinct(t: Seq<(u32, Seq<u64>)>, pred: spec_fn((u32, Seq<u64>)) -> bool)
    requires
        forall|i: int, j: int| 0 <= i < j < t.len() ==> #[trigger] t[i].0 != #[trigger] t[j].0,
    ensures
        forall|i: int, j: int|
            0 <= i < j < t.filter(pred).len() ==> #[trigger] t.filter(pred)[i].0 != #[trigger] t.filter(pred)[j].0,
    decreases t.len(),
{
    reveal(Seq::filter);
    if t.len() > 0 {
        let s = t.drop_last();
        lemma_filter_distinct(s, pred);
        let f = t.filter(pred);
        let fs = s.filter(pred);
        if pred(t.last()) {
            assert forall|i: int, j: int| 0 <= i < j < f.len() implies #[trigger] f[i].0 != #[trigger] f[j].0 by {
                assert(f == fs.push(t.last()));
                if j == f.len() - 1 {
                    assert(f[i] == fs[i]);
                    assert(fs.contains(fs[i]));
                    s.lemma_filter_contains_rev(pred, fs[i]);
                    let w = choose|w: int| 0 <= w < s.len() && s[w] == fs[i];
                    assert(t[w] == s[w]);
                    assert(t[w].0 != t[t.len() - 1].0);
                } else {
                    assert(f[i] == fs[i] && f[j] == fs[j]);
                }
            }
        }
    }
}

/// Answers a skyline query: the nodes of `graph` whose distance vector for
/// `keywords` no node's vector dominates, each with that vector.
pub fn semantic_place_skyline(
    graph: &DiGraphMap<u32, ()>,
    node_to_keyword: &HashMap<u32, Vec<u32>>,
    keywords: &[u32],
) -> (r: Vec<(u32, Vec<u64>)>)
    requires
        keywords@.len() > 0,
        index_sorted(node_to_keyword@),
    ensures
        is_skyline_answer(*graph, node_to_keyword@, keywords@, table_view(r@)),
{
    let dists = compute_distances(graph, node_to_keyword, keywords);
    let r = skyline(&dists);
    proof {
        let g = *graph;
        let index = node_to_keyword@;
        let t = table_view(dists@);
        let pred = |e: (u32, Seq<u64>)| undominated(t, e.1);
        let f = t.filter(pred);
        assert(table_view(r@) == f);
        assert forall|i: int| 0 <= i < f.len() implies in_skyline(g, index, keywords@, (#[trigger] f[i]).0)
            && f[i].1 == distance_vector(g, index, keywords@, f[i].0) by {
            assert(f.contains(f[i]));
            assert(pred(f[i]));
            t.lemma_filter_contains_rev(pred, f[i]);
            let k = choose|k: int| 0 <= k < t.len() && t[k] == f[i];
            assert(graph_nodes(g).contains(t[k].0));
            assert(t[k].1 == distance_vector(g, index, keywords@, t[k].0));
            assert forall|u: u32| graph_nodes(g).contains(u) implies !dominates(
                #[trigger] distance_vector(g, index, keywords@, u),
                distance_vector(g, index, keywords@, f[i].0),
            ) by {
                let w = choose|w: int| 0 <= w < t.len() && #[trigger] t[w].0 == u;
                assert(!dominates(t[w].1, f[i].1));
            }
        }
        assert forall|v: u32| in_skyline(g, index, keywords@, v) implies exists|i: int|
            0 <= i < f.len() && (#[trigger] f[i]).0 == v by {
            let w = choose|w: int| 0 <= w < t.len() && #[trigger] t[w].0 == v;
            assert forall|j: int| 0 <= j < t.len() implies !dominates(#[trigger] t[j].1, t[w].1) by {
                assert(graph_nodes(g).contains(t[j].0));
            }
            assert(pred(t[w]));
            assert(f.contains(t[w]));
            let i = choose|i: int| 0 <= i < f.len() && f[i] == t[w];
            assert(f[i].0 == v);
        }
        lemma_filter_distinct(t, pred);
    }
    r
}

} // verus!
