//! Building the graph and the keyword index from the lines that describe them.

use crate::distance::index_sorted;
use crate::graph::{add_edge, graph_edges, graph_nodes};
use petgraph::graphmap::DiGraphMap;
use std::collections::HashMap;
use vstd::prelude::*;

verus! {

broadcast use vstd::std_specs::hash::group_hash_axioms;

/// Why the graph or the index cannot take a line.
#[derive(Debug, Clone, Copy, PartialEq, Eq, Structural)]
pub enum InputError {
    /// The edge from `source` to `target` is given twice.
    DuplicateEdge { source: u32, target: u32 },
    /// The keywords of this node are given twice.
    DuplicateNode(u32),
    /// The keyword list of `node` names `keyword` more than once.
    DuplicateKeyword { node: u32, keyword: u32 },
}

/// Some value occurs at least twice in `s`.
pub open spec fn has_repeat(s: Seq<u32>) -> bool {
    exists|x: u32| #[trigger] s.to_multiset().count(x) >= 2
}

/// Each value of `s` is smaller than the next.
pub open spec fn strictly_ascending(s: Seq<u32>) -> bool {
    forall|i: int, j: int| 0 <= i < j < s.len() ==> s[i] < s[j]
}

/// The edges from `source` to each of `targets`, added to `edges`.
pub open spec fn edges_added(edges: Set<(u32, u32)>, source: u32, targets: Seq<u32>) -> Set<(u32, u32)> {
    edges.union(Set::new(|e: (u32, u32)| e.0 == source && targets.contains(e.1)))
}

/// The ends of those edges, added to `nodes`.
pub open spec fn nodes_added(nodes: Set<u32>, source: u32, targets: Seq<u32>) -> Set<u32> {
    if targets.len() == 0 {
        nodes
    } else {
        nodes.insert(source).union(targets.to_set())
    }
}

/// The edge to `targets[j]` is in `edges` already or given before place `j`.
pub open spec fn repeats(edges: Set<(u32, u32)>, source: u32, targets: Seq<u32>, j: int) -> bool {
    edges.contains((source, targets[j])) || targets.subrange(0, j).contains(targets[j])
}

/// Adds an edge from `source` to each of `targets`, in order, and stops with
/// an error at the first edge that is already in the graph.
pub fn add_adjacency(graph: &mut DiGraphMap<u32, ()>, source: u32, targets: &Vec<u32>) -> (r: Result<(), InputError>)
    ensures
        match r {
            Ok(()) => {
                &&& forall|j: int| 0 <= j < targets@.len() ==> !repeats(graph_edges(*old(graph)), source, targets@, j)
                &&& graph_edges(*final(graph)) == edges_added(graph_edges(*old(graph)), source, targets@)
                &&& graph_nodes(*final(graph)) == nodes_added(graph_nodes(*old(graph)), source, targets@)
            },
            Err(e) => exists|j: int|
                0 <= j < targets@.len() && repeats(graph_edges(*old(graph)), source, targets@, j) && (forall|k: int|
                    0 <= k < j ==> !repeats(graph_edges(*old(graph)), source, targets@, k)) && e
                    == (InputError::DuplicateEdge { source, target: targets@[j] }) && graph_edges(*final(graph))
                    == edges_added(graph_edges(*old(graph)), source, targets@.subrange(0, j + 1))
                    && graph_nodes(*final(graph)) == nodes_added(
                    graph_nodes(*old(graph)),
                    source,
                    targets@.subrange(0, j + 1),
                ),
        },
{
    let ghost e0 = graph_edges(*graph);
    let ghost n0 = graph_nodes(*graph);
    let ghost ts = targets@;
    let mut j: usize = 0;
    assert(ts.subrange(0, 0) =~= Seq::<u32>::empty());
    assert(edges_added(e0, source, ts.subrange(0, 0)) =~= e0);
    while j < targets.len()
        invariant
            j <= ts.len(),
            ts == targets@,
            e0 == graph_edges(*old(graph)),
            n0 == graph_nodes(*old(graph)),
            forall|k: int| 0 <= k < j ==> !repeats(e0, source, ts, k),
            graph_edges(*graph) == edges_added(e0, source, ts.subrange(0, j as int)),
            graph_nodes(*graph) == nodes_added(n0, source, ts.subrange(0, j as int)),
        decreases ts.len() - j,
    {
        let t = targets[j];
        let ghost before = ts.subrange(0, j as int);
        let ghost after = ts.subrange(0, j + 1);
        assert(after =~= before.push(t));
        let existed = add_edge(graph, source, t);
        proof {
            assert forall|x: u32| after.contains(x) <==> before.contains(x) || x == t by {
                if after.contains(x) {
                    let i = choose|i: int| 0 <= i < after.len() && after[i] == x;
                    if i < before.len() {
                        assert(before[i] == x);
                    }
                }
                if before.contains(x) {
                    let i = choose|i: int| 0 <= i < before.len() && before[i] == x;
                    assert(after[i] == x);
                }
                if x == t {
                    assert(after[before.len() as int] == x);
                }
            }
            assert(edges_added(e0, source, after) =~= edges_added(e0, source, before).insert((source, t)));
            if before.len() == 0 {
                assert(after.to_set() =~= set![t]) by {
                    assert forall|x: u32| after.to_set().contains(x) <==> x == t by {
                        assert(!before.contains(x));
                    }
                }
                assert(nodes_added(n0, source, after) =~= n0.insert(source).insert(t));
            } else {
                before.lemma_push_to_set_commute(t);
                assert(nodes_added(n0, source, after) =~= nodes_added(n0, source, before).insert(source).insert(t));
            }
            assert(existed == repeats(e0, source, ts, j as int));
        }
        if existed {
            return Err(InputError::DuplicateEdge { source, target: t });
        }
        j = j + 1;
    }
    assert(ts.subrange(0, ts.len() as int) =~= ts);
    Ok(())
}

/// Relies on `slice::sort_unstable`: it leaves the same values in ascending order.
#[verifier::external_body]
fn sort_ascending(v: &mut Vec<u32>)
    ensures
        final(v)@.to_multiset() == old(v)@.to_multiset(),
        forall|i: int, j: int| 0 <= i < j < final(v)@.len() ==> final(v)@[i] <= final(v)@[j],
{
    v.sort_unstable()
}

/// Records the keywords of `node`, sorted. A list that names a keyword twice
/// is refused and leaves the index as it was; otherwise the list is stored,
/// and an error reports that the index already held keywords for the node
/// (the new list replaces them).
pub fn add_keywords(index: &mut HashMap<u32, Vec<u32>>, node: u32, keywords: Vec<u32>) -> (r: Result<(), InputError>)
    requires
        index_sorted(old(index)@),
    ensures
        index_sorted(final(index)@),
        has_repeat(keywords@) ==> exists|x: u32|
            #[trigger] keywords@.to_multiset().count(x) >= 2 && r == Err::<(), InputError>(
                InputError::DuplicateKeyword { node, keyword: x },
            ) && final(index)@ == old(index)@,
        !has_repeat(keywords@) ==> {
            &&& final(index)@.dom() == old(index)@.dom().insert(node)
            &&& forall|v: u32| v != node && old(index)@.contains_key(v) ==> final(index)@[v] == old(index)@[v]
            &&& final(index)@[node]@.to_multiset() == keywords@.to_multiset()
            &&& strictly_ascending(final(index)@[node]@)
            &&& r == if old(index)@.contains_key(node) {
                Err::<(), InputError>(InputError::DuplicateNode(node))
            } else {
                Ok(())
            }
        },
{
    let ghost given = keywords@;
    let mut sorted = keywords;
    sort_ascending(&mut sorted);
    let n = sorted.len();
    let mut i: usize = 1;
    while i < n && sorted[i - 1] != sorted[i]
        invariant
            1 <= i <= n || n == 0,
            n == sorted@.len(),
            forall|t: int| 0 <= t && t + 1 < i && t + 1 < n ==> #[trigger] sorted@[t] < sorted@[t + 1],
            forall|a: int, b: int| 0 <= a < b < n ==> sorted@[a] <= sorted@[b],
        decreases n - i,
    {
        i = i + 1;
    }
    if i < n {
        let k = sorted[i];
        proof {
            let s = sorted@;
            broadcast use vstd::seq_lib::group_to_multiset_ensures;
            assert(s.remove(i - 1)[i - 1] == k);
            assert(s.remove(i - 1).contains(k));
            assert(s.remove(i - 1).to_multiset().count(k) > 0);
            assert(s.to_multiset().count(k) >= 2);
            assert(given.to_multiset().count(k) >= 2);
        }
        return Err(InputError::DuplicateKeyword { node, keyword: k });
    }
    proof {
        let s = sorted@;
        assert forall|a: int, b: int| 0 <= a < b < s.len() implies s[a] < s[b] by {
            assert(s[a] < s[a + 1]);
        }
        assert(s.no_duplicates());
        s.lemma_multiset_has_no_duplicates();
        assert forall|x: u32| given.to_multiset().count(x) < 2 by {
            broadcast use vstd::seq_lib::group_to_multiset_ensures;
            if s.contains(x) {
                assert(s.to_multiset().contains(x));
            } else {
                assert(s.to_multiset().count(x) == 0);
            }
        }
    }
    let old_entry = index.insert(node, sorted);
    assert(index@.dom() =~= old(index)@.dom().insert(node));
    match old_entry {
        Some(_) => Err(InputError::DuplicateNode(node)),
        None => Ok(()),
    }
}

} // verus!
