//! Shortest directed distances from every node to the nearest node that
//! carries a keyword, by a breadth-first search that starts from all keyword
//! holders at once and walks edges backwards.

use crate::graph::{graph_edges, graph_nodes, node_list, predecessors};
use petgraph::graphmap::DiGraphMap;
use std::collections::{HashMap, VecDeque};
use vstd::prelude::*;

verus! {

broadcast use vstd::std_specs::hash::group_hash_axioms;

/// The distance recorded for a node from which no keyword holder can be reached.
pub const UNREACHABLE: u64 = 0xffff_ffff_ffff_ffff;

/// Node `v` carries keyword `k` in the index; a node absent from the index
/// carries none.
pub open spec fn has_keyword(index: Map<u32, Vec<u32>>, v: u32, k: u32) -> bool {
    index.contains_key(v) && index[v]@.contains(k)
}

/// Every keyword list of the index is sorted ascending.
pub open spec fn index_sorted(index: Map<u32, Vec<u32>>) -> bool {
    forall|v: u32|
        #![trigger index[v]]
        index.contains_key(v) ==> forall|i: int, j: int|
            0 <= i < j < index[v]@.len() ==> index[v]@[i] <= index[v]@[j]
}

/// From `v`, a directed path of at most `n` edges through the graph's nodes
/// ends at a node that carries `k`.
pub open spec fn reaches_within(
    g: DiGraphMap<u32, ()>,
    index: Map<u32, Vec<u32>>,
    k: u32,
    v: u32,
    n: nat,
) -> bool
    decreases n,
{
    has_keyword(index, v, k) || (n > 0 && exists|w: u32|
        #[trigger] graph_edges(g).contains((v, w)) && graph_nodes(g).contains(w)
            && reaches_within(g, index, k, w, (n - 1) as nat))
}

/// `d` is the length of the shortest directed path from `v` to a node carrying
/// `k`, or `UNREACHABLE` when no path shorter than `UNREACHABLE` edges exists.
pub open spec fn is_distance(
    g: DiGraphMap<u32, ()>,
    index: Map<u32, Vec<u32>>,
    k: u32,
    v: u32,
    d: u64,
) -> bool {
    &&& forall|m: nat| m < d ==> !#[trigger] reaches_within(g, index, k, v, m)
    &&& d < UNREACHABLE ==> reaches_within(g, index, k, v, d as nat)
}

/// The distance from `v` to the nearest node carrying `k`.
pub open spec fn distance(g: DiGraphMap<u32, ()>, index: Map<u32, Vec<u32>>, k: u32, v: u32) -> u64 {
    choose|d: u64| is_distance(g, index, k, v, d)
}

/// The distance vector of `v`: one distance per query keyword, in query order.
pub open spec fn distance_vector(
    g: DiGraphMap<u32, ()>,
    index: Map<u32, Vec<u32>>,
    keywords: Seq<u32>,
    v: u32,
) -> Seq<u64> {
    Seq::new(keywords.len(), |i: int| distance(g, index, keywords[i], v))
}

/// At most one value is the distance from `v` to `k`; so where one is known,
/// it is `distance`.
pub proof fn lemma_distance_unique(
    g: DiGraphMap<u32, ()>,
    index: Map<u32, Vec<u32>>,
    k: u32,
    v: u32,
    d: u64,
)
    requires
        is_distance(g, index, k, v, d),
    ensures
        distance(g, index, k, v) == d,
{
    let e = distance(g, index, k, v);
    assert(is_distance(g, index, k, v, e));
    if e < d {
        assert(reaches_within(g, index, k, v, e as nat));
    } else if d < e {
        assert(reaches_within(g, index, k, v, d as nat));
    }
}

/// `nodes` lists the graph's nodes, each once, and `pos` maps each to its place.
pub open spec fn nodes_indexed(g: DiGraphMap<u32, ()>, nodes: Seq<u32>, pos: Map<u32, usize>) -> bool {
    &&& nodes.no_duplicates()
    &&& forall|n: u32| nodes.contains(n) <==> graph_nodes(g).contains(n)
    &&& forall|j: int| 0 <= j < nodes.len() ==> #[trigger] pos.contains_key(nodes[j]) && pos[nodes[j]] == j
    &&& forall|n: u32| #[trigger] pos.contains_key(n) ==> pos[n] < nodes.len() && nodes[pos[n] as int] == n
}

/// Every node of the graph has a place in `nodes`, and `pos` gives it.
proof fn lemma_place(g: DiGraphMap<u32, ()>, nodes: Seq<u32>, pos: Map<u32, usize>, v: u32)
    requires
        nodes_indexed(g, nodes, pos),
        graph_nodes(g).contains(v),
    ensures
        pos.contains_key(v),
        pos[v] < nodes.len(),
        nodes[pos[v] as int] == v,
{
    assert(nodes.contains(v));
    let i = choose|i: int| 0 <= i < nodes.len() && nodes[i] == v;
    assert(pos.contains_key(nodes[i]));
}

/// The sum of a sequence of distances.
pub open spec fn total(s: Seq<u64>) -> int
    decreases s.len(),
{
    if s.len() == 0 {
        0
    } else {
        total(s.drop_last()) + s.last()
    }
}

proof fn lemma_total_update(s: Seq<u64>, i: int, x: u64)
    requires
        0 <= i < s.len(),
    ensures
        total(s.update(i, x)) == total(s) - s[i] + x,
        total(s) >= 0,
    decreases s.len(),
{
    let t = s.update(i, x);
    if i == s.len() - 1 {
        assert(t.drop_last() =~= s.drop_last());
    } else {
        assert(t.drop_last() =~= s.drop_last().update(i, x));
        lemma_total_update(s.drop_last(), i, x);
    }
    lemma_total_nonnegative(s);
}

pub proof fn lemma_total_nonnegative(s: Seq<u64>)
    ensures
        total(s) >= 0,
    decreases s.len(),
{
    if s.len() > 0 {
        lemma_total_nonnegative(s.drop_last());
    }
}

/// Where no edge can shorten a recorded distance and every holder of `k` is at
/// zero, a path of at most `m` edges from `v` bounds the distance recorded for `v`.
proof fn lemma_lower_bound(
    g: DiGraphMap<u32, ()>,
    index: Map<u32, Vec<u32>>,
    k: u32,
    nodes: Seq<u32>,
    pos: Map<u32, usize>,
    d: Seq<u64>,
    v: u32,
    m: nat,
)
    requires
        nodes_indexed(g, nodes, pos),
        d.len() == nodes.len(),
        forall|j: int| 0 <= j < nodes.len() && has_keyword(index, #[trigger] nodes[j], k) ==> d[j] == 0,
        forall|a: int, b: int|
            0 <= a < nodes.len() && 0 <= b < nodes.len() && #[trigger] graph_edges(g).contains(
                (nodes[a], nodes[b]),
            ) && d[b] < UNREACHABLE ==> d[a] <= d[b] + 1,
        graph_nodes(g).contains(v),
        reaches_within(g, index, k, v, m),
    ensures
        d[pos[v] as int] <= m,
    decreases m,
{
    lemma_place(g, nodes, pos, v);
    let j = pos[v] as int;
    if !has_keyword(index, v, k) {
        let w = choose|w: u32|
            #[trigger] graph_edges(g).contains((v, w)) && graph_nodes(g).contains(w)
                && reaches_within(g, index, k, w, (m - 1) as nat);
        lemma_place(g, nodes, pos, w);
        let b = pos[w] as int;
        lemma_lower_bound(g, index, k, nodes, pos, d, w, (m - 1) as nat);
        assert(graph_edges(g).contains((nodes[j], nodes[b])));
    }
}

/// Binary search for `k` in the ascending list `list`.
fn contains_sorted(list: &Vec<u32>, k: u32) -> (r: bool)
    requires
        forall|i: int, j: int| 0 <= i < j < list@.len() ==> list@[i] <= list@[j],
    ensures
        r == list@.contains(k),
{
    let mut lo: usize = 0;
    let mut hi: usize = list.len();
    while lo < hi
        invariant
            lo <= hi <= list@.len(),
            forall|i: int, j: int| 0 <= i < j < list@.len() ==> list@[i] <= list@[j],
            forall|i: int| 0 <= i < lo ==> list@[i] < k,
            forall|i: int| hi <= i < list@.len() ==> list@[i] > k,
        decreases hi - lo,
    {
        let mid = lo + (hi - lo) / 2;
        if list[mid] == k {
            return true;
        } else if list[mid] < k {
            lo = mid + 1;
        } else {
            hi = mid;
        }
    }
    proof {
        if list@.contains(k) {
            let i = choose|i: int| 0 <= i < list@.len() && list@[i] == k;
            assert(list@[i] == k);
        }
    }
    false
}

/// Multi-source breadth-first search for keyword `k`: entry `j` of the result
/// is the distance from `nodes[j]` to the nearest node carrying `k`.
pub(crate) fn keyword_distances(
    g: &DiGraphMap<u32, ()>,
    index: &HashMap<u32, Vec<u32>>,
    nodes: &Vec<u32>,
    pos: &HashMap<u32, usize>,
    k: u32,
) -> (d: Vec<u64>)
    requires
        nodes_indexed(*g, nodes@, pos@),
        index_sorted(index@),
    ensures
        d@.len() == nodes@.len(),
        forall|j: int| 0 <= j < nodes@.len() ==> is_distance(*g, index@, k, nodes@[j], #[trigger] d@[j]),
{
    let n = nodes.len();
    let mut d: Vec<u64> = Vec::new();
    let mut queue: VecDeque<usize> = VecDeque::new();
    let mut j: usize = 0;
    while j < n
        invariant
            j <= n,
            n == nodes@.len(),
            index_sorted(index@),
            d@.len() == j,
            forall|t: int|
                0 <= t < j ==> #[trigger] d@[t] == if has_keyword(index@, nodes@[t], k) {
                    0u64
                } else {
                    UNREACHABLE
                },
            forall|t: int| 0 <= t < queue@.len() ==> #[trigger] queue@[t] < j && d@[queue@[t] as int] == 0,
            forall|t: int| 0 <= t < j && #[trigger] d@[t] < UNREACHABLE ==> queue@.contains(t as usize),
        decreases n - j,
    {
        let holds = match index.get(&nodes[j]) {
            Some(list) => contains_sorted(list, k),
            None => false,
        };
        let ghost q0 = queue@;
        if holds {
            d.push(0);
            queue.push_back(j);
            assert(queue@[q0.len() as int] == j);
        } else {
            d.push(UNREACHABLE);
        }
        assert forall|t: int| 0 <= t < j + 1 && #[trigger] d@[t] < UNREACHABLE implies queue@.contains(t as usize) by {
            if t < j {
                let w = choose|w: int| 0 <= w < q0.len() && q0[w] == t as usize;
                assert(queue@[w] == t as usize);
            } else {
                assert(queue@[q0.len() as int] == j);
            }
        }
        j = j + 1;
    }
    while queue.len() > 0
        invariant
            n == nodes@.len(),
            n == d@.len(),
            nodes_indexed(*g, nodes@, pos@),
            forall|t: int| 0 <= t < queue@.len() ==> #[trigger] queue@[t] < n && d@[queue@[t] as int] < UNREACHABLE,
            forall|j: int|
                0 <= j < n && #[trigger] d@[j] < UNREACHABLE ==> reaches_within(*g, index@, k, nodes@[j], d@[j] as nat),
            forall|j: int| 0 <= j < n && has_keyword(index@, #[trigger] nodes@[j], k) ==> d@[j] == 0,
            forall|a: int, b: int|
                0 <= a < n && 0 <= b < n && #[trigger] graph_edges(*g).contains((nodes@[a], nodes@[b]))
                    && d@[b] < UNREACHABLE && !queue@.contains(b as usize) ==> d@[a] <= d@[b] + 1,
        decreases queue@.len() + 2 * total(d@),
    {
        let ghost bound = queue@.len() + 2 * total(d@);
        let ghost q0 = queue@;
        if let Some(c) = queue.pop_front() {
            assert(q0[0] == c);
            assert(queue@ =~= q0.subrange(1, q0.len() as int));
            assert forall|x: usize| q0.contains(x) && x != c implies queue@.contains(x) by {
                let w = choose|w: int| 0 <= w < q0.len() && q0[w] == x;
                assert(queue@[w - 1] == x);
            }
            let dc = d[c];
            let preds = predecessors(g, nodes[c]);
            let mut i: usize = 0;
            while i < preds.len()
                invariant
                    n == nodes@.len(),
                    n == d@.len(),
                    nodes_indexed(*g, nodes@, pos@),
                    c < n,
                    d@[c as int] == dc,
                    dc < UNREACHABLE,
                    i <= preds@.len(),
                    forall|m: u32| preds@.contains(m) <==> graph_edges(*g).contains((m, nodes@[c as int])),
                    forall|m: u32| preds@.contains(m) ==> graph_nodes(*g).contains(m),
                    forall|t: int| 0 <= t < queue@.len() ==> #[trigger] queue@[t] < n && d@[queue@[t] as int] < UNREACHABLE,
                    forall|j: int|
                        0 <= j < n && #[trigger] d@[j] < UNREACHABLE ==> reaches_within(*g, index@, k, nodes@[j], d@[j] as nat),
                    forall|j: int| 0 <= j < n && has_keyword(index@, #[trigger] nodes@[j], k) ==> d@[j] == 0,
                    forall|a: int, b: int|
                        0 <= a < n && 0 <= b < n && #[trigger] graph_edges(*g).contains((nodes@[a], nodes@[b]))
                            && d@[b] < UNREACHABLE && !queue@.contains(b as usize) && b != c ==> d@[a] <= d@[b] + 1,
                    forall|t: int| 0 <= t < i ==> d@[pos@[#[trigger] preds@[t]] as int] <= dc + 1,
                    queue@.len() + 2 * total(d@) < bound,
                decreases preds@.len() - i,
            {
                let p = preds[i];
                proof {
                    assert(preds@.contains(preds@[i as int]));
                    lemma_place(*g, nodes@, pos@, p);
                }
                let ghost d_before = d@;
                if let Some(ap) = pos.get(&p) {
                    let a = *ap;
                    assert(pos@[p] == a);
                    if dc + 1 < d[a] {
                        let ghost d0 = d@;
                        let ghost q1 = queue@;
                        proof {
                            lemma_total_update(d@, a as int, (dc + 1) as u64);
                            assert(graph_edges(*g).contains((nodes@[a as int], nodes@[c as int])));
                            assert(nodes@.contains(nodes@[c as int]));
                            assert(reaches_within(*g, index@, k, nodes@[c as int], dc as nat));
                        }
                        d.set(a, dc + 1);
                        queue.push_back(a);
                        proof {
                            assert(reaches_within(*g, index@, k, nodes@[a as int], d@[a as int] as nat));
                            assert(queue@[q1.len() as int] == a);
                            assert forall|x: usize| q1.contains(x) implies queue@.contains(x) by {
                                let w = choose|w: int| 0 <= w < q1.len() && q1[w] == x;
                                assert(queue@[w] == x);
                            }
                        }
                    }
                }
                assert forall|t: int| 0 <= t < i + 1 implies d@[pos@[#[trigger] preds@[t]] as int] <= dc + 1 by {
                    assert(preds@.contains(preds@[t]));
                    lemma_place(*g, nodes@, pos@, preds@[t]);
                    assert(d@[pos@[preds@[t]] as int] <= d_before[pos@[preds@[t]] as int]);
                }
                i = i + 1;
            }
            proof {
                lemma_total_nonnegative(d@);
                assert forall|a: int, b: int|
                    0 <= a < n && 0 <= b < n && #[trigger] graph_edges(*g).contains((nodes@[a], nodes@[b]))
                        && d@[b] < UNREACHABLE && !queue@.contains(b as usize) implies d@[a] <= d@[b] + 1 by {
                    if b == c {
                        assert(preds@.contains(nodes@[a]));
                        let t = choose|t: int| 0 <= t < preds@.len() && preds@[t] == nodes@[a];
                        assert(pos@.contains_key(nodes@[a]));
                        assert(d@[pos@[preds@[t]] as int] <= dc + 1);
                    }
                }
            }
        }
    }
    proof {
        assert(queue@.len() == 0);
        assert forall|a: int, b: int|
            0 <= a < n && 0 <= b < n && #[trigger] graph_edges(*g).contains((nodes@[a], nodes@[b]))
                && d@[b] < UNREACHABLE implies d@[a] <= d@[b] + 1 by {
            assert(!queue@.contains(b as usize));
        }
        assert forall|j: int| 0 <= j < nodes@.len() implies is_distance(*g, index@, k, nodes@[j], #[trigger] d@[j]) by {
            assert(nodes@.contains(nodes@[j]));
            assert(pos@.contains_key(nodes@[j]));
            assert forall|m: nat| m < d@[j] implies !#[trigger] reaches_within(*g, index@, k, nodes@[j], m) by {
                if reaches_within(*g, index@, k, nodes@[j], m) {
                    lemma_lower_bound(*g, index@, k, nodes@, pos@, d@, nodes@[j], m);
                }
            }
        }
    }
    d
}

} // verus!
