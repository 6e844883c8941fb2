//! Properties of the query that relate several functions or hold of all inputs.

use crate::distance::{
    distance, distance_vector, has_keyword, is_distance, lemma_distance_unique,
    lemma_total_nonnegative, reaches_within, total, UNREACHABLE,
};
use crate::dominance::{dominates, skyline_rows, undominated};
use crate::graph::{graph_edges, graph_nodes};
use crate::query::{in_skyline, is_skyline_answer};
use petgraph::graphmap::DiGraphMap;
use vstd::prelude::*;

verus! {

broadcast use vstd::seq_lib::group_filter_ensures;

/// Where `v` reaches a holder of `k` along `n` edges, some value is the
/// distance from `v` to `k`.
proof fn lemma_distance_exists_from(
    g: DiGraphMap<u32, ()>,
    index: Map<u32, Vec<u32>>,
    k: u32,
    v: u32,
    n: nat,
)
    requires
        n < UNREACHABLE,
        reaches_within(g, index, k, v, n),
    ensures
        is_distance(g, index, k, v, distance(g, index, k, v)),
    decreases n,
{
    if exists|m: nat| m < n && #[trigger] reaches_within(g, index, k, v, m) {
        let m = choose|m: nat| m < n && #[trigger] reaches_within(g, index, k, v, m);
        lemma_distance_exists_from(g, index, k, v, m);
    } else {
        assert(is_distance(g, index, k, v, n as u64));
    }
}

/// Every node has a distance to every keyword.
proof fn lemma_distance_exists(g: DiGraphMap<u32, ()>, index: Map<u32, Vec<u32>>, k: u32, v: u32)
    ensures
        is_distance(g, index, k, v, distance(g, index, k, v)),
{
    if exists|m: nat| m < UNREACHABLE && #[trigger] reaches_within(g, index, k, v, m) {
        let m = choose|m: nat| m < UNREACHABLE && #[trigger] reaches_within(g, index, k, v, m);
        lemma_distance_exists_from(g, index, k, v, m);
    } else {
        assert(is_distance(g, index, k, v, UNREACHABLE));
    }
}

/// `w` is a walk along edges of the graph, through nodes of the graph after
/// its first, that ends at a node carrying `k`.
spec fn is_walk_to(g: DiGraphMap<u32, ()>, index: Map<u32, Vec<u32>>, k: u32, w: Seq<u32>) -> bool {
    &&& w.len() > 0
    &&& has_keyword(index, w.last(), k)
    &&& forall|i: int|
        0 <= i < w.len() - 1 ==> #[trigger] graph_edges(g).contains((w[i], w[i + 1])) && graph_nodes(g).contains(
            w[i + 1],
        )
}

proof fn lemma_walk_from_reach(g: DiGraphMap<u32, ()>, index: Map<u32, Vec<u32>>, k: u32, v: u32, n: nat)
    requires
        reaches_within(g, index, k, v, n),
    ensures
        exists|w: Seq<u32>| #[trigger] is_walk_to(g, index, k, w) && w[0] == v && w.len() <= n + 1,
    decreases n,
{
    if has_keyword(index, v, k) {
        let w = seq![v];
        assert(is_walk_to(g, index, k, w));
    } else {
        let x = choose|x: u32|
            #[trigger] graph_edges(g).contains((v, x)) && graph_nodes(g).contains(x)
                && reaches_within(g, index, k, x, (n - 1) as nat);
        lemma_walk_from_reach(g, index, k, x, (n - 1) as nat);
        let w1 = choose|w: Seq<u32>| #[trigger] is_walk_to(g, index, k, w) && w[0] == x && w.len() <= n;
        let w = seq![v] + w1;
        assert forall|i: int| 0 <= i < w.len() - 1 implies #[trigger] graph_edges(g).contains((w[i], w[i + 1]))
            && graph_nodes(g).contains(w[i + 1]) by {
            if i > 0 {
                assert(w[i] == w1[i - 1] && w[i + 1] == w1[i]);
                assert(graph_edges(g).contains((w1[i - 1], w1[i - 1 + 1])));
            }
        }
        assert(w.last() == w1.last());
        assert(is_walk_to(g, index, k, w));
    }
}

proof fn lemma_reach_from_walk(g: DiGraphMap<u32, ()>, index: Map<u32, Vec<u32>>, k: u32, w: Seq<u32>)
    requires
        is_walk_to(g, index, k, w),
    ensures
        reaches_within(g, index, k, w[0], (w.len() - 1) as nat),
    decreases w.len(),
{
    if w.len() > 1 {
        let rest = w.drop_first();
        assert forall|i: int| 0 <= i < rest.len() - 1 implies #[trigger] graph_edges(g).contains(
            (rest[i], rest[i + 1]),
        ) && graph_nodes(g).contains(rest[i + 1]) by {
            assert(graph_edges(g).contains((w[i + 1], w[i + 1 + 1])));
        }
        lemma_reach_from_walk(g, index, k, rest);
        assert(graph_edges(g).contains((w[0int], w[0int + 1])));
    }
}

/// Cutting out the part of a walk between two visits of one node leaves a walk.
proof fn lemma_shortcut(g: DiGraphMap<u32, ()>, index: Map<u32, Vec<u32>>, k: u32, w: Seq<u32>, i: int, j: int)
    requires
        is_walk_to(g, index, k, w),
        0 <= i < j < w.len(),
        w[i] == w[j],
    ensures
        is_walk_to(g, index, k, w.subrange(0, i) + w.subrange(j, w.len() as int)),
        (w.subrange(0, i) + w.subrange(j, w.len() as int))[0] == w[0],
        (w.subrange(0, i) + w.subrange(j, w.len() as int)).len() < w.len(),
{
    let s = w.subrange(0, i) + w.subrange(j, w.len() as int);
    assert forall|t: int| 0 <= t < s.len() - 1 implies #[trigger] graph_edges(g).contains((s[t], s[t + 1]))
        && graph_nodes(g).contains(s[t + 1]) by {
        if t < i - 1 {
            assert(graph_edges(g).contains((w[t], w[t + 1])));
        } else if t == i - 1 {
            assert(graph_edges(g).contains((w[t], w[t + 1])));
            assert(s[t + 1] == w[j]);
        } else {
            let u = t - i + j;
            assert(s[t] == w[u] && s[t + 1] == w[u + 1]);
            assert(graph_edges(g).contains((w[u], w[u + 1])));
        }
    }
    assert(s.last() == w.last());
}

/// A node that reaches a holder of `k` at all does so by a least number of edges.
proof fn lemma_least_reach(g: DiGraphMap<u32, ()>, index: Map<u32, Vec<u32>>, k: u32, v: u32, n: nat)
    requires
        reaches_within(g, index, k, v, n),
    ensures
        exists|m: nat|
            m <= n && #[trigger] reaches_within(g, index, k, v, m) && forall|l: nat|
                l < m ==> !#[trigger] reaches_within(g, index, k, v, l),
    decreases n,
{
    if exists|l: nat| l < n && #[trigger] reaches_within(g, index, k, v, l) {
        let l = choose|l: nat| l < n && #[trigger] reaches_within(g, index, k, v, l);
        lemma_least_reach(g, index, k, v, l);
    } else {
        assert(reaches_within(g, index, k, v, n));
    }
}

/// A node of a finite graph that reaches a holder of `k` does so by fewer
/// edges than the graph has nodes.
proof fn lemma_short_reach(g: DiGraphMap<u32, ()>, index: Map<u32, Vec<u32>>, k: u32, v: u32, n: nat)
    requires
        graph_nodes(g).finite(),
        graph_nodes(g).contains(v),
        reaches_within(g, index, k, v, n),
    ensures
        exists|m: nat| m < graph_nodes(g).len() && #[trigger] reaches_within(g, index, k, v, m),
{
    lemma_least_reach(g, index, k, v, n);
    let m = choose|m: nat|
        m <= n && #[trigger] reaches_within(g, index, k, v, m) && forall|l: nat|
            l < m ==> !#[trigger] reaches_within(g, index, k, v, l);
    lemma_walk_from_reach(g, index, k, v, m);
    let w = choose|w: Seq<u32>| #[trigger] is_walk_to(g, index, k, w) && w[0] == v && w.len() <= m + 1;
    lemma_reach_from_walk(g, index, k, w);
    assert(w.no_duplicates()) by {
        assert forall|i: int, j: int| 0 <= i < w.len() && 0 <= j < w.len() && i != j implies w[i] != w[j] by {
            if w[i] == w[j] {
                let (a, b) = if i < j { (i, j) } else { (j, i) };
                lemma_shortcut(g, index, k, w, a, b);
                let s = w.subrange(0, a) + w.subrange(b, w.len() as int);
                lemma_reach_from_walk(g, index, k, s);
                assert(reaches_within(g, index, k, v, (s.len() - 1) as nat));
            }
        }
    }
    assert(w.to_set().subset_of(graph_nodes(g))) by {
        assert forall|x: u32| w.to_set().contains(x) implies graph_nodes(g).contains(x) by {
            let i = choose|i: int| 0 <= i < w.len() && w[i] == x;
            if i > 0 {
                assert(graph_edges(g).contains((w[i - 1], w[i - 1 + 1])));
            }
        }
    }
    w.unique_seq_to_set();
    vstd::set_lib::lemma_len_subset(w.to_set(), graph_nodes(g));
    assert(reaches_within(g, index, k, v, (w.len() - 1) as nat));
}

/// The distance from a node `v` to `k` is the sentinel exactly when no
/// directed path leads from `v` to a node carrying `k`; otherwise it is the
/// length of the shortest such path. The graph has finitely many nodes, fewer
/// than the sentinel's value.
pub proof fn law_distance_is_shortest_path(
    g: DiGraphMap<u32, ()>,
    index: Map<u32, Vec<u32>>,
    k: u32,
    v: u32,
)
    requires
        graph_nodes(g).finite(),
        graph_nodes(g).len() < UNREACHABLE,
        graph_nodes(g).contains(v),
    ensures
        distance(g, index, k, v) == UNREACHABLE <==> forall|n: nat| !#[trigger] reaches_within(g, index, k, v, n),
        distance(g, index, k, v) < UNREACHABLE ==> reaches_within(g, index, k, v, distance(g, index, k, v) as nat)
            && forall|m: nat| m < distance(g, index, k, v) ==> !#[trigger] reaches_within(g, index, k, v, m),
{
    lemma_distance_exists(g, index, k, v);
    let d = distance(g, index, k, v);
    if d < UNREACHABLE {
        assert(reaches_within(g, index, k, v, d as nat));
    } else if exists|n: nat| #[trigger] reaches_within(g, index, k, v, n) {
        let n = choose|n: nat| #[trigger] reaches_within(g, index, k, v, n);
        lemma_short_reach(g, index, k, v, n);
    }
}

/// A keyword that no node carries is out of reach of every node.
pub proof fn law_unmatched_keyword_unreachable(
    g: DiGraphMap<u32, ()>,
    index: Map<u32, Vec<u32>>,
    k: u32,
    v: u32,
)
    requires
        forall|u: u32| !#[trigger] has_keyword(index, u, k),
    ensures
        distance(g, index, k, v) == UNREACHABLE,
{
    assert forall|u: u32, n: nat| !#[trigger] reaches_within(g, index, k, u, n) by {
        lemma_never_reaches(g, index, k, u, n);
    }
    lemma_distance_unique(g, index, k, v, UNREACHABLE);
}

proof fn lemma_never_reaches(g: DiGraphMap<u32, ()>, index: Map<u32, Vec<u32>>, k: u32, u: u32, n: nat)
    requires
        forall|u: u32| !#[trigger] has_keyword(index, u, k),
    ensures
        !reaches_within(g, index, k, u, n),
    decreases n,
{
    assert(!has_keyword(index, u, k));
    if n > 0 && reaches_within(g, index, k, u, n) {
        let w = choose|w: u32|
            #[trigger] graph_edges(g).contains((u, w)) && graph_nodes(g).contains(w)
                && reaches_within(g, index, k, w, (n - 1) as nat);
        lemma_never_reaches(g, index, k, w, (n - 1) as nat);
    }
}

/// When the only query keyword is carried by no node, every node of the graph
/// is in the skyline: all vectors tie at the sentinel.
pub proof fn law_unmatched_single_keyword_keeps_all(
    g: DiGraphMap<u32, ()>,
    index: Map<u32, Vec<u32>>,
    k: u32,
    v: u32,
)
    requires
        forall|u: u32| !#[trigger] has_keyword(index, u, k),
        graph_nodes(g).contains(v),
    ensures
        in_skyline(g, index, seq![k], v),
{
    assert forall|u: u32| graph_nodes(g).contains(u) implies !dominates(
        #[trigger] distance_vector(g, index, seq![k], u),
        distance_vector(g, index, seq![k], v),
    ) by {
        law_unmatched_keyword_unreachable(g, index, k, u);
        law_unmatched_keyword_unreachable(g, index, k, v);
        let a = distance_vector(g, index, seq![k], u);
        let b = distance_vector(g, index, seq![k], v);
        assert(a[0] == b[0]);
    }
}

/// With one query keyword, the skyline is exactly the set of nodes at the
/// least distance to it.
pub proof fn law_single_keyword_is_argmin(
    g: DiGraphMap<u32, ()>,
    index: Map<u32, Vec<u32>>,
    k: u32,
    v: u32,
)
    ensures
        in_skyline(g, index, seq![k], v) <==> graph_nodes(g).contains(v) && forall|u: u32|
            graph_nodes(g).contains(u) ==> distance(g, index, k, v) <= #[trigger] distance(g, index, k, u),
{
    let kw = seq![k];
    assert forall|u: u32|
        dominates(#[trigger] distance_vector(g, index, kw, u), distance_vector(g, index, kw, v))
            <==> distance(g, index, k, u) < distance(g, index, k, v) by {
        let a = distance_vector(g, index, kw, u);
        let b = distance_vector(g, index, kw, v);
        assert(a.len() == 1 && b.len() == 1);
        assert(a[0] == distance(g, index, k, u));
        assert(b[0] == distance(g, index, k, v));
        if a[0] < b[0] {
            assert(a[0] < b[0]);
        }
    }
    if in_skyline(g, index, kw, v) {
        assert forall|u: u32| graph_nodes(g).contains(u) implies distance(g, index, k, v) <= #[trigger] distance(
            g,
            index,
            k,
            u,
        ) by {
            assert(!dominates(distance_vector(g, index, kw, u), distance_vector(g, index, kw, v)));
        }
    }
    if graph_nodes(g).contains(v) && forall|u: u32|
        graph_nodes(g).contains(u) ==> distance(g, index, k, v) <= #[trigger] distance(g, index, k, u) {
        assert forall|u: u32| graph_nodes(g).contains(u) implies !dominates(
            #[trigger] distance_vector(g, index, kw, u),
            distance_vector(g, index, kw, v),
        ) by {
            assert(distance(g, index, k, v) <= distance(g, index, k, u));
        }
    }
}

/// Dominance is transitive.
proof fn lemma_dominates_transitive(a: Seq<u64>, b: Seq<u64>, c: Seq<u64>)
    requires
        dominates(a, b),
        dominates(b, c),
    ensures
        dominates(a, c),
{
    let i = choose|i: int| 0 <= i < a.len() && a[i] < b[i];
    assert(b[i] <= c[i]);
}

/// A dominating vector has the smaller sum.
proof fn lemma_dominates_smaller_total(a: Seq<u64>, b: Seq<u64>)
    requires
        a.len() == b.len(),
        forall|i: int| 0 <= i < a.len() ==> a[i] <= b[i],
    ensures
        total(a) <= total(b),
        (exists|i: int| 0 <= i < a.len() && a[i] < b[i]) ==> total(a) < total(b),
    decreases a.len(),
{
    if a.len() > 0 {
        lemma_dominates_smaller_total(a.drop_last(), b.drop_last());
        if exists|i: int| 0 <= i < a.len() && a[i] < b[i] {
            let i = choose|i: int| 0 <= i < a.len() && a[i] < b[i];
            if i < a.len() - 1 {
                assert(a.drop_last()[i] < b.drop_last()[i]);
            }
        }
    }
}

/// A vector that some row dominates is dominated by a row of the skyline.
proof fn lemma_dominated_by_skyline(t: Seq<(u32, Seq<u64>)>, x: Seq<u64>)
    requires
        !undominated(t, x),
    ensures
        exists|i: int| 0 <= i < skyline_rows(t).len() && dominates(#[trigger] skyline_rows(t)[i].1, x),
    decreases total(x),
{
    let pred = |e: (u32, Seq<u64>)| undominated(t, e.1);
    let j = choose|j: int| 0 <= j < t.len() && dominates(#[trigger] t[j].1, x);
    lemma_total_nonnegative(t[j].1);
    lemma_dominates_smaller_total(t[j].1, x);
    if undominated(t, t[j].1) {
        assert(t.filter(pred).contains(t[j]));
        let i = choose|i: int| 0 <= i < t.filter(pred).len() && t.filter(pred)[i] == t[j];
        assert(dominates(skyline_rows(t)[i].1, x));
    } else {
        lemma_dominated_by_skyline(t, t[j].1);
        let i = choose|i: int| 0 <= i < skyline_rows(t).len() && dominates(#[trigger] skyline_rows(t)[i].1, t[j].1);
        lemma_dominates_transitive(skyline_rows(t)[i].1, t[j].1, x);
    }
}

/// The skyline is free of dominance: no row of it dominates another; every
/// row left out is dominated by a row of the skyline; and a non-empty table
/// has a non-empty skyline.
pub proof fn law_skyline_dominance_free_and_complete(t: Seq<(u32, Seq<u64>)>)
    ensures
        forall|i: int, j: int|
            0 <= i < skyline_rows(t).len() && 0 <= j < skyline_rows(t).len() ==> !dominates(
                #[trigger] skyline_rows(t)[i].1,
                #[trigger] skyline_rows(t)[j].1,
            ),
        forall|j: int|
            0 <= j < t.len() && !skyline_rows(t).contains(#[trigger] t[j]) ==> exists|i: int|
                0 <= i < skyline_rows(t).len() && dominates(#[trigger] skyline_rows(t)[i].1, t[j].1),
        t.len() > 0 ==> skyline_rows(t).len() > 0,
{
    let pred = |e: (u32, Seq<u64>)| undominated(t, e.1);
    let s = skyline_rows(t);
    assert forall|i: int, j: int| 0 <= i < s.len() && 0 <= j < s.len() implies !dominates(
        #[trigger] s[i].1,
        #[trigger] s[j].1,
    ) by {
        assert(pred(s[j]));
        assert(s.contains(s[i]));
        t.lemma_filter_contains_rev(pred, s[i]);
        let w = choose|w: int| 0 <= w < t.len() && t[w] == s[i];
        assert(!dominates(t[w].1, s[j].1));
    }
    assert forall|j: int| 0 <= j < t.len() && !s.contains(#[trigger] t[j]) implies exists|i: int|
        0 <= i < s.len() && dominates(#[trigger] s[i].1, t[j].1) by {
        if undominated(t, t[j].1) {
            assert(s.contains(t[j]));
        }
        lemma_dominated_by_skyline(t, t[j].1);
    }
    if t.len() > 0 {
        if !s.contains(t[0]) {
            lemma_dominated_by_skyline(t, t[0].1);
        }
    }
}

/// A node of the graph outside the skyline is dominated by the vector of a
/// row of any answer.
proof fn lemma_node_dominated_by_answer(
    g: DiGraphMap<u32, ()>,
    index: Map<u32, Vec<u32>>,
    keywords: Seq<u32>,
    t: Seq<(u32, Seq<u64>)>,
    v: u32,
)
    requires
        is_skyline_answer(g, index, keywords, t),
        graph_nodes(g).contains(v),
        !in_skyline(g, index, keywords, v),
    ensures
        exists|i: int| 0 <= i < t.len() && dominates(#[trigger] t[i].1, distance_vector(g, index, keywords, v)),
    decreases total(distance_vector(g, index, keywords, v)),
{
    let dv = distance_vector(g, index, keywords, v);
    let u = choose|u: u32|
        graph_nodes(g).contains(u) && dominates(#[trigger] distance_vector(g, index, keywords, u), dv);
    let du = distance_vector(g, index, keywords, u);
    lemma_total_nonnegative(du);
    lemma_dominates_smaller_total(du, dv);
    if in_skyline(g, index, keywords, u) {
        let i = choose|i: int| 0 <= i < t.len() && (#[trigger] t[i]).0 == u;
        assert(dominates(t[i].1, dv));
    } else {
        lemma_node_dominated_by_answer(g, index, keywords, t, u);
        let i = choose|i: int| 0 <= i < t.len() && dominates(#[trigger] t[i].1, du);
        lemma_dominates_transitive(t[i].1, du, dv);
    }
}

/// In an answer to a query, no row's vector dominates another's, and every
/// node of the graph that has no row is dominated by the vector of some row.
pub proof fn law_answer_dominance_free_and_complete(
    g: DiGraphMap<u32, ()>,
    index: Map<u32, Vec<u32>>,
    keywords: Seq<u32>,
    t: Seq<(u32, Seq<u64>)>,
    v: u32,
)
    requires
        is_skyline_answer(g, index, keywords, t),
    ensures
        forall|i: int, j: int|
            0 <= i < t.len() && 0 <= j < t.len() ==> !dominates(#[trigger] t[i].1, #[trigger] t[j].1),
        graph_nodes(g).contains(v) && (forall|i: int| 0 <= i < t.len() ==> (#[trigger] t[i]).0 != v)
            ==> exists|i: int| 0 <= i < t.len() && dominates(#[trigger] t[i].1, distance_vector(g, index, keywords, v)),
{
    assert forall|i: int, j: int| 0 <= i < t.len() && 0 <= j < t.len() implies !dominates(
        #[trigger] t[i].1,
        #[trigger] t[j].1,
    ) by {
        assert(in_skyline(g, index, keywords, t[j].0));
        assert(in_skyline(g, index, keywords, t[i].0));
        assert(!dominates(distance_vector(g, index, keywords, t[i].0), distance_vector(g, index, keywords, t[j].0)));
    }
    if graph_nodes(g).contains(v) && (forall|i: int| 0 <= i < t.len() ==> (#[trigger] t[i]).0 != v) {
        if in_skyline(g, index, keywords, v) {
            let i = choose|i: int| 0 <= i < t.len() && (#[trigger] t[i]).0 == v;
            assert(false);
        }
        lemma_node_dominated_by_answer(g, index, keywords, t, v);
    }
}

/// Two answers to one query on one graph and index hold the same rows: the
/// answer does not depend on the run.
pub proof fn law_answer_is_determined(
    g: DiGraphMap<u32, ()>,
    index: Map<u32, Vec<u32>>,
    keywords: Seq<u32>,
    r1: Seq<(u32, Seq<u64>)>,
    r2: Seq<(u32, Seq<u64>)>,
)
    requires
        is_skyline_answer(g, index, keywords, r1),
        is_skyline_answer(g, index, keywords, r2),
    ensures
        r1.to_set() == r2.to_set(),
        r1.len() == r2.len(),
{
    assert forall|e: (u32, Seq<u64>)| r1.contains(e) implies r2.contains(e) by {
        let i = choose|i: int| 0 <= i < r1.len() && r1[i] == e;
        assert(in_skyline(g, index, keywords, r1[i].0));
        let j = choose|j: int| 0 <= j < r2.len() && (#[trigger] r2[j]).0 == e.0;
        assert(r2[j] == e);
    }
    assert forall|e: (u32, Seq<u64>)| r2.contains(e) implies r1.contains(e) by {
        let i = choose|i: int| 0 <= i < r2.len() && r2[i] == e;
        assert(in_skyline(g, index, keywords, r2[i].0));
        let j = choose|j: int| 0 <= j < r1.len() && (#[trigger] r1[j]).0 == e.0;
        assert(r1[j] == e);
    }
    assert(r1.to_set() =~= r2.to_set());
    lemma_same_rows_same_length(r1, r2);
}

/// Two sequences without repeated elements and with the same elements have one length.
proof fn lemma_same_rows_same_length(r1: Seq<(u32, Seq<u64>)>, r2: Seq<(u32, Seq<u64>)>)
    requires
        forall|i: int, j: int| 0 <= i < j < r1.len() ==> (#[trigger] r1[i]).0 != (#[trigger] r1[j]).0,
        forall|i: int, j: int| 0 <= i < j < r2.len() ==> (#[trigger] r2[i]).0 != (#[trigger] r2[j]).0,
        r1.to_set() == r2.to_set(),
    ensures
        r1.len() == r2.len(),
{
    assert(r1.no_duplicates()) by {
        assert forall|i: int, j: int| 0 <= i < r1.len() && 0 <= j < r1.len() && i != j implies r1[i] != r1[j] by {
            if i < j {
                assert(r1[i].0 != r1[j].0);
            } else {
                assert(r1[j].0 != r1[i].0);
            }
        }
    }
    assert(r2.no_duplicates()) by {
        assert forall|i: int, j: int| 0 <= i < r2.len() && 0 <= j < r2.len() && i != j implies r2[i] != r2[j] by {
            if i < j {
                assert(r2[i].0 != r2[j].0);
            } else {
                assert(r2[j].0 != r2[i].0);
            }
        }
    }
    r1.unique_seq_to_set();
    r2.unique_seq_to_set();
}

} // verus!
