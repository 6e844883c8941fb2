//! Pareto dominance between distance vectors, and the skyline filter.

use std::cmp::Ordering;
use vstd::prelude::*;

verus! {

/// `a` dominates `b`: both have the same length, no entry of `a` exceeds the
/// matching entry of `b`, and at least one is strictly smaller.
pub open spec fn dominates(a: Seq<u64>, b: Seq<u64>) -> bool {
    &&& a.len() == b.len()
    &&& forall|i: int| 0 <= i < a.len() ==> a[i] <= b[i]
    &&& exists|i: int| 0 <= i < a.len() && a[i] < b[i]
}

/// The dominance relation between two vectors of equal length.
pub open spec fn compare_spec(a: Seq<u64>, b: Seq<u64>) -> Option<Ordering> {
    if a == b {
        Some(Ordering::Equal)
    } else if dominates(a, b) {
        Some(Ordering::Less)
    } else if dominates(b, a) {
        Some(Ordering::Greater)
    } else {
        None
    }
}

/// Compares two distance vectors under dominance: `Less` when `dv1` dominates
/// `dv2`, `Greater` when `dv2` dominates `dv1`, `Equal` when they are the same,
/// and `None` when they are incomparable.
pub fn partial_cmp(dv1: &[u64], dv2: &[u64]) -> (r: Option<Ordering>)
    requires
        dv1@.len() == dv2@.len(),
    ensures
        r == compare_spec(dv1@, dv2@),
{
    let n = dv1.len();
    let mut i: usize = 0;
    while i < n && dv1[i] == dv2[i]
        invariant
            i <= n,
            n == dv1@.len(),
            n == dv2@.len(),
            forall|t: int| 0 <= t < i ==> dv1@[t] == dv2@[t],
        decreases n - i,
    {
        i = i + 1;
    }
    if i == n {
        assert(dv1@ =~= dv2@);
        return Some(Ordering::Equal);
    }
    let less = dv1[i] < dv2[i];
    let mut j: usize = i + 1;
    while j < n
        invariant
            i < j <= n,
            n == dv1@.len(),
            n == dv2@.len(),
            forall|t: int| 0 <= t < i ==> dv1@[t] == dv2@[t],
            dv1@[i as int] != dv2@[i as int],
            less == (dv1@[i as int] < dv2@[i as int]),
            forall|t: int| i < t < j ==> if less { dv1@[t] <= dv2@[t] } else { dv2@[t] <= dv1@[t] },
        decreases n - j,
    {
        if (less && dv1[j] > dv2[j]) || (!less && dv1[j] < dv2[j]) {
            assert(dv1@ != dv2@ && !dominates(dv1@, dv2@) && !dominates(dv2@, dv1@)) by {
                assert(dv1@[i as int] != dv2@[i as int]);
            }
            return None;
        }
        j = j + 1;
    }
    assert(dv1@ != dv2@) by {
        assert(dv1@[i as int] != dv2@[i as int]);
    }
    if less {
        assert(!dominates(dv2@, dv1@));
        Some(Ordering::Less)
    } else {
        assert(!dominates(dv1@, dv2@));
        Some(Ordering::Greater)
    }
}

/// A table of (node, distance vector) rows, each vector seen through its view.
pub open spec fn table_view(t: Seq<(u32, Vec<u64>)>) -> Seq<(u32, Seq<u64>)> {
    t.map_values(|e: (u32, Vec<u64>)| (e.0, e.1@))
}

/// No row of `t` dominates `v`.
pub open spec fn undominated(t: Seq<(u32, Seq<u64>)>, v: Seq<u64>) -> bool {
    forall|j: int| 0 <= j < t.len() ==> !dominates(#[trigger] t[j].1, v)
}

/// The rows of `t` that no row of `t` dominates, in their order in `t`.
pub open spec fn skyline_rows(t: Seq<(u32, Seq<u64>)>) -> Seq<(u32, Seq<u64>)> {
    t.filter(|e: (u32, Seq<u64>)| undominated(t, e.1))
}

/// All vectors of the table have one common length.
pub open spec fn uniform_width(t: Seq<(u32, Vec<u64>)>) -> bool {
    forall|i: int, j: int| 0 <= i < t.len() && 0 <= j < t.len() ==> #[trigger] t[i].1@.len() == #[trigger] t[j].1@.len()
}

/// Keeps the rows whose vector no row of the table dominates.
pub fn skyline(distances: &Vec<(u32, Vec<u64>)>) -> (r: Vec<(u32, Vec<u64>)>)
    requires
        uniform_width(distances@),
    ensures
        table_view(r@) == skyline_rows(table_view(distances@)),
{
    let ghost t = table_view(distances@);
    let ghost pred = |e: (u32, Seq<u64>)| undominated(t, e.1);
    let n = distances.len();
    let mut r: Vec<(u32, Vec<u64>)> = Vec::new();
    let mut u: usize = 0;
    while u < n
        invariant
            u <= n,
            n == distances@.len(),
            t == table_view(distances@),
            pred == (|e: (u32, Seq<u64>)| undominated(t, e.1)),
            uniform_width(distances@),
            table_view(r@) == t.subrange(0, u as int).filter(pred),
        decreases n - u,
    {
        let du = &distances[u].1;
        let mut keep = true;
        let mut v: usize = 0;
        while v < n
            invariant
                v <= n,
                u < n,
                n == distances@.len(),
                t == table_view(distances@),
                uniform_width(distances@),
                du@ == distances@[u as int].1@,
                keep == (forall|j: int| 0 <= j < v ==> !dominates(#[trigger] t[j].1, du@)),
            decreases n - v,
        {
            let dv = &distances[v].1;
            assert(t[v as int].1 == dv@);
            let c = partial_cmp(dv.as_slice(), du.as_slice());
            proof {
                if dominates(dv@, du@) {
                    let w = choose|i: int| 0 <= i < dv@.len() && dv@[i] < du@[i];
                    assert(dv@[w] != du@[w]);
                }
            }
            match c {
                Some(Ordering::Less) => {
                    keep = false;
                },
                _ => {},
            }
            v = v + 1;
        }
        proof {
            reveal(Seq::filter);
            assert(t.subrange(0, u + 1).drop_last() =~= t.subrange(0, u as int));
            assert(t.subrange(0, u + 1).last() == t[u as int]);
            assert(t[u as int].1 == du@);
        }
        if keep {
            let row = (distances[u].0, du.clone());
            assert(row.1@ =~= du@);
            r.push(row);
            assert(table_view(r@) =~= t.subrange(0, u + 1).filter(pred));
        } else {
            assert(table_view(r@) =~= t.subrange(0, u + 1).filter(pred));
        }
        u = u + 1;
    }
    assert(t.subrange(0, n as int) =~= t);
    r
}

} // verus!
