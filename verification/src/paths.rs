//! Paths, reachability and distance in an adjacency model, and what
//! holds of them.

use crate::graph::{adjacent, symmetric};
use vstd::prelude::*;

verus! {

/// `p` is a path: a non-empty sequence of vertices, each adjacent to the
/// next. A vertex may occur more than once.
pub open spec fn is_path(adj: Seq<Seq<usize>>, p: Seq<usize>) -> bool {
    &&& p.len() > 0
    &&& forall|i: int| 0 <= i < p.len() ==> #[trigger] p[i] < adj.len()
    &&& forall|i: int| 0 <= i < p.len() - 1 ==> adjacent(adj, #[trigger] p[i], p[i + 1])
}

/// `p` is a path that starts at `u` and ends at `v`.
pub open spec fn path_between(adj: Seq<Seq<usize>>, p: Seq<usize>, u: usize, v: usize) -> bool {
    &&& is_path(adj, p)
    &&& p.first() == u
    &&& p.last() == v
}

/// Some path of exactly `k` edges leads from `u` to `v`.
pub open spec fn has_path_of_length(adj: Seq<Seq<usize>>, u: usize, v: usize, k: nat) -> bool {
    exists|p: Seq<usize>| #[trigger] path_between(adj, p, u, v) && p.len() == k + 1
}

/// Some path leads from `u` to `v`.
pub open spec fn reachable(adj: Seq<Seq<usize>>, u: usize, v: usize) -> bool {
    exists|k: nat| has_path_of_length(adj, u, v, k)
}

/// `d` is the number of edges on a shortest path from `u` to `v`.
pub open spec fn is_distance(adj: Seq<Seq<usize>>, u: usize, v: usize, d: nat) -> bool {
    &&& has_path_of_length(adj, u, v, d)
    &&& forall|k: nat| k < d ==> !has_path_of_length(adj, u, v, k)
}

/// The number of edges on a shortest path from `u` to `v`; meaningful only
/// where `v` is reachable from `u`.
pub open spec fn distance(adj: Seq<Seq<usize>>, u: usize, v: usize) -> nat {
    choose|d: nat| is_distance(adj, u, v, d)
}

/// The distance from `u` to `v`, or `None` where no path joins them.
pub open spec fn shortest_distance(adj: Seq<Seq<usize>>, u: usize, v: usize) -> Option<nat> {
    if reachable(adj, u, v) {
        Some(distance(adj, u, v))
    } else {
        None
    }
}

/// A vertex alone is a path of no edges.
pub proof fn lemma_trivial_path(adj: Seq<Seq<usize>>, u: usize)
    requires
        u < adj.len(),
    ensures
        path_between(adj, seq![u], u, u),
        has_path_of_length(adj, u, u, 0),
        reachable(adj, u, u),
{
    assert(path_between(adj, seq![u], u, u));
    assert(has_path_of_length(adj, u, u, 0));
}

/// Only vertices of the graph are joined by paths.
pub proof fn lemma_reachable_in_range(adj: Seq<Seq<usize>>, u: usize, v: usize)
    requires
        reachable(adj, u, v),
    ensures
        u < adj.len(),
        v < adj.len(),
{
    let k = choose|k: nat| has_path_of_length(adj, u, v, k);
    let p = choose|p: Seq<usize>| #[trigger] path_between(adj, p, u, v) && p.len() == k + 1;
    assert(p[0] < adj.len());
    assert(p[p.len() - 1] < adj.len());
}

/// A path can be continued along one more edge.
pub proof fn lemma_path_extend(adj: Seq<Seq<usize>>, p: Seq<usize>, u: usize, v: usize, w: usize)
    requires
        path_between(adj, p, u, v),
        adjacent(adj, v, w),
    ensures
        path_between(adj, p.push(w), u, w),
{
    let q = p.push(w);
    assert forall|i: int| 0 <= i < q.len() - 1 implies adjacent(adj, #[trigger] q[i], q[i + 1]) by {
        if i < p.len() - 1 {
            assert(adjacent(adj, p[i], p[i + 1]));
        }
    }
}

/// A path of at least one edge is a shorter path followed by its last edge.
pub proof fn lemma_path_shorten(adj: Seq<Seq<usize>>, p: Seq<usize>, u: usize, v: usize)
    requires
        path_between(adj, p, u, v),
        p.len() > 1,
    ensures
        path_between(adj, p.drop_last(), u, p[p.len() - 2]),
        adjacent(adj, p[p.len() - 2], v),
{
    let q = p.drop_last();
    assert forall|i: int| 0 <= i < q.len() - 1 implies adjacent(adj, #[trigger] q[i], q[i + 1]) by {
        assert(adjacent(adj, p[i], p[i + 1]));
    }
    assert(adjacent(adj, p[p.len() - 2], p[p.len() - 2 + 1]));
}

/// Two paths that meet end to start make one path.
pub proof fn lemma_path_concat(
    adj: Seq<Seq<usize>>,
    p: Seq<usize>,
    q: Seq<usize>,
    u: usize,
    v: usize,
    w: usize,
)
    requires
        path_between(adj, p, u, v),
        path_between(adj, q, v, w),
    ensures
        path_between(adj, p + q.drop_first(), u, w),
        (p + q.drop_first()).len() == p.len() + q.len() - 1,
{
    let r = p + q.drop_first();
    assert forall|i: int| 0 <= i < r.len() - 1 implies adjacent(adj, #[trigger] r[i], r[i + 1]) by {
        if i < p.len() - 1 {
            assert(adjacent(adj, p[i], p[i + 1]));
        } else {
            let j = i - p.len() + 1;
            assert(adjacent(adj, q[j], q[j + 1]));
            assert(r[i + 1] == q[j + 1]);
            if i == p.len() - 1 {
                assert(r[i] == p.last());
            } else {
                assert(r[i] == q[j]);
            }
        }
    }
    assert forall|i: int| 0 <= i < r.len() implies #[trigger] r[i] < adj.len() by {
        if i >= p.len() {
            assert(r[i] == q[i - p.len() + 1]);
        }
    }
}

/// In a symmetric graph a path read backwards is a path.
pub proof fn lemma_path_reverse(adj: Seq<Seq<usize>>, p: Seq<usize>, u: usize, v: usize)
    requires
        symmetric(adj),
        path_between(adj, p, u, v),
    ensures
        path_between(adj, p.reverse(), v, u),
        p.reverse().len() == p.len(),
{
    let r = p.reverse();
    assert forall|i: int| 0 <= i < r.len() - 1 implies adjacent(adj, #[trigger] r[i], r[i + 1]) by {
        let j = p.len() - 2 - i;
        assert(adjacent(adj, p[j], p[j + 1]));
        assert(r[i] == p[j + 1]);
        assert(r[i + 1] == p[j]);
    }
}

/// Among the lengths of the paths from `u` to `v` there is a least one.
pub proof fn lemma_least_length(adj: Seq<Seq<usize>>, u: usize, v: usize, k: nat) -> (d: nat)
    requires
        has_path_of_length(adj, u, v, k),
    ensures
        d <= k,
        is_distance(adj, u, v, d),
    decreases k,
{
    if exists|j: nat| j < k && has_path_of_length(adj, u, v, j) {
        let j = choose|j: nat| j < k && has_path_of_length(adj, u, v, j);
        lemma_least_length(adj, u, v, j)
    } else {
        k
    }
}

/// Where `v` is reachable from `u`, `distance` is the length of a shortest
/// path, and no path is shorter.
pub proof fn lemma_distance_is_least(adj: Seq<Seq<usize>>, u: usize, v: usize)
    requires
        reachable(adj, u, v),
    ensures
        is_distance(adj, u, v, distance(adj, u, v)),
{
    let k = choose|k: nat| has_path_of_length(adj, u, v, k);
    let d = lemma_least_length(adj, u, v, k);
}

/// The distance from a vertex to itself is zero.
pub proof fn lemma_distance_to_self(adj: Seq<Seq<usize>>, a: usize)
    requires
        a < adj.len(),
    ensures
        reachable(adj, a, a),
        distance(adj, a, a) == 0,
{
    lemma_trivial_path(adj, a);
    assert(is_distance(adj, a, a, 0));
    lemma_distance_is_least(adj, a, a);
}

/// In a symmetric graph, the paths from `u` to `v` and those from `v` to `u`
/// have the same lengths.
pub proof fn lemma_lengths_symmetric(adj: Seq<Seq<usize>>, u: usize, v: usize, k: nat)
    requires
        symmetric(adj),
    ensures
        has_path_of_length(adj, u, v, k) == has_path_of_length(adj, v, u, k),
{
    if has_path_of_length(adj, u, v, k) {
        let p = choose|p: Seq<usize>| #[trigger] path_between(adj, p, u, v) && p.len() == k + 1;
        lemma_path_reverse(adj, p, u, v);
    }
    if has_path_of_length(adj, v, u, k) {
        let p = choose|p: Seq<usize>| #[trigger] path_between(adj, p, v, u) && p.len() == k + 1;
        lemma_path_reverse(adj, p, v, u);
    }
}

/// In a symmetric graph, `v` is reachable from `u` exactly when `u` is
/// reachable from `v`, and the distance is the same in both directions.
pub proof fn lemma_distance_symmetric(adj: Seq<Seq<usize>>, u: usize, v: usize)
    requires
        symmetric(adj),
    ensures
        reachable(adj, u, v) == reachable(adj, v, u),
        shortest_distance(adj, u, v) == shortest_distance(adj, v, u),
{
    assert forall|k: nat|
        has_path_of_length(adj, u, v, k) == has_path_of_length(adj, v, u, k) by {
        lemma_lengths_symmetric(adj, u, v, k);
    }
    if reachable(adj, u, v) {
        let k = choose|k: nat| has_path_of_length(adj, u, v, k);
        assert(has_path_of_length(adj, v, u, k));
        lemma_distance_is_least(adj, u, v);
        lemma_distance_is_least(adj, v, u);
    }
}

/// Reachability is transitive, and going by way of `v` is never shorter
/// than the shortest path: the triangle inequality.
pub proof fn lemma_triangle_inequality(adj: Seq<Seq<usize>>, u: usize, v: usize, w: usize)
    requires
        reachable(adj, u, v),
        reachable(adj, v, w),
    ensures
        reachable(adj, u, w),
        distance(adj, u, w) <= distance(adj, u, v) + distance(adj, v, w),
{
    lemma_distance_is_least(adj, u, v);
    lemma_distance_is_least(adj, v, w);
    let a = distance(adj, u, v);
    let b = distance(adj, v, w);
    let p = choose|p: Seq<usize>| #[trigger] path_between(adj, p, u, v) && p.len() == a + 1;
    let q = choose|q: Seq<usize>| #[trigger] path_between(adj, q, v, w) && q.len() == b + 1;
    lemma_path_concat(adj, p, q, u, v, w);
    assert(has_path_of_length(adj, u, w, a + b));
    lemma_distance_is_least(adj, u, w);
}

} // verus!
