//! Shortest-path distances by breadth-first search.

use crate::counting::lemma_distinct_bounded;
use crate::graph::{adjacent, Graph};
use crate::paths::{
    has_path_of_length, is_distance, is_path, lemma_distance_is_least, lemma_distance_symmetric,
    lemma_distance_to_self, lemma_path_extend, lemma_path_shorten, lemma_reachable_in_range,
    lemma_triangle_inequality, path_between, reachable, shortest_distance,
};
use std::collections::VecDeque;
use vstd::prelude::*;

verus! {

/// What `shortest_path` returns where no path joins the two vertices.
pub const NO_PATH: usize = usize::MAX;

/// What `shortest_path` returns for `start` and `end`: their distance, or
/// `NO_PATH` where no path joins them.
pub open spec fn shortest_path_length(adj: Seq<Seq<usize>>, start: usize, end: usize) -> int {
    match shortest_distance(adj, start, end) {
        Some(d) => d as int,
        None => NO_PATH as int,
    }
}

/// The shortest path from a vertex to itself has no edges.
pub proof fn lemma_shortest_path_to_self(graph: Graph, a: usize)
    requires
        graph.wf(),
        a < graph@.len(),
    ensures
        shortest_path_length(graph@, a, a) == 0,
{
    lemma_distance_to_self(graph@, a);
}

/// The shortest path from `u` to `v` is as long as the one from `v` to `u`,
/// and where there is none one way there is none the other way.
pub proof fn lemma_shortest_path_symmetric(graph: Graph, u: usize, v: usize)
    requires
        graph.wf(),
    ensures
        shortest_path_length(graph@, u, v) == shortest_path_length(graph@, v, u),
{
    lemma_distance_symmetric(graph@, u, v);
}

/// The triangle inequality: where paths join `u` to `v` and `v` to `w`, a
/// path joins `u` to `w`, and the shortest one is no longer than the
/// shortest way through `v`.
pub proof fn lemma_shortest_path_triangle(graph: Graph, u: usize, v: usize, w: usize)
    requires
        graph.wf(),
        reachable(graph@, u, v),
        reachable(graph@, v, w),
    ensures
        reachable(graph@, u, w),
        shortest_path_length(graph@, u, w) <= shortest_path_length(graph@, u, v)
            + shortest_path_length(graph@, v, w),
{
    lemma_triangle_inequality(graph@, u, v, w);
}

/// `w` has been discovered, at most one edge farther out than `u`.
spec fn settled(order: Seq<usize>, dist: Seq<usize>, u: usize, w: usize) -> bool {
    &&& order.contains(w)
    &&& dist[w as int] <= dist[u as int] + 1
}

/// The state of a breadth-first search from `start`: `order` lists the
/// vertices discovered so far, in the order of their discovery; the first
/// `head` of them have had all their neighbours looked at; `dist` holds the
/// length of a path from `start` to each of them.
#[verifier::opaque]
spec fn search_inv(
    adj: Seq<Seq<usize>>,
    start: usize,
    order: Seq<usize>,
    head: int,
    dist: Seq<usize>,
    visited: Seq<bool>,
) -> bool {
    &&& dist.len() == adj.len()
    &&& visited.len() == adj.len()
    &&& 0 <= head <= order.len()
    &&& order.len() > 0
    &&& order[0] == start
    &&& order.no_duplicates()
    &&& forall|i: int| 0 <= i < order.len() ==> #[trigger] order[i] < adj.len()
    &&& forall|v: usize| v < adj.len() ==> (#[trigger] visited[v as int] <==> order.contains(v))
    &&& forall|i: int| 0 <= i < order.len() ==> dist[#[trigger] order[i] as int] <= i
    &&& forall|i: int|
        0 <= i < order.len() ==> has_path_of_length(
            adj,
            start,
            #[trigger] order[i],
            dist[order[i] as int] as nat,
        )
    &&& forall|i: int, j: int|
        0 <= i <= j < order.len() ==> dist[#[trigger] order[i] as int] <= dist[#[trigger] order[j] as int]
    &&& head < order.len() ==> dist[order.last() as int] <= dist[order[head] as int] + 1
    &&& forall|i: int, w: usize|
        0 <= i < head && #[trigger] adjacent(adj, order[i], w) ==> settled(
            order,
            dist,
            order[i],
            w,
        )
}

/// The search state while the neighbours of the vertex at the head are
/// looked at: the first `idx` of them have been dealt with.
#[verifier::opaque]
spec fn scan_inv(
    adj: Seq<Seq<usize>>,
    start: usize,
    order: Seq<usize>,
    head: int,
    dist: Seq<usize>,
    visited: Seq<bool>,
    idx: int,
) -> bool {
    &&& search_inv(adj, start, order, head, dist, visited)
    &&& head < order.len()
    &&& 0 <= idx <= adj[order[head] as int].len()
    &&& forall|i: int|
        0 <= i < idx ==> settled(order, dist, order[head], #[trigger] adj[order[head] as int][i])
}

/// A search that has discovered only its start vertex.
proof fn lemma_search_start(
    adj: Seq<Seq<usize>>,
    start: usize,
    dist: Seq<usize>,
    visited: Seq<bool>,
)
    requires
        start < adj.len(),
        dist.len() == adj.len(),
        visited.len() == adj.len(),
        dist[start as int] == 0,
        forall|v: int| 0 <= v < adj.len() ==> (#[trigger] visited[v] <==> v == start),
    ensures
        search_inv(adj, start, seq![start], 0, dist, visited),
{
    reveal(search_inv);
    let order = seq![start];
    crate::paths::lemma_trivial_path(adj, start);
    assert forall|v: usize| v < adj.len() implies (#[trigger] visited[v as int] <==> order.contains(
        v,
    )) by {
        if v == start {
            assert(order[0] == start);
        }
    }
}

/// What the search state says of the vertex at the head of the queue.
proof fn lemma_head_bounds(
    adj: Seq<Seq<usize>>,
    start: usize,
    order: Seq<usize>,
    head: int,
    dist: Seq<usize>,
    visited: Seq<bool>,
)
    requires
        search_inv(adj, start, order, head, dist, visited),
        head < order.len(),
    ensures
        dist.len() == adj.len(),
        visited.len() == adj.len(),
        0 <= head < adj.len(),
        order[head] < adj.len(),
        dist[order[head] as int] <= head,
        visited[order[head] as int],
        scan_inv(adj, start, order, head, dist, visited, 0),
{
    reveal(search_inv);
    reveal(scan_inv);
    assert(order.contains(order[head]));
    lemma_distinct_bounded(order, adj.len());
}

/// Discovering an unvisited neighbour `w` of the vertex at the head keeps
/// the search state intact.
proof fn lemma_discover(
    adj: Seq<Seq<usize>>,
    start: usize,
    order: Seq<usize>,
    head: int,
    dist: Seq<usize>,
    visited: Seq<bool>,
    w: usize,
)
    requires
        search_inv(adj, start, order, head, dist, visited),
        head < order.len(),
        adjacent(adj, order[head], w),
        !visited[w as int],
        dist[order[head] as int] + 1 <= usize::MAX,
    ensures
        search_inv(
            adj,
            start,
            order.push(w),
            head,
            dist.update(w as int, (dist[order[head] as int] + 1) as usize),
            visited.update(w as int, true),
        ),
        !order.contains(w),
{
    reveal(search_inv);
    let current = order[head];
    let order2 = order.push(w);
    let dist2 = dist.update(w as int, (dist[current as int] + 1) as usize);
    let visited2 = visited.update(w as int, true);
    assert(!order.contains(w));
    assert forall|i: int| 0 <= i < order.len() implies order[i] != w && dist2[order[i] as int]
        == dist[order[i] as int] && order2[i] == order[i] by {
        assert(order.contains(order[i]));
    }
    assert(order2.no_duplicates());
    assert forall|v: usize| v < adj.len() implies (#[trigger] visited2[v as int]
        <==> order2.contains(v)) by {
        if v == w {
            assert(order2[order.len() as int] == w);
        } else if order.contains(v) {
            let i = choose|i: int| 0 <= i < order.len() && order[i] == v;
            assert(order2[i] == v);
        } else if order2.contains(v) {
            let i = choose|i: int| 0 <= i < order2.len() && order2[i] == v;
            assert(order[i] == v);
        }
    }
    assert forall|i: int| 0 <= i < order2.len() implies has_path_of_length(
        adj,
        start,
        #[trigger] order2[i],
        dist2[order2[i] as int] as nat,
    ) by {
        if i < order.len() {
            assert(has_path_of_length(adj, start, order[i], dist[order[i] as int] as nat));
        } else {
            let k = dist[current as int] as nat;
            assert(has_path_of_length(adj, start, order[head], k));
            let p = choose|p: Seq<usize>| #[trigger]
                path_between(adj, p, start, current) && p.len() == k + 1;
            lemma_path_extend(adj, p, start, current, w);
            assert(path_between(adj, p.push(w), start, w));
        }
    }
    assert forall|i: int, j: int| 0 <= i <= j < order2.len() implies dist2[#[trigger] order2[i] as int]
        <= dist2[#[trigger] order2[j] as int] by {
        if j < order.len() {
            assert(dist[order[i] as int] <= dist[order[j] as int]);
        } else if i < order.len() {
            assert(dist[order[i] as int] <= dist[order[order.len() - 1] as int]);
        }
    }
    assert forall|i: int, x: usize| 0 <= i < head && #[trigger] adjacent(adj, order2[i], x) implies settled(
        order2,
        dist2,
        order2[i],
        x,
    ) by {
        assert(adjacent(adj, order[i], x));
        assert(settled(order, dist, order[i], x));
        let j = choose|j: int| 0 <= j < order.len() && order[j] == x;
        assert(order2[j] == x);
    }
    assert forall|i: int| 0 <= i < order2.len() implies dist2[#[trigger] order2[i] as int] <= i by {
        if i < order.len() {
            assert(dist[order[i] as int] <= i);
        } else {
            assert(dist[order[head] as int] <= head);
        }
    }
}

/// Looking at the next neighbour of the vertex at the head, where that
/// neighbour has not been visited: it joins the order, one edge farther out.
proof fn lemma_scan_new(
    adj: Seq<Seq<usize>>,
    start: usize,
    order: Seq<usize>,
    head: int,
    dist: Seq<usize>,
    visited: Seq<bool>,
    idx: int,
)
    requires
        scan_inv(adj, start, order, head, dist, visited, idx),
        dist.len() == adj.len(),
        visited.len() == adj.len(),
        0 <= head < order.len(),
        order[head] < adj.len(),
        0 <= idx < adj[order[head] as int].len(),
        adj[order[head] as int][idx] < adj.len(),
        !visited[adj[order[head] as int][idx] as int],
        dist[order[head] as int] + 1 <= usize::MAX,
    ensures
        scan_inv(
            adj,
            start,
            order.push(adj[order[head] as int][idx]),
            head,
            dist.update(
                adj[order[head] as int][idx] as int,
                (dist[order[head] as int] + 1) as usize,
            ),
            visited.update(adj[order[head] as int][idx] as int, true),
            idx + 1,
        ),
{
    reveal(scan_inv);
    let current = order[head];
    let w = adj[current as int][idx];
    let order2 = order.push(w);
    let dist2 = dist.update(w as int, (dist[current as int] + 1) as usize);
    assert(adjacent(adj, current, w));
    lemma_discover(adj, start, order, head, dist, visited, w);
    assert(order.contains(current));
    assert forall|i: int| 0 <= i < idx + 1 implies settled(
        order2,
        dist2,
        order2[head],
        #[trigger] adj[order2[head] as int][i],
    ) by {
        let x = adj[current as int][i];
        assert(order2[head] == current);
        assert(current != w);
        assert(dist2[current as int] == dist[current as int]);
        if i < idx {
            assert(settled(order, dist, current, x));
            let j = choose|j: int| 0 <= j < order.len() && order[j] == x;
            assert(order2[j] == x);
            assert(order[j] < adj.len()) by {
                reveal(search_inv);
            }
        } else {
            assert(order2[order.len() as int] == w);
            assert(order2.contains(w));
            assert(dist2[w as int] == dist[current as int] + 1);
        }
    }
}

/// Looking at the next neighbour of the vertex at the head, where that
/// neighbour has been visited before: nothing changes.
proof fn lemma_scan_seen(
    adj: Seq<Seq<usize>>,
    start: usize,
    order: Seq<usize>,
    head: int,
    dist: Seq<usize>,
    visited: Seq<bool>,
    idx: int,
)
    requires
        scan_inv(adj, start, order, head, dist, visited, idx),
        0 <= head < order.len(),
        order[head] < adj.len(),
        0 <= idx < adj[order[head] as int].len(),
        adj[order[head] as int][idx] < adj.len(),
        visited[adj[order[head] as int][idx] as int],
    ensures
        scan_inv(adj, start, order, head, dist, visited, idx + 1),
{
    reveal(scan_inv);
    reveal(search_inv);
    let w = adj[order[head] as int][idx];
    assert(order.contains(w));
    let j = choose|j: int| 0 <= j < order.len() && order[j] == w;
    assert(dist[order[j] as int] <= dist[order[order.len() - 1] as int]);
}

/// Once all neighbours of the vertex at the head have been looked at, the
/// search moves on to the next vertex.
proof fn lemma_scan_end(
    adj: Seq<Seq<usize>>,
    start: usize,
    order: Seq<usize>,
    head: int,
    dist: Seq<usize>,
    visited: Seq<bool>,
)
    requires
        0 <= head < order.len(),
        order[head] < adj.len(),
        scan_inv(adj, start, order, head, dist, visited, adj[order[head] as int].len() as int),
    ensures
        search_inv(adj, start, order, head + 1, dist, visited),
{
    reveal(scan_inv);
    reveal(search_inv);
    let current = order[head];
    assert forall|i: int, w: usize| 0 <= i < head + 1 && #[trigger] adjacent(
        adj,
        order[i],
        w,
    ) implies settled(order, dist, order[i], w) by {
        if i == head {
            let list = adj[current as int];
            let p = choose|p: int| 0 <= p < list.len() && list[p] == w;
            assert(settled(order, dist, current, adj[current as int][p]));
        }
    }
    if head + 1 < order.len() {
        assert(dist[order[head] as int] <= dist[order[head + 1] as int]);
    }
}

/// Every path from `start` that is no longer than the distance recorded for
/// the vertex at the head ends in a discovered vertex whose recorded
/// distance is at most the path's length. Once every discovered vertex has
/// been processed, this holds of every path from `start`.
proof fn lemma_settled_paths(
    adj: Seq<Seq<usize>>,
    start: usize,
    order: Seq<usize>,
    head: int,
    dist: Seq<usize>,
    visited: Seq<bool>,
    p: Seq<usize>,
)
    requires
        search_inv(adj, start, order, head, dist, visited),
        is_path(adj, p),
        p.first() == start,
        head == order.len() || p.len() - 1 <= dist[order[head] as int],
    ensures
        order.contains(p.last()),
        dist[p.last() as int] <= p.len() - 1,
    decreases p.len(),
{
    reveal(search_inv);
    if p.len() == 1 {
        assert(order[0] == start);
        assert(dist[order[0] as int] <= 0);
    } else {
        let q = p.drop_last();
        lemma_path_shorten(adj, p, start, p.last());
        lemma_settled_paths(adj, start, order, head, dist, visited, q);
        let w = q.last();
        let i = choose|i: int| 0 <= i < order.len() && order[i] == w;
        if i >= head {
            assert(dist[order[head] as int] <= dist[order[i] as int]);
        }
        assert(adjacent(adj, order[i], p.last()));
        assert(settled(order, dist, order[i], p.last()));
    }
}

/// When the vertex at the head of the queue is taken out, the distance
/// recorded for it is the length of a shortest path to it.
proof fn lemma_found(
    adj: Seq<Seq<usize>>,
    start: usize,
    order: Seq<usize>,
    head: int,
    dist: Seq<usize>,
    visited: Seq<bool>,
)
    requires
        search_inv(adj, start, order, head, dist, visited),
        0 <= head < order.len(),
        order[head] < adj.len(),
    ensures
        shortest_distance(adj, start, order[head]) == Some(dist[order[head] as int] as nat),
        is_distance(adj, start, order[head], dist[order[head] as int] as nat),
{
    let end = order[head];
    let d = dist[end as int] as nat;
    assert(has_path_of_length(adj, start, end, d)) by {
        reveal(search_inv);
    }
    assert forall|k: nat| k < d implies !has_path_of_length(adj, start, end, k) by {
        if has_path_of_length(adj, start, end, k) {
            let p = choose|p: Seq<usize>| #[trigger]
                path_between(adj, p, start, end) && p.len() == k + 1;
            lemma_settled_paths(adj, start, order, head, dist, visited, p);
        }
    }
    assert(is_distance(adj, start, end, d));
    lemma_distance_is_least(adj, start, end);
}

/// When the queue has run empty, every vertex that a path from `start`
/// leads to has been discovered.
proof fn lemma_exhausted(
    adj: Seq<Seq<usize>>,
    start: usize,
    order: Seq<usize>,
    dist: Seq<usize>,
    visited: Seq<bool>,
    end: usize,
)
    requires
        search_inv(adj, start, order, order.len() as int, dist, visited),
        reachable(adj, start, end),
    ensures
        order.contains(end),
{
    let k = choose|k: nat| has_path_of_length(adj, start, end, k);
    let p = choose|p: Seq<usize>| #[trigger] path_between(adj, p, start, end) && p.len() == k + 1;
    lemma_settled_paths(adj, start, order, order.len() as int, dist, visited, p);
}

/// The number of edges on a shortest path between `start` and `end`, found
/// by a breadth-first search from `start`; `NO_PATH` where no path joins
/// them, in particular where one of the two is not a vertex of the graph.
pub fn shortest_path(graph: &Graph, start: usize, end: usize) -> (result: usize)
    requires
        graph.wf(),
    ensures
        result == shortest_path_length(graph@, start, end),
        reachable(graph@, start, end) ==> is_distance(graph@, start, end, result as nat) && result
            < graph@.len(),
        !reachable(graph@, start, end) ==> result == NO_PATH,
        start == end && start < graph@.len() ==> result == 0,
{
    let n = graph.vertex_count();
    if start >= n || end >= n {
        proof {
            if reachable(graph@, start, end) {
                lemma_reachable_in_range(graph@, start, end);
            }
        }
        return NO_PATH;
    }
    if start == end {
        proof {
            lemma_distance_to_self(graph@, start);
            lemma_distance_is_least(graph@, start, start);
        }
        return 0;
    }
    let mut distances: Vec<usize> = vec![NO_PATH; n];
    let mut visited: Vec<bool> = vec![false; n];
    let mut queue: VecDeque<usize> = VecDeque::new();

    visited[start] = true;
    distances[start] = 0;
    queue.push_back(start);
    let ghost mut order: Seq<usize> = seq![start];
    let ghost mut head: int = 0;
    proof {
        lemma_search_start(graph@, start, distances@, visited@);
    }

    while queue.len() > 0
        invariant
            graph.wf(),
            n == graph@.len(),
            start != end,
            0 <= head <= order.len(),
            search_inv(graph@, start, order, head, distances@, visited@),
            queue@ == order.skip(head),
            forall|i: int| 0 <= i < head ==> order[i] != end,
        decreases n - head,
    {
        let current = queue.pop_front().unwrap();
        assert(current == order[head]);
        proof {
            lemma_head_bounds(graph@, start, order, head, distances@, visited@);
        }
        if current == end {
            proof {
                lemma_found(graph@, start, order, head, distances@, visited@);
            }
            return distances[end];
        }
        let neighbors = graph.neighbors(current);
        let mut idx: usize = 0;
        while idx < neighbors.len()
            invariant
                graph.wf(),
                n == graph@.len(),
                distances@.len() == n,
                visited@.len() == n,
                idx <= neighbors@.len(),
                neighbors@ == graph@[current as int],
                0 <= head < order.len(),
                head < n,
                current < n,
                current == order[head],
                distances@[current as int] <= head,
                visited@[current as int],
                forall|i: int| 0 <= i <= head ==> order[i] != end,
                scan_inv(graph@, start, order, head, distances@, visited@, idx as int),
                queue@ == order.skip(head + 1),
            decreases neighbors@.len() - idx,
        {
            let neighbor = neighbors[idx];
            assert(graph@[current as int][idx as int] < n);
            if !visited[neighbor] {
                proof {
                    lemma_scan_new(graph@, start, order, head, distances@, visited@, idx as int);
                }
                visited[neighbor] = true;
                distances[neighbor] = distances[current] + 1;
                queue.push_back(neighbor);
                proof {
                    order = order.push(neighbor);
                    assert(queue@ == order.skip(head + 1));
                }
            } else {
                proof {
                    lemma_scan_seen(graph@, start, order, head, distances@, visited@, idx as int);
                }
            }
            idx += 1;
        }
        proof {
            lemma_scan_end(graph@, start, order, head, distances@, visited@);
            head = head + 1;
        }
    }
    proof {
        assert(order.skip(head).len() == 0);
        if reachable(graph@, start, end) {
            assert(head == order.len());
            lemma_exhausted(graph@, start, order, distances@, visited@, end);
            let i = choose|i: int| 0 <= i < order.len() && order[i] == end;
            assert(order[i] != end);
        }
    }
    NO_PATH
}

} // verus!
