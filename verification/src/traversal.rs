//! Breadth-first traversal, and the order in which it discovers the
//! vertices.

use crate::counting::lemma_distinct_bounded;
use crate::graph::{adjacent, Graph};
use crate::paths::{
    has_path_of_length, is_path, lemma_path_extend, lemma_path_shorten, lemma_trivial_path,
    path_between, reachable,
};
use std::collections::VecDeque;
use vstd::prelude::*;

verus! {

/// Place `(row1, pos1)` comes before place `(row2, pos2)`: an earlier row, or the
/// same row and an earlier position in it.
pub open spec fn lex_before(row1: int, pos1: int, row2: int, pos2: int) -> bool {
    row1 < row2 || (row1 == row2 && pos1 < pos2)
}

/// Reading the neighbour lists of `order[0]`, `order[1]`, ... one after the
/// other, each from left to right, `v` is met for the first time at
/// position `p` of the list of `order[i]`.
pub open spec fn first_met_at(
    adj: Seq<Seq<usize>>,
    order: Seq<usize>,
    v: usize,
    i: int,
    p: int,
) -> bool {
    &&& 0 <= i < order.len()
    &&& 0 <= p < adj[order[i] as int].len()
    &&& adj[order[i] as int][p] == v
    &&& forall|row2: int, pos2: int|
        0 <= row2 && 0 <= pos2 < adj[order[row2] as int].len() && lex_before(row2, pos2, i, p)
            ==> #[trigger] adj[order[row2] as int][pos2] != v
}

/// Entry `j` of `order` is first met in the neighbour list of an entry that
/// stands before it.
pub open spec fn met_from_earlier(adj: Seq<Seq<usize>>, order: Seq<usize>, j: int) -> bool {
    exists|i: int, p: int| i < j && #[trigger] first_met_at(adj, order, order[j], i, p)
}

/// `order` is the order in which a breadth-first search from `start`
/// discovers the vertices: `start` comes first; the neighbours of every
/// entry are entries too; every later entry is first met in the neighbour
/// list of an entry before it; and the entries stand in the order in which
/// they are first met.
pub open spec fn is_discovery_order(adj: Seq<Seq<usize>>, start: usize, order: Seq<usize>) -> bool {
    &&& order.len() > 0
    &&& order[0] == start
    &&& order.no_duplicates()
    &&& forall|i: int| 0 <= i < order.len() ==> #[trigger] order[i] < adj.len()
    &&& forall|i: int, p: int|
        0 <= i < order.len() && 0 <= p < adj[order[i] as int].len() ==> order.contains(
            #[trigger] adj[order[i] as int][p],
        )
    &&& forall|j: int| 1 <= j < order.len() ==> #[trigger] met_from_earlier(adj, order, j)
    &&& forall|j1: int, j2: int, row1: int, pos1: int, row2: int, pos2: int|
        1 <= j1 < j2 < order.len() && #[trigger] first_met_at(adj, order, order[j1], row1, pos1)
            && #[trigger] first_met_at(adj, order, order[j2], row2, pos2) ==> lex_before(
            row1,
            pos1,
            row2,
            pos2,
        )
}

/// A vertex is first met at one place only.
pub proof fn lemma_first_met_once(
    adj: Seq<Seq<usize>>,
    order: Seq<usize>,
    v: usize,
    row1: int,
    pos1: int,
    row2: int,
    pos2: int,
)
    requires
        first_met_at(adj, order, v, row1, pos1),
        first_met_at(adj, order, v, row2, pos2),
    ensures
        row1 == row2,
        pos1 == pos2,
{
    if lex_before(row1, pos1, row2, pos2) {
        assert(adj[order[row1] as int][pos1] != v);
    }
    if lex_before(row2, pos2, row1, pos1) {
        assert(adj[order[row2] as int][pos2] != v);
    }
}

/// Where a vertex is first met depends only on the rows up to that place.
pub proof fn lemma_first_met_prefix(
    adj: Seq<Seq<usize>>,
    a: Seq<usize>,
    b: Seq<usize>,
    v: usize,
    i: int,
    p: int,
)
    requires
        0 <= i < a.len(),
        i < b.len(),
        forall|k: int| 0 <= k <= i ==> a[k] == b[k],
        first_met_at(adj, a, v, i, p),
    ensures
        first_met_at(adj, b, v, i, p),
{
    assert(a[i] == b[i]);
    assert forall|row2: int, pos2: int|
        0 <= row2 && 0 <= pos2 < adj[b[row2] as int].len() && lex_before(
            row2,
            pos2,
            i,
            p,
        ) implies #[trigger] adj[b[row2] as int][pos2] != v by {
        assert(a[row2] == b[row2]);
        assert(adj[a[row2] as int][pos2] != v);
    }
}

/// Two discovery orders from the same start agree on their first `k`
/// entries.
proof fn lemma_orders_agree(
    adj: Seq<Seq<usize>>,
    start: usize,
    a: Seq<usize>,
    b: Seq<usize>,
    k: nat,
)
    requires
        is_discovery_order(adj, start, a),
        is_discovery_order(adj, start, b),
        k <= a.len(),
    ensures
        k <= b.len(),
        forall|i: int| 0 <= i < k ==> a[i] == b[i],
    decreases k,
{
    if k <= 1 {
    } else {
        lemma_orders_agree(adj, start, a, b, (k - 1) as nat);
        let j = k - 1;
        let v = a[j];
        assert(met_from_earlier(adj, a, j));
        let (i, p) = choose|i: int, p: int| i < j && #[trigger] first_met_at(adj, a, v, i, p);
        lemma_first_met_prefix(adj, a, b, v, i, p);
        assert(b.contains(adj[b[i] as int][p]));
        let jb = choose|jb: int| 0 <= jb < b.len() && b[jb] == v;
        if jb < j {
            assert(a[jb] == b[jb]);
        }
        if jb > j {
            let vb = b[j];
            assert(met_from_earlier(adj, b, j));
            let (ib, pb) = choose|ib: int, pb: int|
                ib < j && #[trigger] first_met_at(adj, b, vb, ib, pb);
            lemma_first_met_prefix(adj, b, a, vb, ib, pb);
            assert(a.contains(adj[a[ib] as int][pb]));
            let m = choose|m: int| 0 <= m < a.len() && a[m] == vb;
            if m < j {
                assert(a[m] == b[m]);
            }
            assert(m > j);
            assert(first_met_at(adj, b, b[j], ib, pb));
            assert(first_met_at(adj, b, b[jb], i, p));
            assert(lex_before(ib, pb, i, p));
            assert(first_met_at(adj, a, a[j], i, p));
            assert(first_met_at(adj, a, a[m], ib, pb));
            assert(lex_before(i, p, ib, pb));
        }
    }
}

/// A graph has one discovery order from each start vertex, and no other.
pub proof fn lemma_discovery_order_unique(
    adj: Seq<Seq<usize>>,
    start: usize,
    a: Seq<usize>,
    b: Seq<usize>,
)
    requires
        is_discovery_order(adj, start, a),
        is_discovery_order(adj, start, b),
    ensures
        a == b,
{
    lemma_orders_agree(adj, start, a, b, a.len());
    lemma_orders_agree(adj, start, b, a, b.len());
    assert(a =~= b);
}

/// Every entry of a discovery order is joined to the start by a path.
proof fn lemma_entry_reachable(adj: Seq<Seq<usize>>, start: usize, order: Seq<usize>, j: int)
    requires
        is_discovery_order(adj, start, order),
        0 <= j < order.len(),
    ensures
        reachable(adj, start, order[j]),
    decreases j,
{
    if j == 0 {
        lemma_trivial_path(adj, start);
    } else {
        assert(met_from_earlier(adj, order, j));
        let (i, p) = choose|i: int, p: int|
            i < j && #[trigger] first_met_at(adj, order, order[j], i, p);
        lemma_entry_reachable(adj, start, order, i);
        assert(order[i] < adj.len());
        assert(order[j] < adj.len());
        assert(adjacent(adj, order[i], order[j]));
        let k = choose|k: nat| has_path_of_length(adj, start, order[i], k);
        let q = choose|q: Seq<usize>| #[trigger]
            path_between(adj, q, start, order[i]) && q.len() == k + 1;
        lemma_path_extend(adj, q, start, order[i], order[j]);
        assert(has_path_of_length(adj, start, order[j], k + 1));
    }
}

/// Every path from the start ends in an entry of the discovery order.
proof fn lemma_path_stays(adj: Seq<Seq<usize>>, start: usize, order: Seq<usize>, p: Seq<usize>)
    requires
        is_discovery_order(adj, start, order),
        is_path(adj, p),
        p.first() == start,
    ensures
        order.contains(p.last()),
    decreases p.len(),
{
    if p.len() == 1 {
        assert(order[0] == start);
    } else {
        lemma_path_shorten(adj, p, start, p.last());
        let q = p.drop_last();
        lemma_path_stays(adj, start, order, q);
        let i = choose|i: int| 0 <= i < order.len() && order[i] == q.last();
        let list = adj[order[i] as int];
        let pos = choose|pos: int| 0 <= pos < list.len() && list[pos] == p.last();
        assert(order.contains(adj[order[i] as int][pos]));
    }
}

/// The entries of a discovery order are the vertices that a path joins to
/// the start, and no others.
pub proof fn lemma_discovery_order_reaches(
    adj: Seq<Seq<usize>>,
    start: usize,
    order: Seq<usize>,
    v: usize,
)
    requires
        is_discovery_order(adj, start, order),
    ensures
        order.contains(v) <==> reachable(adj, start, v),
{
    if order.contains(v) {
        let j = choose|j: int| 0 <= j < order.len() && order[j] == v;
        lemma_entry_reachable(adj, start, order, j);
    }
    if reachable(adj, start, v) {
        let k = choose|k: nat| has_path_of_length(adj, start, v, k);
        let p = choose|p: Seq<usize>| #[trigger] path_between(adj, p, start, v) && p.len() == k + 1;
        lemma_path_stays(adj, start, order, p);
    }
}

/// The state of a traversal from `start`: `order` lists the vertices
/// discovered so far and `keys` the place where each was first met; the
/// neighbour lists of the first `head` entries have been read, and the
/// first `idx` positions of the next one.
#[verifier::opaque]
spec fn traverse_inv(
    adj: Seq<Seq<usize>>,
    start: usize,
    order: Seq<usize>,
    keys: Seq<(int, int)>,
    head: int,
    idx: int,
    visited: Seq<bool>,
) -> bool {
    &&& visited.len() == adj.len()
    &&& order.len() > 0
    &&& order[0] == start
    &&& keys.len() == order.len()
    &&& order.no_duplicates()
    &&& forall|i: int| 0 <= i < order.len() ==> #[trigger] order[i] < adj.len()
    &&& forall|v: usize| v < adj.len() ==> (#[trigger] visited[v as int] <==> order.contains(v))
    &&& 0 <= head <= order.len()
    &&& 0 <= idx
    &&& head < order.len() ==> idx <= adj[order[head] as int].len()
    &&& head == order.len() ==> idx == 0
    &&& forall|i: int, p: int|
        0 <= i < order.len() && 0 <= p < adj[order[i] as int].len() && lex_before(i, p, head, idx)
            ==> order.contains(#[trigger] adj[order[i] as int][p])
    &&& forall|j: int|
        1 <= j < order.len() ==> {
            let key = #[trigger] keys[j];
            &&& key.0 < j
            &&& lex_before(key.0, key.1, head, idx)
            &&& first_met_at(adj, order, order[j], key.0, key.1)
        }
    &&& forall|j1: int, j2: int|
        1 <= j1 < j2 < order.len() ==> lex_before(
            (#[trigger] keys[j1]).0,
            keys[j1].1,
            (#[trigger] keys[j2]).0,
            keys[j2].1,
        )
}

/// A traversal that has discovered only its start vertex.
proof fn lemma_traverse_start(adj: Seq<Seq<usize>>, start: usize, visited: Seq<bool>)
    requires
        start < adj.len(),
        visited.len() == adj.len(),
        forall|v: int| 0 <= v < adj.len() ==> (#[trigger] visited[v] <==> v == start),
    ensures
        traverse_inv(adj, start, seq![start], seq![(0int, 0int)], 0, 0, visited),
{
    reveal(traverse_inv);
    let order = seq![start];
    assert forall|v: usize| v < adj.len() implies (#[trigger] visited[v as int] <==> order.contains(
        v,
    )) by {
        if v == start {
            assert(order[0] == start);
        }
    }
}

/// What the traversal state says of the entry whose list is read next.
proof fn lemma_traverse_head(
    adj: Seq<Seq<usize>>,
    start: usize,
    order: Seq<usize>,
    keys: Seq<(int, int)>,
    head: int,
    idx: int,
    visited: Seq<bool>,
)
    requires
        traverse_inv(adj, start, order, keys, head, idx, visited),
    ensures
        visited.len() == adj.len(),
        0 <= head <= order.len() <= adj.len(),
        head < order.len() ==> order[head] < adj.len() && 0 <= idx <= adj[order[head] as int].len(),
{
    reveal(traverse_inv);
    lemma_distinct_bounded(order, adj.len());
}

/// Reading a neighbour that has not been visited: it joins the order.
proof fn lemma_traverse_new(
    adj: Seq<Seq<usize>>,
    start: usize,
    order: Seq<usize>,
    keys: Seq<(int, int)>,
    head: int,
    idx: int,
    visited: Seq<bool>,
)
    requires
        traverse_inv(adj, start, order, keys, head, idx, visited),
        visited.len() == adj.len(),
        0 <= head < order.len(),
        order[head] < adj.len(),
        0 <= idx < adj[order[head] as int].len(),
        adj[order[head] as int][idx] < adj.len(),
        !visited[adj[order[head] as int][idx] as int],
    ensures
        traverse_inv(
            adj,
            start,
            order.push(adj[order[head] as int][idx]),
            keys.push((head, idx)),
            head,
            idx + 1,
            visited.update(adj[order[head] as int][idx] as int, true),
        ),
{
    reveal(traverse_inv);
    let w = adj[order[head] as int][idx];
    let order2 = order.push(w);
    let keys2 = keys.push((head, idx));
    let visited2 = visited.update(w as int, true);
    let last = order.len() as int;
    assert(!order.contains(w));
    assert forall|i: int| 0 <= i < order.len() implies order[i] != w && order2[i] == order[i] by {
        assert(order.contains(order[i]));
    }
    assert(order2.no_duplicates());
    assert forall|v: usize| v < adj.len() implies (#[trigger] visited2[v as int]
        <==> order2.contains(v)) by {
        if v == w {
            assert(order2[last] == w);
        } else if order.contains(v) {
            let i = choose|i: int| 0 <= i < order.len() && order[i] == v;
            assert(order2[i] == v);
        } else if order2.contains(v) {
            let i = choose|i: int| 0 <= i < order2.len() && order2[i] == v;
            assert(order[i] == v);
        }
    }
    assert forall|i: int, p: int|
        0 <= i < order2.len() && 0 <= p < adj[order2[i] as int].len() && lex_before(
            i,
            p,
            head,
            idx + 1,
        ) implies order2.contains(#[trigger] adj[order2[i] as int][p]) by {
        let x = adj[order2[i] as int][p];
        assert(order2[i] == order[i]);
        if i == head && p == idx {
            assert(order2[last] == x);
        } else {
            assert(lex_before(i, p, head, idx));
            assert(order.contains(adj[order[i] as int][p]));
            let j = choose|j: int| 0 <= j < order.len() && order[j] == x;
            assert(order2[j] == x);
        }
    }
    assert(first_met_at(adj, order2, w, head, idx)) by {
        assert(order2[head] == order[head]);
        assert forall|row2: int, pos2: int|
            0 <= row2 && 0 <= pos2 < adj[order2[row2] as int].len() && lex_before(
                row2,
                pos2,
                head,
                idx,
            ) implies #[trigger] adj[order2[row2] as int][pos2] != w by {
            assert(order2[row2] == order[row2]);
            assert(order.contains(adj[order[row2] as int][pos2]));
        }
    }
    assert forall|j: int| 1 <= j < order2.len() implies {
        let key = #[trigger] keys2[j];
        &&& key.0 < j
        &&& lex_before(key.0, key.1, head, idx + 1)
        &&& first_met_at(adj, order2, order2[j], key.0, key.1)
    } by {
        if j < last {
            let key = keys[j];
            assert(keys2[j] == key);
            assert(first_met_at(adj, order, order[j], key.0, key.1));
            lemma_first_met_prefix(adj, order, order2, order[j], key.0, key.1);
        }
    }
    assert forall|j1: int, j2: int| 1 <= j1 < j2 < order2.len() implies lex_before(
        (#[trigger] keys2[j1]).0,
        keys2[j1].1,
        (#[trigger] keys2[j2]).0,
        keys2[j2].1,
    ) by {
        assert(keys2[j1] == keys[j1]);
        if j2 < last {
            assert(keys2[j2] == keys[j2]);
        }
    }
}

/// Reading a neighbour that has been visited before: nothing changes.
proof fn lemma_traverse_seen(
    adj: Seq<Seq<usize>>,
    start: usize,
    order: Seq<usize>,
    keys: Seq<(int, int)>,
    head: int,
    idx: int,
    visited: Seq<bool>,
)
    requires
        traverse_inv(adj, start, order, keys, head, idx, visited),
        visited.len() == adj.len(),
        0 <= head < order.len(),
        order[head] < adj.len(),
        0 <= idx < adj[order[head] as int].len(),
        adj[order[head] as int][idx] < adj.len(),
        visited[adj[order[head] as int][idx] as int],
    ensures
        traverse_inv(adj, start, order, keys, head, idx + 1, visited),
{
    reveal(traverse_inv);
    assert forall|i: int, p: int|
        0 <= i < order.len() && 0 <= p < adj[order[i] as int].len() && lex_before(
            i,
            p,
            head,
            idx + 1,
        ) implies order.contains(#[trigger] adj[order[i] as int][p]) by {
        if !(i == head && p == idx) {
            assert(lex_before(i, p, head, idx));
        }
    }
}

/// Once a neighbour list has been read to its end, the traversal moves on
/// to the next entry.
proof fn lemma_traverse_next(
    adj: Seq<Seq<usize>>,
    start: usize,
    order: Seq<usize>,
    keys: Seq<(int, int)>,
    head: int,
    visited: Seq<bool>,
)
    requires
        0 <= head < order.len(),
        order[head] < adj.len(),
        traverse_inv(
            adj,
            start,
            order,
            keys,
            head,
            adj[order[head] as int].len() as int,
            visited,
        ),
    ensures
        traverse_inv(adj, start, order, keys, head + 1, 0, visited),
{
    reveal(traverse_inv);
    let idx = adj[order[head] as int].len() as int;
    assert forall|i: int, p: int|
        0 <= i < order.len() && 0 <= p < adj[order[i] as int].len() && lex_before(
            i,
            p,
            head + 1,
            0,
        ) implies order.contains(#[trigger] adj[order[i] as int][p]) by {
        assert(lex_before(i, p, head, idx));
    }
    assert forall|j: int| 1 <= j < order.len() implies {
        let key = #[trigger] keys[j];
        &&& key.0 < j
        &&& lex_before(key.0, key.1, head + 1, 0)
        &&& first_met_at(adj, order, order[j], key.0, key.1)
    } by {
        let key = keys[j];
        assert(lex_before(key.0, key.1, head, idx));
    }
}

/// When every list has been read, the order is the discovery order.
proof fn lemma_traverse_done(
    adj: Seq<Seq<usize>>,
    start: usize,
    order: Seq<usize>,
    keys: Seq<(int, int)>,
    visited: Seq<bool>,
)
    requires
        traverse_inv(adj, start, order, keys, order.len() as int, 0, visited),
    ensures
        is_discovery_order(adj, start, order),
{
    reveal(traverse_inv);
    let head = order.len() as int;
    assert forall|i: int, p: int|
        0 <= i < order.len() && 0 <= p < adj[order[i] as int].len() implies order.contains(
        #[trigger] adj[order[i] as int][p],
    ) by {
        assert(lex_before(i, p, head, 0));
    }
    assert forall|j: int| 1 <= j < order.len() implies #[trigger] met_from_earlier(
        adj,
        order,
        j,
    ) by {
        let key = keys[j];
        assert(key.0 < j && first_met_at(adj, order, order[j], key.0, key.1));
    }
    assert forall|j1: int, j2: int, row1: int, pos1: int, row2: int, pos2: int|
        1 <= j1 < j2 < order.len() && #[trigger] first_met_at(adj, order, order[j1], row1, pos1)
            && #[trigger] first_met_at(adj, order, order[j2], row2, pos2) implies lex_before(
        row1,
        pos1,
        row2,
        pos2,
    ) by {
        let k1 = keys[j1];
        let k2 = keys[j2];
        lemma_first_met_once(adj, order, order[j1], row1, pos1, k1.0, k1.1);
        lemma_first_met_once(adj, order, order[j2], row2, pos2, k2.0, k2.1);
    }
}

/// The vertices that can be reached from `start_vertex`, each once, in the
/// order in which a breadth-first search discovers them. A start that is
/// not a vertex of the graph reaches nothing.
pub fn bfs_traverse(graph: &Graph, start_vertex: usize) -> (visited_order: Vec<usize>)
    requires
        graph.wf(),
    ensures
        start_vertex >= graph@.len() ==> visited_order@.len() == 0,
        start_vertex < graph@.len() ==> is_discovery_order(graph@, start_vertex, visited_order@),
        visited_order@.no_duplicates(),
        forall|v: usize| visited_order@.contains(v) <==> reachable(graph@, start_vertex, v),
{
    let n = graph.vertex_count();
    if start_vertex >= n {
        let nothing: Vec<usize> = Vec::new();
        proof {
            assert forall|v: usize| nothing@.contains(v) <==> reachable(
                graph@,
                start_vertex,
                v,
            ) by {
                if reachable(graph@, start_vertex, v) {
                    crate::paths::lemma_reachable_in_range(graph@, start_vertex, v);
                }
            }
        }
        return nothing;
    }
    let mut visited: Vec<bool> = vec![false; n];
    let mut queue: VecDeque<usize> = VecDeque::new();
    let mut visited_order: Vec<usize> = Vec::new();

    visited[start_vertex] = true;
    queue.push_back(start_vertex);
    let ghost mut order: Seq<usize> = seq![start_vertex];
    let ghost mut keys: Seq<(int, int)> = seq![(0int, 0int)];
    proof {
        lemma_traverse_start(graph@, start_vertex, visited@);
    }

    while queue.len() > 0
        invariant
            graph.wf(),
            n == graph@.len(),
            traverse_inv(graph@, start_vertex, order, keys, visited_order@.len() as int, 0, visited@),
            visited_order@.len() <= order.len(),
            visited_order@ == order.take(visited_order@.len() as int),
            queue@ == order.skip(visited_order@.len() as int),
        decreases n - visited_order@.len(),
    {
        let ghost head = visited_order@.len() as int;
        proof {
            lemma_traverse_head(graph@, start_vertex, order, keys, head, 0, visited@);
        }
        let current = queue.pop_front().unwrap();
        assert(current == order[head]);
        visited_order.push(current);
        assert(visited_order@ == order.take(head + 1));
        let neighbors = graph.neighbors(current);
        let mut idx: usize = 0;
        while idx < neighbors.len()
            invariant
                graph.wf(),
                n == graph@.len(),
                visited@.len() == n,
                idx <= neighbors@.len(),
                neighbors@ == graph@[current as int],
                0 <= head < order.len(),
                head < n,
                head + 1 == visited_order@.len(),
                current < n,
                current == order[head],
                traverse_inv(graph@, start_vertex, order, keys, head, idx as int, visited@),
                visited_order@ == order.take(head + 1),
                queue@ == order.skip(head + 1),
            decreases neighbors@.len() - idx,
        {
            let neighbor = neighbors[idx];
            assert(graph@[current as int][idx as int] < n);
            if !visited[neighbor] {
                proof {
                    lemma_traverse_new(
                        graph@,
                        start_vertex,
                        order,
                        keys,
                        head,
                        idx as int,
                        visited@,
                    );
                }
                visited[neighbor] = true;
                queue.push_back(neighbor);
                proof {
                    let ghost before = order;
                    order = order.push(neighbor);
                    keys = keys.push((head, idx as int));
                    assert(queue@ == order.skip(head + 1));
                    assert(order.take(head + 1) == before.take(head + 1));
                }
            } else {
                proof {
                    lemma_traverse_seen(
                        graph@,
                        start_vertex,
                        order,
                        keys,
                        head,
                        idx as int,
                        visited@,
                    );
                }
            }
            idx += 1;
        }
        proof {
            lemma_traverse_next(graph@, start_vertex, order, keys, head, visited@);
        }
    }
    proof {
        assert(order.skip(visited_order@.len() as int).len() == 0);
        assert(visited_order@ == order);
        lemma_traverse_done(graph@, start_vertex, order, keys, visited@);
        assert forall|v: usize| visited_order@.contains(v) <==> reachable(
            graph@,
            start_vertex,
            v,
        ) by {
            lemma_discovery_order_reaches(graph@, start_vertex, order, v);
        }
    }
    visited_order
}

} // verus!
