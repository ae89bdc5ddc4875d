//! Undirected graphs as adjacency lists, and their construction from an
//! edge list.

use crate::error::EstimateError;
use vstd::prelude::*;

verus! {

broadcast use vstd::seq_lib::group_to_multiset_ensures;

/// `v` occurs in the neighbour list of `u`, and both are vertices.
pub open spec fn adjacent(adj: Seq<Seq<usize>>, u: usize, v: usize) -> bool {
    &&& u < adj.len()
    &&& v < adj.len()
    &&& adj[u as int].contains(v)
}

/// Every neighbour id names a vertex.
pub open spec fn neighbors_in_range(adj: Seq<Seq<usize>>) -> bool {
    forall|u: int, i: int|
        0 <= u < adj.len() && 0 <= i < adj[u].len() ==> #[trigger] adj[u][i] < adj.len()
}

/// Every edge is listed from both of its endpoints.
pub open spec fn symmetric(adj: Seq<Seq<usize>>) -> bool {
    forall|u: usize, v: usize| #[trigger] adjacent(adj, u, v) ==> adjacent(adj, v, u)
}

/// The list never decreases from left to right.
pub open spec fn ascending(list: Seq<usize>) -> bool {
    forall|i: int, j: int| 0 <= i <= j < list.len() ==> list[i] <= list[j]
}

/// What holds of the adjacency lists of every undirected graph built here.
pub open spec fn well_formed(adj: Seq<Seq<usize>>) -> bool {
    &&& neighbors_in_range(adj)
    &&& symmetric(adj)
    &&& forall|u: int| 0 <= u < adj.len() ==> ascending(#[trigger] adj[u])
}

/// `m` is the largest vertex id that occurs in `edges`.
pub open spec fn is_max_endpoint(edges: Seq<(usize, usize)>, m: int) -> bool {
    &&& forall|i: int| 0 <= i < edges.len() ==> (#[trigger] edges[i]).0 <= m && edges[i].1 <= m
    &&& exists|i: int| 0 <= i < edges.len() && ((#[trigger] edges[i]).0 == m || edges[i].1 == m)
}

/// How often `x` must occur in the neighbour list of `w`: once for every
/// edge written `(w, x)` and once for every edge written `(x, w)`. A
/// self-loop `(w, w)` is both, and so counts twice.
pub open spec fn edge_multiplicity(edges: Seq<(usize, usize)>, w: usize, x: usize) -> nat {
    edges.to_multiset().count((w, x)) + edges.to_multiset().count((x, w))
}

/// An undirected graph on the vertices `0..vertex_count()`, held as one
/// ascending neighbour list per vertex. Parallel edges and self-loops are
/// kept as they were given.
pub struct Graph {
    adjacency: Vec<Vec<usize>>,
}

impl View for Graph {
    type V = Seq<Seq<usize>>;

    /// The neighbour lists, indexed by vertex.
    closed spec fn view(&self) -> Seq<Seq<usize>> {
        Seq::new(self.adjacency@.len(), |u: int| self.adjacency@[u]@)
    }
}

/// Sorts a list of vertex ids in place with the standard library's
/// `sort` on slices.
///
/// Trusted: the list afterwards holds the same ids, each as often as
/// before, in ascending order.
#[verifier::external_body]
fn sort_ascending(list: &mut Vec<usize>)
    ensures
        final(list)@.to_multiset() == old(list)@.to_multiset(),
        ascending(final(list)@),
{
    list.sort();
}

impl Graph {
    /// The graph's lists are in range, symmetric and ascending, and its
    /// vertices can be counted in a `usize`.
    pub open spec fn wf(&self) -> bool {
        &&& well_formed(self@)
        &&& self@.len() <= usize::MAX
    }

    /// Builds the graph of an edge list. The vertex count is one more than
    /// the largest id in the list; every edge is entered at both of its
    /// endpoints, a self-loop therefore twice at its one vertex.
    pub fn from_edges(edges: &Vec<(usize, usize)>) -> (result: Result<Graph, EstimateError>)
        requires
            forall|i: int|
                0 <= i < edges@.len() ==> (#[trigger] edges@[i]).0 < usize::MAX && edges@[i].1
                    < usize::MAX,
        ensures
            edges@.len() == 0 ==> result == Err::<Graph, EstimateError>(EstimateError::EmptyInput),
            edges@.len() > 0 ==> result is Ok,
            result matches Ok(g) ==> {
                &&& g.wf()
                &&& is_max_endpoint(edges@, g@.len() - 1)
                &&& forall|w: usize, x: usize|
                    w < g@.len() ==> #[trigger] g@[w as int].to_multiset().count(x)
                        == edge_multiplicity(edges@, w, x)
            },
    {
        if edges.len() == 0 {
            return Err(EstimateError::EmptyInput);
        }
        let mut max_index: usize = 0;
        let mut k: usize = 0;
        let ghost mut witness: int = 0;
        while k < edges.len()
            invariant
                k <= edges@.len(),
                max_index < usize::MAX,
                forall|i: int|
                    0 <= i < edges@.len() ==> (#[trigger] edges@[i]).0 < usize::MAX && edges@[i].1
                        < usize::MAX,
                forall|i: int|
                    0 <= i < k ==> (#[trigger] edges@[i]).0 <= max_index && edges@[i].1
                        <= max_index,
                k > 0 ==> 0 <= witness < k && (edges@[witness].0 == max_index || edges@[witness].1
                    == max_index),
                k == 0 ==> max_index == 0,
            decreases edges@.len() - k,
        {
            let (u, v) = edges[k];
            let larger: usize = if u < v { v } else { u };
            if larger > max_index || k == 0 {
                max_index = larger;
                proof {
                    witness = k as int;
                }
            }
            k += 1;
        }
        assert(is_max_endpoint(edges@, max_index as int)) by {
            assert(edges@[witness].0 == max_index || edges@[witness].1 == max_index);
        }
        let total_vertices: usize = max_index + 1;

        let mut adjacency: Vec<Vec<usize>> = Vec::new();
        let mut w: usize = 0;
        while w < total_vertices
            invariant
                w <= total_vertices,
                adjacency@.len() == w,
                forall|u: int| 0 <= u < w ==> (#[trigger] adjacency@[u])@ == Seq::<usize>::empty(),
            decreases total_vertices - w,
        {
            adjacency.push(Vec::new());
            w += 1;
        }

        k = 0;
        while k < edges.len()
            invariant
                k <= edges@.len(),
                adjacency@.len() == total_vertices,
                forall|i: int|
                    0 <= i < edges@.len() ==> (#[trigger] edges@[i]).0 < total_vertices
                        && edges@[i].1 < total_vertices,
                forall|w: usize, x: usize|
                    w < total_vertices ==> #[trigger] adjacency@[w as int]@.to_multiset().count(x)
                        == edge_multiplicity(edges@.take(k as int), w, x),
            decreases edges@.len() - k,
        {
            let (u, v) = edges[k];
            let ghost before = adjacency@;
            adjacency[u].push(v);
            let ghost between = adjacency@;
            adjacency[v].push(u);
            proof {
                let seen = edges@.take(k as int);
                assert(edges@.take(k as int + 1) == seen.push((u, v)));
                assert forall|w: usize, x: usize| w < total_vertices implies #[trigger] adjacency@[w as int]@.to_multiset().count(
                    x,
                ) == edge_multiplicity(edges@.take(k as int + 1), w, x) by {
                    assert(before[w as int]@.to_multiset().count(x) == edge_multiplicity(
                        seen,
                        w,
                        x,
                    ));
                    if w == u {
                        assert(between[w as int]@ == before[w as int]@.push(v));
                    } else {
                        assert(between[w as int]@ == before[w as int]@);
                    }
                    if w == v {
                        assert(adjacency@[w as int]@ == between[w as int]@.push(u));
                    } else {
                        assert(adjacency@[w as int]@ == between[w as int]@);
                    }
                }
            }
            k += 1;
        }
        assert(edges@.take(k as int) == edges@);
        let ghost unsorted = adjacency@;

        w = 0;
        while w < total_vertices
            invariant
                w <= total_vertices,
                adjacency@.len() == total_vertices,
                unsorted.len() == total_vertices,
                forall|u: int|
                    0 <= u < total_vertices ==> (#[trigger] adjacency@[u])@.to_multiset()
                        == unsorted[u]@.to_multiset(),
                forall|u: int| 0 <= u < w ==> ascending(#[trigger] adjacency@[u]@),
            decreases total_vertices - w,
        {
            let ghost before = adjacency@;
            sort_ascending(&mut adjacency[w]);
            assert forall|u: int| 0 <= u < total_vertices implies (#[trigger] adjacency@[u])@.to_multiset()
                == unsorted[u]@.to_multiset() by {
                if u != w {
                    assert(adjacency@[u] == before[u]);
                }
            }
            assert forall|u: int| 0 <= u < w + 1 implies ascending(#[trigger] adjacency@[u]@) by {
                if u != w {
                    assert(adjacency@[u] == before[u]);
                }
            }
            w += 1;
        }
        let graph = Graph { adjacency };
        proof {
            let adj = graph@;
            assert forall|w: usize, x: usize| w < adj.len() implies #[trigger] adj[w as int].to_multiset().count(
                x,
            ) == edge_multiplicity(edges@, w, x) by {
                assert(adj[w as int] == graph.adjacency@[w as int]@);
                assert(unsorted[w as int]@.to_multiset().count(x) == edge_multiplicity(
                    edges@,
                    w,
                    x,
                ));
            }
            lemma_lists_of_edges_well_formed(edges@, adj);
        }
        Ok(graph)
    }

    /// The number of vertices.
    pub fn vertex_count(&self) -> (n: usize)
        ensures
            n == self@.len(),
    {
        self.adjacency.len()
    }

    /// The neighbour list of `v`.
    pub fn neighbors(&self, v: usize) -> (list: &Vec<usize>)
        requires
            v < self@.len(),
        ensures
            list@ == self@[v as int],
    {
        &self.adjacency[v]
    }
}

/// Lists that hold every edge of `edges` from both ends, and nothing else,
/// are in range and symmetric.
proof fn lemma_lists_of_edges_well_formed(edges: Seq<(usize, usize)>, adj: Seq<Seq<usize>>)
    requires
        adj.len() <= usize::MAX,
        forall|i: int|
            0 <= i < edges.len() ==> (#[trigger] edges[i]).0 < adj.len() && edges[i].1 < adj.len(),
        forall|w: usize, x: usize|
            w < adj.len() ==> #[trigger] adj[w as int].to_multiset().count(x) == edge_multiplicity(
                edges,
                w,
                x,
            ),
        forall|u: int| 0 <= u < adj.len() ==> ascending(#[trigger] adj[u]),
    ensures
        well_formed(adj),
{
    assert forall|u: int, i: int| 0 <= u < adj.len() && 0 <= i < adj[u].len() implies #[trigger] adj[u][i]
        < adj.len() by {
        let x = adj[u][i];
        assert(adj[u].contains(x));
        assert(adj[u as usize as int].to_multiset().count(x) > 0);
        assert(edge_multiplicity(edges, u as usize, x) > 0);
        if edges.to_multiset().count((u as usize, x)) > 0 {
            assert(edges.contains((u as usize, x)));
        } else {
            assert(edges.contains((x, u as usize)));
        }
    }
    assert forall|u: usize, v: usize| #[trigger] adjacent(adj, u, v) implies adjacent(adj, v, u) by {
        assert(adj[u as int].to_multiset().count(v) > 0);
        assert(edge_multiplicity(edges, u, v) == edge_multiplicity(edges, v, u));
        assert(adj[v as int].to_multiset().count(u) > 0);
    }
}

} // verus!
