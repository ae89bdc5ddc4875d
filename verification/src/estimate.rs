//! From an edge list to the sum of the distances of sampled pairs.

use crate::distance::{shortest_path, NO_PATH};
use crate::error::EstimateError;
use crate::graph::{edge_multiplicity, is_max_endpoint, symmetric, Graph};
use crate::paths::{distance, lemma_distance_symmetric, lemma_triangle_inequality, reachable};
use crate::sampling::{drawn_from, ordered, sample_pairs};
use crate::traversal::{bfs_traverse, is_discovery_order, lemma_discovery_order_reaches};
use vstd::prelude::*;

verus! {

/// A graph together with the vertices that can be reached from its start
/// vertex, in the order of their discovery.
pub struct Exploration {
    pub graph: Graph,
    pub start_vertex: usize,
    pub reachable: Vec<usize>,
}

/// The distances of a list of pairs, added up.
pub struct DistanceSummary {
    /// How many of the pairs are joined by a path.
    pub counted_pairs: usize,
    /// The sum of the distances of those pairs.
    pub total_distance: u128,
}

/// How many of `pairs` are joined by a path.
pub open spec fn joined_count(adj: Seq<Seq<usize>>, pairs: Seq<(usize, usize)>) -> nat
    decreases pairs.len(),
{
    if pairs.len() == 0 {
        0
    } else {
        let rest = joined_count(adj, pairs.drop_last());
        if reachable(adj, pairs.last().0, pairs.last().1) {
            rest + 1
        } else {
            rest
        }
    }
}

/// The sum of the distances of those of `pairs` that are joined by a path.
pub open spec fn joined_total(adj: Seq<Seq<usize>>, pairs: Seq<(usize, usize)>) -> nat
    decreases pairs.len(),
{
    if pairs.len() == 0 {
        0
    } else {
        let rest = joined_total(adj, pairs.drop_last());
        if reachable(adj, pairs.last().0, pairs.last().1) {
            rest + distance(adj, pairs.last().0, pairs.last().1)
        } else {
            rest
        }
    }
}

/// Any two entries of `vertices` are joined by a path.
pub open spec fn mutually_reachable(adj: Seq<Seq<usize>>, vertices: Seq<usize>) -> bool {
    forall|i: int, j: int|
        0 <= i < vertices.len() && 0 <= j < vertices.len() ==> reachable(
            adj,
            #[trigger] vertices[i],
            #[trigger] vertices[j],
        )
}

/// What an estimate comes to once the pairs are known: no pairs, no
/// estimate; pairs of which none is joined, none either; otherwise the
/// number of joined pairs and the sum of their distances.
pub open spec fn summary_of(adj: Seq<Seq<usize>>, pairs: Seq<(usize, usize)>) -> Result<
    (nat, nat),
    EstimateError,
> {
    if pairs.len() == 0 {
        Err(EstimateError::NoPairsFormed)
    } else if joined_count(adj, pairs) == 0 {
        Err(EstimateError::AllPairsUnreachable)
    } else {
        Ok((joined_count(adj, pairs), joined_total(adj, pairs)))
    }
}

/// The result says what `summary_of` says.
pub open spec fn agrees(
    result: Result<DistanceSummary, EstimateError>,
    expected: Result<(nat, nat), EstimateError>,
) -> bool {
    match (result, expected) {
        (Ok(summary), Ok((count, total))) => summary.counted_pairs == count
            && summary.total_distance == total,
        (Err(e1), Err(e2)) => e1 == e2,
        _ => false,
    }
}

/// Where the vertices of every pair are joined, every pair counts.
pub proof fn lemma_all_joined(adj: Seq<Seq<usize>>, pairs: Seq<(usize, usize)>)
    requires
        forall|k: int| 0 <= k < pairs.len() ==> reachable(adj, (#[trigger] pairs[k]).0, pairs[k].1),
    ensures
        joined_count(adj, pairs) == pairs.len(),
    decreases pairs.len(),
{
    if pairs.len() > 0 {
        let rest = pairs.drop_last();
        assert forall|k: int| 0 <= k < rest.len() implies reachable(
            adj,
            (#[trigger] rest[k]).0,
            rest[k].1,
        ) by {
            assert(rest[k] == pairs[k]);
        }
        lemma_all_joined(adj, rest);
        assert(reachable(adj, pairs[pairs.len() - 1].0, pairs[pairs.len() - 1].1));
    }
}

/// A pair that no path joins adds nothing to the count nor to the sum.
pub proof fn lemma_unreachable_pair_excluded(
    adj: Seq<Seq<usize>>,
    pairs: Seq<(usize, usize)>,
    pair: (usize, usize),
)
    requires
        !reachable(adj, pair.0, pair.1),
    ensures
        joined_count(adj, pairs.push(pair)) == joined_count(adj, pairs),
        joined_total(adj, pairs.push(pair)) == joined_total(adj, pairs),
{
    assert(pairs.push(pair).drop_last() == pairs);
}

/// In an undirected graph, the vertices reached from one start are all
/// joined to each other.
pub proof fn lemma_discovered_mutually_reachable(
    adj: Seq<Seq<usize>>,
    start: usize,
    order: Seq<usize>,
)
    requires
        symmetric(adj),
        is_discovery_order(adj, start, order),
    ensures
        mutually_reachable(adj, order),
{
    assert forall|i: int, j: int| 0 <= i < order.len() && 0 <= j < order.len() implies reachable(
        adj,
        #[trigger] order[i],
        #[trigger] order[j],
    ) by {
        assert(order.contains(order[i]));
        assert(order.contains(order[j]));
        lemma_discovery_order_reaches(adj, start, order, order[i]);
        lemma_discovery_order_reaches(adj, start, order, order[j]);
        lemma_distance_symmetric(adj, start, order[i]);
        lemma_triangle_inequality(adj, order[i], start, order[j]);
    }
}

/// Builds the graph of an edge list and finds what can be reached from the
/// first endpoint of its first edge.
pub fn explore(edges: &Vec<(usize, usize)>) -> (result: Result<Exploration, EstimateError>)
    requires
        forall|i: int|
            0 <= i < edges@.len() ==> (#[trigger] edges@[i]).0 < usize::MAX && edges@[i].1
                < usize::MAX,
    ensures
        edges@.len() == 0 ==> (result matches Err(e) && e == EstimateError::EmptyInput),
        edges@.len() > 0 ==> result is Ok,
        result matches Ok(found) ==> {
            &&& found.graph.wf()
            &&& is_max_endpoint(edges@, found.graph@.len() - 1)
            &&& forall|w: usize, x: usize|
                w < found.graph@.len() ==> #[trigger] found.graph@[w as int].to_multiset().count(x)
                    == edge_multiplicity(edges@, w, x)
            &&& found.start_vertex == edges@[0].0
            &&& is_discovery_order(found.graph@, found.start_vertex, found.reachable@)
            &&& mutually_reachable(found.graph@, found.reachable@)
        },
{
    match Graph::from_edges(edges) {
        Err(e) => Err(e),
        Ok(graph) => {
            let start_vertex = edges[0].0;
            let reachable = bfs_traverse(&graph, start_vertex);
            proof {
                lemma_discovered_mutually_reachable(graph@, start_vertex, reachable@);
            }
            Ok(Exploration { graph, start_vertex, reachable })
        },
    }
}

/// Adds up the distances of the pairs that a path joins, and counts them.
/// A pair that no path joins is left out of both.
pub fn total_distance(graph: &Graph, pairs: &Vec<(usize, usize)>) -> (summary: DistanceSummary)
    requires
        graph.wf(),
    ensures
        summary.counted_pairs == joined_count(graph@, pairs@),
        summary.total_distance == joined_total(graph@, pairs@),
{
    let mut total: u128 = 0;
    let mut counted: usize = 0;
    let mut k: usize = 0;
    while k < pairs.len()
        invariant
            graph.wf(),
            k <= pairs@.len(),
            counted == joined_count(graph@, pairs@.take(k as int)),
            total == joined_total(graph@, pairs@.take(k as int)),
            counted <= k,
            total <= k * usize::MAX,
        decreases pairs@.len() - k,
    {
        let (a, b) = pairs[k];
        let dist = shortest_path(graph, a, b);
        proof {
            assert(pairs@.take(k as int + 1).drop_last() == pairs@.take(k as int));
            assert(pairs@.take(k as int + 1).last() == (a, b));
            assert((k + 1) * usize::MAX == k * usize::MAX + usize::MAX) by (nonlinear_arith);
            assert(k * usize::MAX + usize::MAX <= u128::MAX) by (nonlinear_arith)
                requires
                    k < usize::MAX,
                    usize::MAX <= 0xffff_ffff_ffff_ffff,
                    u128::MAX == 0xffff_ffff_ffff_ffff_ffff_ffff_ffff_ffff,
            ;
        }
        if dist != NO_PATH {
            total = total + dist as u128;
            counted = counted + 1;
        }
        proof {
            let seen = pairs@.take(k as int + 1);
            assert(seen.len() > 0);
            assert(reachable(graph@, a, b) <==> dist != NO_PATH);
            assert(reachable(graph@, a, b) ==> dist == distance(graph@, a, b));
            assert(counted == joined_count(graph@, seen));
            assert(total == joined_total(graph@, seen));
        }
        k += 1;
    }
    assert(pairs@.take(k as int) == pairs@);
    DistanceSummary { counted_pairs: counted, total_distance: total }
}

/// The summary of a list of pairs, or the reason why there is none: no
/// pairs at all, or no pair that a path joins.
pub fn summarize_pairs(graph: &Graph, pairs: &Vec<(usize, usize)>) -> (result: Result<
    DistanceSummary,
    EstimateError,
>)
    requires
        graph.wf(),
    ensures
        agrees(result, summary_of(graph@, pairs@)),
{
    if pairs.len() == 0 {
        return Err(EstimateError::NoPairsFormed);
    }
    let summary = total_distance(graph, pairs);
    if summary.counted_pairs == 0 {
        return Err(EstimateError::AllPairsUnreachable);
    }
    Ok(summary)
}

/// Samples pairs among `vertices` and sums up their distances in `graph`.
/// Fewer than two vertices make no pair. Which pairs are sampled is up to
/// the random number generator; whatever it draws, the result is the
/// summary of some list of different pairs drawn from `vertices`.
pub fn estimate(
    graph: &Graph,
    vertices: &Vec<usize>,
    sample_size: usize,
    max_attempts: usize,
    rng: &mut rand::rngs::ThreadRng,
) -> (result: Result<DistanceSummary, EstimateError>)
    requires
        graph.wf(),
    ensures
        vertices@.len() < 2 <==> (result matches Err(e) && e
            == EstimateError::InsufficientReachableVertices),
        vertices@.len() >= 2 ==> exists|pairs: Seq<(usize, usize)>|
            {
                &&& pairs.len() <= sample_size
                &&& pairs.len() <= max_attempts
                &&& pairs.no_duplicates()
                &&& forall|k: int| 0 <= k < pairs.len() ==> drawn_from(vertices@, #[trigger] pairs[k])
                &&& #[trigger] agrees(result, summary_of(graph@, pairs))
            },
        (sample_size == 0 || max_attempts == 0) && vertices@.len() >= 2 ==> (result matches Err(e)
            && e == EstimateError::NoPairsFormed),
        mutually_reachable(graph@, vertices@) ==> !(result matches Err(e) && e
            == EstimateError::AllPairsUnreachable),
{
    if vertices.len() < 2 {
        return Err(EstimateError::InsufficientReachableVertices);
    }
    let pairs = sample_pairs(vertices, sample_size, max_attempts, rng);
    let result = summarize_pairs(graph, &pairs);
    proof {
        assert(agrees(result, summary_of(graph@, pairs@)));
        if mutually_reachable(graph@, vertices@) {
            assert forall|k: int| 0 <= k < pairs@.len() implies reachable(
                graph@,
                (#[trigger] pairs@[k]).0,
                pairs@[k].1,
            ) by {
                let pair = pairs@[k];
                assert(drawn_from(vertices@, pair));
                let (i, j) = choose|i: int, j: int|
                    0 <= i < vertices@.len() && 0 <= j < vertices@.len() && i != j && pair
                        == #[trigger] ordered(vertices@[i], vertices@[j]);
                assert(reachable(graph@, vertices@[i], vertices@[j]));
                assert(reachable(graph@, vertices@[j], vertices@[i]));
            }
            lemma_all_joined(graph@, pairs@);
        }
    }
    result
}

} // verus!
