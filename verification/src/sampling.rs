//! Random sampling of distinct pairs of vertices.

use crate::counting::{
    lemma_distinct_in_range, lemma_position_code_injective, lemma_position_code_range,
    lemma_triangle_closed, position_code, triangle,
};
use rand::Rng;
use vstd::prelude::*;

verus! {

/// The random number generator of the `rand` crate that the sampler draws
/// from. Nothing is known of its state.
#[verifier::external_type_specification]
#[verifier::external_body]
pub struct ExThreadRng(rand::rngs::ThreadRng);

/// How many pairs an estimate samples.
pub const SAMPLE_SIZE: usize = 1000;

/// How many draws an estimate allows the sampler: a hundred for each pair.
pub const MAX_ATTEMPTS: usize = 100000;

/// The pair `{a, b}` written with its smaller member first.
pub open spec fn ordered(a: usize, b: usize) -> (usize, usize) {
    if a < b {
        (a, b)
    } else {
        (b, a)
    }
}

/// `pair` is made of the entries at two different positions of `vertices`.
pub open spec fn drawn_from(vertices: Seq<usize>, pair: (usize, usize)) -> bool {
    exists|i: int, j: int|
        0 <= i < vertices.len() && 0 <= j < vertices.len() && i != j && pair == #[trigger] ordered(
            vertices[i],
            vertices[j],
        )
}

/// What becomes of the pairs collected so far when the positions `i` and
/// `j` are drawn: the pair of the two entries joins them, unless the two
/// positions are the same or the pair has been collected before.
pub open spec fn with_draw(
    vertices: Seq<usize>,
    pairs: Seq<(usize, usize)>,
    i: int,
    j: int,
) -> Seq<(usize, usize)> {
    if i != j && !pairs.contains(ordered(vertices[i], vertices[j])) {
        pairs.push(ordered(vertices[i], vertices[j]))
    } else {
        pairs
    }
}

/// The pairs collected after the draws of `draws`, each a pair of
/// positions, taken one after the other from no pairs at all.
pub open spec fn pairs_after(vertices: Seq<usize>, draws: Seq<(usize, usize)>) -> Seq<
    (usize, usize),
>
    decreases draws.len(),
{
    if draws.len() == 0 {
        Seq::empty()
    } else {
        with_draw(
            vertices,
            pairs_after(vertices, draws.drop_last()),
            draws.last().0 as int,
            draws.last().1 as int,
        )
    }
}

/// `draws` is what a sampler may draw before it stops: every draw names
/// two positions of `vertices`; before each draw fewer than `sample_size`
/// pairs had been collected; and after the last one either `sample_size`
/// pairs are there or `max_attempts` draws have been made.
pub open spec fn is_sampling_run(
    vertices: Seq<usize>,
    sample_size: usize,
    max_attempts: usize,
    draws: Seq<(usize, usize)>,
) -> bool {
    &&& draws.len() <= max_attempts
    &&& forall|k: int|
        0 <= k < draws.len() ==> (#[trigger] draws[k]).0 < vertices.len() && draws[k].1
            < vertices.len()
    &&& forall|k: int|
        0 <= k < draws.len() ==> pairs_after(vertices, #[trigger] draws.take(k)).len()
            < sample_size
    &&& pairs_after(vertices, draws).len() == sample_size || draws.len() == max_attempts
}

/// Draws a number below `bound` with `Rng::gen_range` of the `rand` crate,
/// on the range from zero up to and without `bound`.
///
/// Trusted: the number drawn lies in that range. `gen_range` panics on an
/// empty range, so the bound must not be zero. The thread's generator
/// fetches a new seed from the operating system now and then and panics
/// if the system refuses it; no argument has a part in that.
#[verifier::external_body]
fn draw_index(rng: &mut rand::rngs::ThreadRng, bound: usize) -> (index: usize)
    requires
        bound > 0,
    ensures
        index < bound,
{
    rng.gen_range(0..bound)
}

/// The pair `{a, b}` with its smaller member first.
pub fn ordered_pair(a: usize, b: usize) -> (pair: (usize, usize))
    ensures
        pair == ordered(a, b),
{
    if a < b {
        (a, b)
    } else {
        (b, a)
    }
}

/// Whether `pair` is among `pairs`.
fn contains_pair(pairs: &Vec<(usize, usize)>, pair: (usize, usize)) -> (found: bool)
    ensures
        found == pairs@.contains(pair),
{
    let mut k: usize = 0;
    while k < pairs.len()
        invariant
            k <= pairs@.len(),
            forall|m: int| 0 <= m < k ==> pairs@[m] != pair,
        decreases pairs@.len() - k,
    {
        let candidate = pairs[k];
        if candidate.0 == pair.0 && candidate.1 == pair.1 {
            return true;
        }
        k += 1;
    }
    false
}

/// Takes one draw of two positions into account: the pair of the entries at
/// `i` and `j` is added to `pairs` if the positions differ and the pair is
/// not there yet. Says whether it was added.
pub fn offer_pair(
    vertices: &Vec<usize>,
    pairs: &mut Vec<(usize, usize)>,
    i: usize,
    j: usize,
) -> (added: bool)
    requires
        i < vertices@.len(),
        j < vertices@.len(),
    ensures
        final(pairs)@ == with_draw(vertices@, old(pairs)@, i as int, j as int),
        added == (i != j && !old(pairs)@.contains(ordered(vertices@[i as int], vertices@[j as int]))),
{
    if i == j {
        return false;
    }
    let pair = ordered_pair(vertices[i], vertices[j]);
    if contains_pair(pairs, pair) {
        return false;
    }
    pairs.push(pair);
    true
}

/// One more draw keeps the collected pairs distinct and drawn from the
/// vertices.
pub proof fn lemma_with_draw(vertices: Seq<usize>, pairs: Seq<(usize, usize)>, i: int, j: int)
    requires
        0 <= i < vertices.len(),
        0 <= j < vertices.len(),
        pairs.no_duplicates(),
        forall|k: int| 0 <= k < pairs.len() ==> drawn_from(vertices, #[trigger] pairs[k]),
    ensures
        with_draw(vertices, pairs, i, j).no_duplicates(),
        forall|k: int|
            0 <= k < with_draw(vertices, pairs, i, j).len() ==> drawn_from(
                vertices,
                #[trigger] with_draw(vertices, pairs, i, j)[k],
            ),
        pairs.len() <= with_draw(vertices, pairs, i, j).len() <= pairs.len() + 1,
        i == j ==> with_draw(vertices, pairs, i, j) == pairs,
{
    let next = with_draw(vertices, pairs, i, j);
    let pair = ordered(vertices[i], vertices[j]);
    if i != j && !pairs.contains(pair) {
        assert forall|k: int| 0 <= k < next.len() implies drawn_from(vertices, #[trigger] next[k]) by {
            if k < pairs.len() {
                assert(next[k] == pairs[k]);
            } else {
                assert(next[k] == ordered(vertices[i], vertices[j]));
            }
        }
        assert forall|a: int, b: int| 0 <= a < next.len() && 0 <= b < next.len() && a != b implies next[a]
            != next[b] by {
            if a < pairs.len() {
                assert(pairs.contains(pairs[a]));
            }
            if b < pairs.len() {
                assert(pairs.contains(pairs[b]));
            }
        }
    }
}

/// The number of the two positions that `pair` is made from.
spec fn pair_code(vertices: Seq<usize>, pair: (usize, usize)) -> int {
    let (i, j) = choose|i: int, j: int|
        0 <= i < vertices.len() && 0 <= j < vertices.len() && i != j && pair == #[trigger] ordered(
            vertices[i],
            vertices[j],
        );
    position_code(i, j)
}

/// Different pairs drawn from `m` vertices are at most `m * (m - 1) / 2`.
pub proof fn lemma_pairs_bounded(vertices: Seq<usize>, pairs: Seq<(usize, usize)>)
    requires
        pairs.no_duplicates(),
        forall|k: int| 0 <= k < pairs.len() ==> drawn_from(vertices, #[trigger] pairs[k]),
    ensures
        2 * pairs.len() <= vertices.len() * (vertices.len() - 1),
{
    let m = vertices.len();
    let codes = Seq::new(pairs.len(), |k: int| pair_code(vertices, pairs[k]));
    assert forall|k: int| 0 <= k < codes.len() implies 0 <= #[trigger] codes[k] < triangle(m) by {
        assert(drawn_from(vertices, pairs[k]));
        let (i, j) = choose|i: int, j: int|
            0 <= i < vertices.len() && 0 <= j < vertices.len() && i != j && pairs[k]
                == #[trigger] ordered(vertices[i], vertices[j]);
        lemma_position_code_range(i, j, m);
    }
    assert forall|a: int, b: int| 0 <= a < codes.len() && 0 <= b < codes.len() && a != b implies codes[a]
        != codes[b] by {
        assert(drawn_from(vertices, pairs[a]));
        assert(drawn_from(vertices, pairs[b]));
        let (i, j) = choose|i: int, j: int|
            0 <= i < vertices.len() && 0 <= j < vertices.len() && i != j && pairs[a]
                == #[trigger] ordered(vertices[i], vertices[j]);
        let (i2, j2) = choose|i2: int, j2: int|
            0 <= i2 < vertices.len() && 0 <= j2 < vertices.len() && i2 != j2 && pairs[b]
                == #[trigger] ordered(vertices[i2], vertices[j2]);
        if codes[a] == codes[b] {
            lemma_position_code_injective(i, j, i2, j2);
            assert(pairs[a] == pairs[b]);
        }
    }
    lemma_distinct_in_range(codes, triangle(m) as int);
    lemma_triangle_closed(m);
}

/// Draws pairs of positions at random, up to `max_attempts` times, until
/// `sample_size` different pairs of vertices have come together. A draw of
/// the same position twice counts as an attempt and gives no pair; so does
/// a pair that was drawn before. With few vertices or few attempts there
/// may be fewer pairs than asked for, or none. Whatever is drawn, the
/// result is what the draws leave, taken one after the other, up to the
/// draw after which the sampler stops.
pub fn sample_pairs(
    vertices: &Vec<usize>,
    sample_size: usize,
    max_attempts: usize,
    rng: &mut rand::rngs::ThreadRng,
) -> (pairs: Vec<(usize, usize)>)
    requires
        vertices@.len() > 0,
    ensures
        exists|draws: Seq<(usize, usize)>| #[trigger]
            is_sampling_run(vertices@, sample_size, max_attempts, draws) && pairs@ == pairs_after(
                vertices@,
                draws,
            ),
        pairs@.len() <= sample_size,
        pairs@.len() <= max_attempts,
        2 * pairs@.len() <= vertices@.len() * (vertices@.len() - 1),
        pairs@.no_duplicates(),
        forall|k: int| 0 <= k < pairs@.len() ==> drawn_from(vertices@, #[trigger] pairs@[k]),
        vertices@.no_duplicates() ==> forall|k: int|
            0 <= k < pairs@.len() ==> (#[trigger] pairs@[k]).0 < pairs@[k].1,
        vertices@.len() == 1 ==> pairs@.len() == 0,
{
    let visited_count = vertices.len();
    let mut random_pairs: Vec<(usize, usize)> = Vec::new();
    let mut attempts: usize = 0;
    let ghost mut draws: Seq<(usize, usize)> = Seq::empty();
    while random_pairs.len() < sample_size && attempts < max_attempts
        invariant
            draws.len() == attempts,
            random_pairs@ == pairs_after(vertices@, draws),
            forall|k: int|
                0 <= k < draws.len() ==> (#[trigger] draws[k]).0 < vertices@.len() && draws[k].1
                    < vertices@.len(),
            forall|k: int|
                0 <= k < draws.len() ==> pairs_after(vertices@, #[trigger] draws.take(k)).len()
                    < sample_size,
            visited_count == vertices@.len(),
            visited_count > 0,
            attempts <= max_attempts,
            random_pairs@.len() <= attempts,
            random_pairs@.len() <= sample_size,
            random_pairs@.no_duplicates(),
            forall|k: int|
                0 <= k < random_pairs@.len() ==> drawn_from(vertices@, #[trigger] random_pairs@[k]),
            vertices@.len() == 1 ==> random_pairs@.len() == 0,
        decreases max_attempts - attempts,
    {
        let i = draw_index(rng, visited_count);
        let j = draw_index(rng, visited_count);
        proof {
            lemma_with_draw(vertices@, random_pairs@, i as int, j as int);
        }
        offer_pair(vertices, &mut random_pairs, i, j);
        attempts += 1;
        proof {
            let before = draws;
            draws = before.push((i, j));
            assert(draws.drop_last() == before);
            assert forall|k: int| 0 <= k < draws.len() implies pairs_after(
                vertices@,
                #[trigger] draws.take(k),
            ).len() < sample_size by {
                if k < before.len() {
                    assert(draws.take(k) == before.take(k));
                } else {
                    assert(draws.take(k) == before);
                }
            }
        }
    }
    proof {
        assert(is_sampling_run(vertices@, sample_size, max_attempts, draws));
        lemma_pairs_bounded(vertices@, random_pairs@);
        if vertices@.no_duplicates() {
            assert forall|k: int| 0 <= k < random_pairs@.len() implies (#[trigger] random_pairs@[k]).0
                < random_pairs@[k].1 by {
                let pair = random_pairs@[k];
                assert(drawn_from(vertices@, pair));
                let (i, j) = choose|i: int, j: int|
                    0 <= i < vertices@.len() && 0 <= j < vertices@.len() && i != j && pair
                        == #[trigger] ordered(vertices@[i], vertices@[j]);
                assert(vertices@[i] != vertices@[j]);
            }
        }
    }
    random_pairs
}

} // verus!
