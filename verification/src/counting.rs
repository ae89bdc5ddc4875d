//! Counting arguments: distinct numbers in a range, and pairs of positions.

use vstd::prelude::*;

verus! {

/// A sequence of distinct integers from zero up to and without `n` has at
/// most `n` entries.
pub proof fn lemma_distinct_in_range(s: Seq<int>, n: int)
    requires
        s.no_duplicates(),
        forall|i: int| 0 <= i < s.len() ==> 0 <= #[trigger] s[i] < n,
    ensures
        s.len() <= n || s.len() == 0,
    decreases n,
{
    if s.len() == 0 {
    } else if n <= 0 {
        assert(0 <= s[0] < n);
    } else if exists|i: int| 0 <= i < s.len() && s[i] == n - 1 {
        let i = choose|i: int| 0 <= i < s.len() && s[i] == n - 1;
        let t = s.remove(i);
        assert forall|j: int| 0 <= j < t.len() implies 0 <= #[trigger] t[j] < n - 1 by {
            if j < i {
                assert(t[j] == s[j]);
            } else {
                assert(t[j] == s[j + 1]);
            }
        }
        lemma_distinct_in_range(t, n - 1);
    } else {
        assert forall|j: int| 0 <= j < s.len() implies 0 <= #[trigger] s[j] < n - 1 by {
            assert(0 <= s[j] < n);
        }
        lemma_distinct_in_range(s, n - 1);
    }
}

/// A sequence of distinct numbers below `n` has at most `n` entries.
pub proof fn lemma_distinct_bounded(s: Seq<usize>, n: nat)
    requires
        s.no_duplicates(),
        forall|i: int| 0 <= i < s.len() ==> #[trigger] s[i] < n,
    ensures
        s.len() <= n,
{
    let t = Seq::new(s.len(), |i: int| s[i] as int);
    assert forall|i: int| 0 <= i < t.len() implies 0 <= #[trigger] t[i] < n by {
        assert(s[i] < n);
    }
    lemma_distinct_in_range(t, n as int);
}

/// The number of pairs that can be made of `h` things: `h * (h - 1) / 2`,
/// written as the sum `0 + 1 + ... + (h - 1)`.
pub open spec fn triangle(h: nat) -> nat
    decreases h,
{
    if h == 0 {
        0
    } else {
        triangle((h - 1) as nat) + (h - 1) as nat
    }
}

/// More things make no fewer pairs.
pub proof fn lemma_triangle_monotone(a: nat, b: nat)
    requires
        a <= b,
    ensures
        triangle(a) <= triangle(b),
    decreases b,
{
    if a < b {
        lemma_triangle_monotone(a, (b - 1) as nat);
    }
}

/// Twice the number of pairs of `h` things is `h * (h - 1)`.
pub proof fn lemma_triangle_closed(h: nat)
    ensures
        2 * triangle(h) == h * (h - 1),
    decreases h,
{
    if h > 0 {
        let k = (h - 1) as nat;
        lemma_triangle_closed(k);
        assert(2 * k + k * (k - 1) == h * (h - 1)) by (nonlinear_arith)
            requires
                h == k + 1,
        ;
    } else {
        assert(h * (h - 1) == 0) by (nonlinear_arith)
            requires
                h == 0,
        ;
    }
}

/// A number for the pair of two different positions, the same whichever
/// of the two is named first.
pub open spec fn position_code(i: int, j: int) -> int {
    if i < j {
        triangle(j as nat) + i
    } else {
        triangle(i as nat) + j
    }
}

/// The pairs of positions below `m` have their numbers below
/// `triangle(m)`.
pub proof fn lemma_position_code_range(i: int, j: int, m: nat)
    requires
        0 <= i < m,
        0 <= j < m,
        i != j,
    ensures
        0 <= position_code(i, j) < triangle(m),
{
    let hi = if i < j {
        j
    } else {
        i
    };
    assert(triangle((hi + 1) as nat) == triangle(hi as nat) + hi);
    lemma_triangle_monotone((hi + 1) as nat, m);
}

/// Different pairs of positions have different numbers.
pub proof fn lemma_position_code_injective(i: int, j: int, i2: int, j2: int)
    requires
        0 <= i,
        0 <= j,
        i != j,
        0 <= i2,
        0 <= j2,
        i2 != j2,
        position_code(i, j) == position_code(i2, j2),
    ensures
        (i == i2 && j == j2) || (i == j2 && j == i2),
{
    let hi = if i < j {
        j
    } else {
        i
    };
    let hi2 = if i2 < j2 {
        j2
    } else {
        i2
    };
    assert(triangle((hi + 1) as nat) == triangle(hi as nat) + hi);
    assert(triangle((hi2 + 1) as nat) == triangle(hi2 as nat) + hi2);
    if hi < hi2 {
        lemma_triangle_monotone((hi + 1) as nat, hi2 as nat);
    }
    if hi2 < hi {
        lemma_triangle_monotone((hi2 + 1) as nat, hi as nat);
    }
}

} // verus!
