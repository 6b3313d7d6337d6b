//! The random walk of a bit sequence: each one a step up, each zero a step down.
use vstd::prelude::*;

use crate::bits::count_ones;

verus! {

/// One step of the walk: `+1` for a one, `-1` for a zero.
pub open spec fn step(b: bool) -> int {
    if b {
        1
    } else {
        -1
    }
}

/// Position of the walk after its first `k` steps (`walk(s, 0) == 0`).
pub open spec fn walk(s: Seq<bool>, k: int) -> int
    decreases k,
{
    if k <= 0 {
        0
    } else {
        walk(s, k - 1) + step(s[k - 1])
    }
}

/// Absolute value.
pub open spec fn abs(x: int) -> int {
    if x < 0 {
        -x
    } else {
        x
    }
}

/// The walk never leaves `[-k, k]` in `k` steps.
pub proof fn lemma_walk_bounded(s: Seq<bool>, k: int)
    requires
        0 <= k,
    ensures
        -k <= walk(s, k) <= k,
        (walk(s, k) - k) % 2 == 0,
    decreases k,
{
    if k > 0 {
        lemma_walk_bounded(s, k - 1);
    }
}

/// Number of returns to zero within the first `k` steps.
pub open spec fn zeros_upto(s: Seq<bool>, k: int) -> nat
    decreases k,
{
    if k <= 0 {
        0
    } else {
        zeros_upto(s, k - 1) + if walk(s, k) == 0 { 1nat } else { 0nat }
    }
}

/// Number of cycles of the walk: the stretches between returns to zero, the
/// last one counted only where the walk does not end at zero.
pub open spec fn cycle_count(s: Seq<bool>) -> nat {
    zeros_upto(s, s.len() as int) + if walk(s, s.len() as int) != 0 { 1nat } else { 0nat }
}

/// Number of steps `1 <= j <= k` after which the walk stands at `x`.
pub open spec fn visits(s: Seq<bool>, x: int, k: int) -> nat
    decreases k,
{
    if k <= 0 {
        0
    } else {
        visits(s, x, k - 1) + if walk(s, k) == x { 1nat } else { 0nat }
    }
}

/// The cycle (numbered from 1) that step `j >= 1` belongs to.
pub open spec fn cycle_of(s: Seq<bool>, j: int) -> nat {
    zeros_upto(s, j - 1) + 1
}

/// Number of steps `1 <= j <= k` of cycle `t` after which the walk stands at `x`.
pub open spec fn cycle_visits(s: Seq<bool>, x: int, t: int, k: int) -> nat
    decreases k,
{
    if k <= 0 {
        0
    } else {
        cycle_visits(s, x, t, k - 1) + if cycle_of(s, k) == t && walk(s, k) == x {
            1nat
        } else {
            0nat
        }
    }
}

/// Counts never exceed the number of steps looked at.
pub proof fn lemma_counts_bounded(s: Seq<bool>, x: int, t: int, k: int)
    requires
        k >= 0,
    ensures
        zeros_upto(s, k) <= k,
        visits(s, x, k) <= k,
        cycle_visits(s, x, t, k) <= k,
    decreases k,
{
    if k > 0 {
        lemma_counts_bounded(s, x, t, k - 1);
    }
}

/// A cycle that closed by step `j` gets no further visits.
pub proof fn lemma_closed_cycle_visits(s: Seq<bool>, x: int, t: int, j: int, k: int)
    requires
        0 <= j <= k,
        t <= zeros_upto(s, j),
    ensures
        cycle_visits(s, x, t, k) == cycle_visits(s, x, t, j),
    decreases k - j,
{
    if k > j {
        lemma_closed_cycle_visits(s, x, t, j, k - 1);
        lemma_zeros_monotone(s, j, k - 1);
    }
}

/// A cycle that has not started by step `k` has no visits yet.
pub proof fn lemma_future_cycle_visits(s: Seq<bool>, x: int, t: int, k: int)
    requires
        k >= 0,
        t > zeros_upto(s, k - 1) + 1,
    ensures
        cycle_visits(s, x, t, k) == 0,
    decreases k,
{
    if k > 0 {
        lemma_zeros_monotone(s, k - 2, k - 1);
        lemma_future_cycle_visits(s, x, t, k - 1);
    }
}

/// `zeros_upto` never decreases.
pub proof fn lemma_zeros_monotone(s: Seq<bool>, j: int, k: int)
    requires
        j <= k,
    ensures
        zeros_upto(s, j) <= zeros_upto(s, k),
    decreases k - j,
{
    if k > j {
        lemma_zeros_monotone(s, j, k - 1);
    }
}

/// Between steps `j` and `k` the walk moves by at most `k - j`.
pub proof fn lemma_walk_diff_bounded(s: Seq<bool>, j: int, k: int)
    requires
        0 <= j <= k,
    ensures
        -(k - j) <= walk(s, k) - walk(s, j) <= k - j,
    decreases k - j,
{
    if k > j {
        lemma_walk_diff_bounded(s, j, k - 1);
    }
}

/// The walk over all of a sequence ends at the excess of ones over zeros.
pub proof fn lemma_walk_end(s: Seq<bool>)
    ensures
        walk(s, s.len() as int) == 2 * count_ones(s) - s.len(),
    decreases s.len(),
{
    if s.len() > 0 {
        let t = s.drop_last();
        lemma_walk_end(t);
        lemma_walk_prefix(s, t, t.len() as int);
    }
}

/// The walk over a prefix agrees with the walk over the whole sequence.
pub proof fn lemma_walk_prefix(s: Seq<bool>, t: Seq<bool>, k: int)
    requires
        0 <= k <= t.len() <= s.len(),
        t == s.take(t.len() as int),
    ensures
        walk(t, k) == walk(s, k),
    decreases k,
{
    if k > 0 {
        lemma_walk_prefix(s, t, k - 1);
    }
}

/// Visits to `x` within the first `k` steps, summed over the cycles `1 ..= t`.
pub open spec fn cycle_visits_total(s: Seq<bool>, x: int, t: int, k: int) -> nat
    decreases t,
{
    if t <= 0 {
        0
    } else {
        cycle_visits_total(s, x, t - 1, k) + cycle_visits(s, x, t, k)
    }
}

proof fn lemma_cycle_visits_total_step(s: Seq<bool>, x: int, t: int, k: int)
    requires
        k >= 1,
        t >= 0,
    ensures
        cycle_visits_total(s, x, t, k) == cycle_visits_total(s, x, t, k - 1) + if cycle_of(s, k)
            <= t && walk(s, k) == x {
            1nat
        } else {
            0nat
        },
    decreases t,
{
    if t > 0 {
        lemma_cycle_visits_total_step(s, x, t - 1, k);
    }
}

proof fn lemma_cycle_visits_total_zero(s: Seq<bool>, x: int, t: int)
    ensures
        cycle_visits_total(s, x, t, 0) == 0,
    decreases t,
{
    if t > 0 {
        lemma_cycle_visits_total_zero(s, x, t - 1);
    }
}

proof fn lemma_cycles_cover(s: Seq<bool>, x: int, k: int)
    requires
        0 <= k <= s.len(),
    ensures
        cycle_visits_total(s, x, cycle_count(s) as int, k) == visits(s, x, k),
    decreases k,
{
    if k > 0 {
        lemma_cycles_cover(s, x, k - 1);
        lemma_cycle_visits_total_step(s, x, cycle_count(s) as int, k);
        lemma_zeros_monotone(s, k - 1, s.len() - 1);
    } else {
        lemma_cycle_visits_total_zero(s, x, cycle_count(s) as int);
    }
}

/// The cycles split the walk: for every state, its visits over the cycles
/// add up to its visits over the whole walk.
pub proof fn lemma_cycles_partition_visits(s: Seq<bool>, x: int)
    ensures
        cycle_visits_total(s, x, cycle_count(s) as int, s.len() as int) == visits(s, x, s.len() as int),
{
    lemma_cycles_cover(s, x, s.len() as int);
}

} // verus!
