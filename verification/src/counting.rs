//! Counting over integer ranges: splitting a range, shifting it, and
//! reflecting it.
use vstd::prelude::*;

verus! {

/// `f(lo) + f(lo + 1) + ... + f(hi - 1)`.
pub open spec fn count_range(f: spec_fn(int) -> nat, lo: int, hi: int) -> nat
    decreases hi - lo,
{
    if hi <= lo {
        0
    } else {
        count_range(f, lo, hi - 1) + f(hi - 1)
    }
}

/// Sums of pointwise equal terms are equal.
pub proof fn lemma_count_range_ext(f: spec_fn(int) -> nat, g: spec_fn(int) -> nat, lo: int, hi: int)
    requires
        forall|i: int| lo <= i < hi ==> #[trigger] f(i) == g(i),
    ensures
        count_range(f, lo, hi) == count_range(g, lo, hi),
    decreases hi - lo,
{
    if hi > lo {
        lemma_count_range_ext(f, g, lo, hi - 1);
    }
}

/// A range splits at any point inside it.
pub proof fn lemma_count_range_split(f: spec_fn(int) -> nat, lo: int, mid: int, hi: int)
    requires
        lo <= mid <= hi,
    ensures
        count_range(f, lo, hi) == count_range(f, lo, mid) + count_range(f, mid, hi),
    decreases hi - mid,
{
    if hi > mid {
        lemma_count_range_split(f, lo, mid, hi - 1);
    }
}

/// Shifting the terms shifts the range.
pub proof fn lemma_count_range_shift(f: spec_fn(int) -> nat, g: spec_fn(int) -> nat, d: int, lo: int, hi: int)
    requires
        forall|i: int| lo <= i < hi ==> #[trigger] g(i) == f(i + d),
    ensures
        count_range(g, lo, hi) == count_range(f, lo + d, hi + d),
    decreases hi - lo,
{
    if hi > lo {
        lemma_count_range_shift(f, g, d, lo, hi - 1);
    }
}

/// Reading the terms backwards reflects the range.
pub proof fn lemma_count_range_reflect(f: spec_fn(int) -> nat, g: spec_fn(int) -> nat, c: int, lo: int, hi: int)
    requires
        forall|i: int| lo <= i < hi ==> #[trigger] g(i) == f(c - i),
    ensures
        count_range(g, lo, hi) == count_range(f, c - hi + 1, c - lo + 1),
    decreases hi - lo,
{
    if hi > lo {
        lemma_count_range_reflect(f, g, c, lo, hi - 1);
        lemma_count_range_split(f, c - hi + 1, c - hi + 2, c - lo + 1);
        assert(count_range(f, c - hi + 1, c - hi + 2) == f(c - hi + 1)) by {
            assert(count_range(f, c - hi + 1, c - hi + 1) == 0);
        }
    }
}

} // verus!
