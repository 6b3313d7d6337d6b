//! Approximate entropy test: frequencies of the overlapping `m`- and
//! `(m + 1)`-bit patterns.
use vstd::arithmetic::power2::{lemma_pow2_strictly_increases, pow2};
use vstd::prelude::*;

use crate::bits::BitsData;
use crate::error::TestError;
use crate::patterns::{
    are_pattern_counts, floor_log2, ilog2, lemma_ilog2_pow2_order, lemma_ilog2_small,
    pattern_counts,
};

verus! {

/// The approximate entropy test refuses `m` unless `m < floor(log2(n)) - 5`.
pub open spec fn approximate_entropy_rejects(n: nat, m: nat) -> bool {
    n == 0 || m + 5 >= ilog2(n)
}

/// The refusal by the bounds on `n`: for `n >= 1` with
/// `2^l <= n < 2^(l + 1)`, that is `l = floor(log2(n))`, `m` is refused
/// exactly when `m >= l - 5`; equally, exactly when `n < 2^(m + 6)`.
pub proof fn lemma_approximate_entropy_refusal(n: nat, m: nat, l: nat)
    requires
        n >= 1,
        pow2(l) <= n < pow2(l + 1),
    ensures
        approximate_entropy_rejects(n, m) <==> m + 5 >= l,
        approximate_entropy_rejects(n, m) <==> n < pow2(m + 6),
{
    lemma_ilog2_pow2_order(n, l);
    lemma_ilog2_pow2_order(n, l + 1);
    lemma_ilog2_pow2_order(n, m + 6);
}

/// The pattern counts for block lengths `m` and `m + 1`.
pub fn approximate_entropy_counts(data: &BitsData, m: usize) -> (res: Result<(Vec<usize>, Vec<usize>), TestError>)
    ensures
        res is Err <==> approximate_entropy_rejects(data@.len(), m as nat),
        res is Err <==> data@.len() == 0 || data@.len() < pow2((m + 6) as nat),
        res matches Err(e) ==> e == TestError::ApproximateEntropyParameters,
        res matches Ok(c) ==> {
            &&& are_pattern_counts(data@, m as nat, c.0@)
            &&& are_pattern_counts(data@, (m + 1) as nat, c.1@)
        },
{
    let n = data.len();
    if n == 0 {
        return Err(TestError::ApproximateEntropyParameters);
    }
    proof {
        lemma_ilog2_pow2_order(n as nat, (m + 6) as nat);
    }
    let l = floor_log2(n);
    if m >= l as usize || l as usize - m <= 5 {
        return Err(TestError::ApproximateEntropyParameters);
    }
    proof {
        lemma_ilog2_small(n);
        lemma_pow2_strictly_increases((m + 1) as nat, l as nat);
        lemma_pow2_strictly_increases(m as nat, (m + 1) as nat);
    }
    let first = pattern_counts(data, m as u32);
    let second = pattern_counts(data, (m + 1) as u32);
    Ok((first, second))
}

} // verus!
