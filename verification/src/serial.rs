//! Serial test: frequencies of the overlapping `m`-, `(m - 1)`- and
//! `(m - 2)`-bit patterns.
use vstd::arithmetic::power2::{lemma_pow2_strictly_increases, pow2};
use vstd::prelude::*;

use crate::bits::BitsData;
use crate::error::TestError;
use crate::patterns::{
    are_pattern_counts, floor_log2, ilog2, lemma_ilog2_pow2_order, lemma_ilog2_small, pattern_counts,
};

verus! {

/// The serial test refuses `m` unless `m < floor(log2(n)) - 2`.
pub open spec fn serial_rejects(n: nat, m: nat) -> bool {
    n == 0 || m + 2 >= ilog2(n)
}

/// The refusal by the bounds on `n`: for `n >= 1` with
/// `2^l <= n < 2^(l + 1)`, that is `l = floor(log2(n))`, `m` is refused
/// exactly when `m >= l - 2`; equally, exactly when `n < 2^(m + 3)`.
pub proof fn lemma_serial_refusal(n: nat, m: nat, l: nat)
    requires
        n >= 1,
        pow2(l) <= n < pow2(l + 1),
    ensures
        serial_rejects(n, m) <==> m + 2 >= l,
        serial_rejects(n, m) <==> n < pow2(m + 3),
{
    lemma_ilog2_pow2_order(n, l);
    lemma_ilog2_pow2_order(n, l + 1);
    lemma_ilog2_pow2_order(n, m + 3);
}

/// The pattern counts for block lengths `m`, `m - 1` and `m - 2`; for
/// `m == 1` the last is empty, there being no block length `-1`.
pub fn serial_counts(data: &BitsData, m: usize) -> (res: Result<(Vec<usize>, Vec<usize>, Vec<usize>), TestError>)
    requires
        m >= 1 || data@.len() < 8,
    ensures
        res is Err <==> serial_rejects(data@.len(), m as nat),
        res is Err <==> data@.len() == 0 || data@.len() < pow2((m + 3) as nat),
        res matches Err(e) ==> e == TestError::SerialParameters,
        res matches Ok(c) ==> {
            &&& are_pattern_counts(data@, m as nat, c.0@)
            &&& are_pattern_counts(data@, (m - 1) as nat, c.1@)
            &&& m >= 2 ==> are_pattern_counts(data@, (m - 2) as nat, c.2@)
            &&& m == 1 ==> c.2@.len() == 0
        },
{
    let n = data.len();
    if n == 0 {
        return Err(TestError::SerialParameters);
    }
    proof {
        lemma_ilog2_pow2_order(n as nat, (m + 3) as nat);
        vstd::arithmetic::power2::lemma2_to64();
    }
    let l = floor_log2(n);
    if m >= l as usize || l as usize - m <= 2 {
        return Err(TestError::SerialParameters);
    }
    proof {
        lemma_ilog2_small(n);
        lemma_pow2_strictly_increases(m as nat, l as nat);
        lemma_pow2_strictly_increases((m - 1) as nat, m as nat);
        if m >= 2 {
            lemma_pow2_strictly_increases((m - 2) as nat, (m - 1) as nat);
        }
    }
    let first = pattern_counts(data, m as u32);
    let second = pattern_counts(data, (m - 1) as u32);
    let third = if m >= 2 {
        pattern_counts(data, (m - 2) as u32)
    } else {
        Vec::new()
    };
    Ok((first, second, third))
}

} // verus!
