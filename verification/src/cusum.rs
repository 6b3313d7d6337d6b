//! Cumulative sums test: the largest excursion of the walk from zero.
use vstd::prelude::*;

use crate::bits::BitsData;
use crate::error::TestError;
use crate::walk::{abs, lemma_walk_bounded, lemma_walk_diff_bounded, walk};

verus! {

/// Least number of bits the cumulative sums test accepts.
pub const CUSUM_MIN_BITS: usize = 100;

/// `z` is the largest value of `f(k)` for `0 <= k <= n`.
pub open spec fn is_max_over(f: spec_fn(int) -> int, n: int, z: int) -> bool {
    &&& forall|k: int| 0 <= k <= n ==> #[trigger] f(k) <= z
    &&& exists|k: int| 0 <= k <= n && #[trigger] f(k) == z
}

/// Largest distance of the forward walk from zero.
pub open spec fn is_forward_excursion(s: Seq<bool>, z: int) -> bool {
    is_max_over(|k: int| abs(walk(s, k)), s.len() as int, z)
}

/// Largest distance of the walk taken backwards from its end.
pub open spec fn is_backward_excursion(s: Seq<bool>, z: int) -> bool {
    is_max_over(|k: int| abs(walk(s, s.len() as int) - walk(s, k)), s.len() as int, z)
}

/// The largest excursions of the walk, forward (`z`) and backward (`z_rev`).
pub fn cusum_excursions(data: &BitsData) -> (res: Result<(usize, usize), TestError>)
    ensures
        res is Err <==> data@.len() < CUSUM_MIN_BITS,
        res matches Err(e) ==> e == TestError::CusumTooShort,
        res matches Ok(r) ==> {
            &&& is_forward_excursion(data@, r.0 as int)
            &&& is_backward_excursion(data@, r.1 as int)
            &&& 1 <= r.0 <= data@.len()
            &&& 1 <= r.1 <= data@.len()
        },
{
    let n = data.len();
    if n < CUSUM_MIN_BITS {
        return Err(TestError::CusumTooShort);
    }
    let ghost s = data@;
    let mut cur: i128 = 0;
    let mut sup: i128 = 0;
    let mut inf: i128 = 0;
    let ghost mut k_sup: int = 0;
    let ghost mut k_inf: int = 0;
    let mut i: usize = 0;
    while i < n
        invariant
            i <= n == s.len(),
            s == data@,
            cur == walk(s, i as int),
            0 <= k_sup <= i && walk(s, k_sup) == sup,
            0 <= k_inf <= i && walk(s, k_inf) == inf,
            forall|k: int| 0 <= k <= i ==> inf <= #[trigger] walk(s, k) <= sup,
            0 <= sup <= i,
            -(i as int) <= inf <= 0,
        decreases n - i,
    {
        proof {
            lemma_walk_bounded(s, i as int);
        }
        if data.index(i) {
            cur = cur + 1;
        } else {
            cur = cur - 1;
        }
        if cur > sup {
            sup = sup + 1;
            proof {
                k_sup = i + 1;
            }
        }
        if cur < inf {
            inf = inf - 1;
            proof {
                k_inf = i + 1;
            }
        }
        i = i + 1;
    }
    let z: i128 = if sup > -inf {
        sup
    } else {
        -inf
    };
    let zrev: i128 = if sup - cur > cur - inf {
        sup - cur
    } else {
        cur - inf
    };
    proof {
        lemma_walk_bounded(s, n as int);
        lemma_walk_bounded(s, 1);
        lemma_walk_bounded(s, n - 1);
        let f = |k: int| abs(walk(s, k));
        assert(f(1) == 1);
        if sup > -inf {
            assert(f(k_sup) == z);
        } else {
            assert(f(k_inf) == z);
        }
        let g = |k: int| abs(walk(s, s.len() as int) - walk(s, k));
        assert(g((n - 1) as int) == 1);
        if sup - cur > cur - inf {
            assert(g(k_sup) == zrev);
            lemma_walk_diff_bounded(s, k_sup, n as int);
        } else {
            assert(g(k_inf) == zrev);
            lemma_walk_diff_bounded(s, k_inf, n as int);
        }
    }
    Ok((z as usize, zrev as usize))
}

/// Truncating division, rounding toward zero, for a positive divisor.
pub open spec fn trunc_div(a: int, b: int) -> int {
    if a >= 0 {
        a / b
    } else {
        -((-a) / b)
    }
}

/// Ranges of the summation index `k` in the p-value series for excursion `z`:
/// the first sum runs over `r.0 ..= r.1`, the second over `r.2 ..= r.1`.
pub fn cusum_sum_ranges(n: usize, z: usize) -> (r: (i128, i128, i128))
    requires
        1 <= z <= n,
    ensures
        r.0 == trunc_div(trunc_div(-(n as int), z as int) + 1, 4),
        r.1 == trunc_div(trunc_div(n as int, z as int) - 1, 4),
        r.2 == trunc_div(trunc_div(-(n as int), z as int) - 3, 4),
{
    let q = n / z;
    proof {
        assert(q >= 1) by (nonlinear_arith)
            requires
                1 <= z <= n,
                q == n / z,
        ;
    }
    let qq = q as i128;
    let first = -((qq - 1) / 4);
    let last = (qq - 1) / 4;
    let second = -((qq + 3) / 4);
    (first, last, second)
}

} // verus!
