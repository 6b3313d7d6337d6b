//! Random excursions variant test: the total number of visits to each of the
//! states `-9, ..., -1, 1, ..., 9` of the walk.
use vstd::prelude::*;

use crate::bits::BitsData;
use crate::error::TestError;
use crate::walk::{cycle_count, lemma_counts_bounded, visits, walk, zeros_upto};

verus! {

/// Least number of bits the random excursions tests accept.
pub const EXCURSIONS_MIN_BITS: usize = 1_000_000;

/// Number of states the variant test examines.
pub const VARIANT_STATES: usize = 18;

/// Least number of cycles the random excursions tests accept, below `10^10` bits.
pub const EXCURSIONS_MIN_CYCLES: usize = 500;

/// The random excursions tests refuse a walk of `n` steps with `j` cycles
/// unless `j >= max(500, sqrt(n) / 200)`.
pub open spec fn too_few_cycles(n: int, j: int) -> bool {
    j < EXCURSIONS_MIN_CYCLES || 40000 * j * j < n
}

/// Decides `too_few_cycles` for a walk of `n` steps with `j` cycles.
pub fn cycles_insufficient(n: usize, j: usize) -> (b: bool)
    ensures
        b == too_few_cycles(n as int, j as int),
{
    if j < EXCURSIONS_MIN_CYCLES {
        return true;
    }
    let jj = j as u128;
    if jj >= 4294967296 {
        assert(40000 * j * j >= n) by (nonlinear_arith)
            requires
                j >= 4294967296,
                n <= 18446744073709551615,
        ;
        return false;
    }
    assert(40000 * jj * jj < 40000 * 4294967296 * 4294967296) by (nonlinear_arith)
        requires
            jj < 4294967296,
    ;
    40000 * jj * jj < n as u128
}

/// The state at index `i` of the variant test: `-9, ..., -1, 1, ..., 9`.
pub open spec fn variant_state(i: int) -> int {
    if i < 9 {
        i - 9
    } else {
        i - 8
    }
}

/// The number of cycles `J`, and the number of visits to each of the
/// eighteen states over the whole walk, in the order `-9, ..., -1, 1, ..., 9`.
pub fn excursion_visits(data: &BitsData) -> (res: Result<(usize, Vec<usize>), TestError>)
    ensures
        res is Err <==> data@.len() < EXCURSIONS_MIN_BITS || too_few_cycles(
            data@.len() as int,
            cycle_count(data@) as int,
        ),
        res matches Err(e) ==> {
            ||| e == TestError::ExcursionsTooShort && data@.len() < EXCURSIONS_MIN_BITS
            ||| e == TestError::ExcursionsTooFewCycles && data@.len() >= EXCURSIONS_MIN_BITS
                && too_few_cycles(data@.len() as int, cycle_count(data@) as int)
        },
        res matches Ok(r) ==> {
            &&& r.0 == cycle_count(data@)
            &&& r.1@.len() == VARIANT_STATES
            &&& forall|i: int|
                0 <= i < VARIANT_STATES ==> #[trigger] r.1@[i] == visits(
                    data@,
                    variant_state(i),
                    data@.len() as int,
                )
        },
{
    let n = data.len();
    if n < EXCURSIONS_MIN_BITS {
        return Err(TestError::ExcursionsTooShort);
    }
    let ghost s = data@;
    let mut counts: Vec<usize> = vec![0usize; VARIANT_STATES];
    let mut cur: i128 = 0;
    let mut zeros: usize = 0;
    let mut j: usize = 0;
    while j < n
        invariant
            j <= n == s.len(),
            s == data@,
            cur == walk(s, j as int),
            zeros == zeros_upto(s, j as int),
            counts@.len() == VARIANT_STATES,
            forall|i: int|
                0 <= i < VARIANT_STATES ==> #[trigger] counts@[i] == visits(
                    s,
                    variant_state(i),
                    j as int,
                ),
        decreases n - j,
    {
        proof {
            crate::walk::lemma_walk_bounded(s, j as int);
            lemma_counts_bounded(s, 0, 0, j as int);
            assert forall|i: int| 0 <= i < VARIANT_STATES implies visits(s, variant_state(i), j as int) <= j by {
                lemma_counts_bounded(s, variant_state(i), 0, j as int);
            }
        }
        if data.index(j) {
            cur = cur + 1;
        } else {
            cur = cur - 1;
        }
        if cur == 0 {
            zeros = zeros + 1;
        } else if -9 <= cur && cur <= 9 {
            let idx: usize = if cur < 0 {
                (cur + 9) as usize
            } else {
                (cur + 8) as usize
            };
            let c = counts[idx];
            counts.set(idx, c + 1);
        }
        j = j + 1;
    }
    proof {
        lemma_counts_bounded(s, 0, 0, n - 1);
    }
    let cycles: usize = if cur != 0 {
        zeros + 1
    } else {
        zeros
    };
    if cycles_insufficient(n, cycles) {
        return Err(TestError::ExcursionsTooFewCycles);
    }
    Ok((cycles, counts))
}

} // verus!
