//! Random excursions test: for each state `-4, ..., -1, 1, ..., 4`, the number
//! of cycles of the walk that visit it exactly `0, 1, 2, 3, 4` or at least `5`
//! times.
use vstd::prelude::*;

use crate::bits::BitsData;
use crate::error::TestError;
use crate::random_excursions_variant::{cycles_insufficient, too_few_cycles, EXCURSIONS_MIN_BITS};
use crate::walk::{
    cycle_count, cycle_of, cycle_visits, lemma_closed_cycle_visits, lemma_counts_bounded,
    lemma_future_cycle_visits, walk, zeros_upto,
};

verus! {

/// Number of states the test examines.
pub const EXCURSION_STATES: usize = 8;

/// Number of visit classes: `0, 1, 2, 3, 4` and `5 or more`.
pub const VISIT_CLASSES: usize = 6;

/// The state at index `i`: `-4, ..., -1, 1, ..., 4`.
pub open spec fn excursion_state(i: int) -> int {
    if i < 4 {
        i - 4
    } else {
        i - 3
    }
}

/// The visit class of a number of visits: the number itself, at most 5.
pub open spec fn visit_class(v: int) -> int {
    if v < 5 {
        v
    } else {
        5
    }
}

/// Number of the cycles `1 ..= t` whose visits to `x` fall in class `c`.
pub open spec fn cycles_in_class(s: Seq<bool>, x: int, c: int, t: int) -> nat
    decreases t,
{
    if t <= 0 {
        0
    } else {
        cycles_in_class(s, x, c, t - 1) + if visit_class(
            cycle_visits(s, x, t, s.len() as int) as int,
        ) == c {
            1nat
        } else {
            0nat
        }
    }
}

proof fn lemma_cycles_in_class_bounded(s: Seq<bool>, x: int, c: int, t: int)
    requires
        t >= 0,
    ensures
        cycles_in_class(s, x, c, t) <= t,
    decreases t,
{
    if t > 0 {
        lemma_cycles_in_class_bounded(s, x, c, t - 1);
    }
}

/// Adds one cycle, whose visits to state `i` are `counter[i]`, to the table
/// `nu[class * 8 + i]`.
fn add_cycle(nu: &mut Vec<usize>, counter: &Vec<usize>)
    requires
        old(nu)@.len() == VISIT_CLASSES * EXCURSION_STATES,
        counter@.len() == EXCURSION_STATES,
        forall|k: int| 0 <= k < old(nu)@.len() ==> #[trigger] old(nu)@[k] < usize::MAX,
    ensures
        final(nu)@.len() == VISIT_CLASSES * EXCURSION_STATES,
        forall|c: int, i: int|
            0 <= c < VISIT_CLASSES && 0 <= i < EXCURSION_STATES ==> #[trigger] final(nu)@[c * 8 + i]
                == old(nu)@[c * 8 + i] + if visit_class(counter@[i] as int) == c {
                1int
            } else {
                0int
            },
{
    let mut i: usize = 0;
    while i < EXCURSION_STATES
        invariant
            i <= EXCURSION_STATES,
            nu@.len() == VISIT_CLASSES * EXCURSION_STATES,
            old(nu)@.len() == VISIT_CLASSES * EXCURSION_STATES,
            counter@.len() == EXCURSION_STATES,
            forall|k: int| 0 <= k < old(nu)@.len() ==> #[trigger] old(nu)@[k] < usize::MAX,
            forall|c: int, i2: int|
                0 <= c < VISIT_CLASSES && 0 <= i2 < EXCURSION_STATES ==> #[trigger] nu@[c * 8 + i2]
                    == old(nu)@[c * 8 + i2] + if i2 < i && visit_class(counter@[i2] as int) == c {
                    1int
                } else {
                    0int
                },
        decreases EXCURSION_STATES - i,
    {
        let v = counter[i];
        let class: usize = if v < 5 {
            v
        } else {
            5
        };
        let idx = class * 8 + i;
        let old_value = nu[idx];
        assert(nu@[class * 8 + i] == old(nu)@[class * 8 + i]);
        nu.set(idx, old_value + 1);
        proof {
            assert forall|c: int, i2: int|
                0 <= c < VISIT_CLASSES && 0 <= i2 < EXCURSION_STATES implies #[trigger] nu@[c * 8
                + i2] == old(nu)@[c * 8 + i2] + if i2 < i + 1 && visit_class(counter@[i2] as int)
                == c {
                1int
            } else {
                0int
            } by {
                if c * 8 + i2 == idx {
                    assert(c == class && i2 == i);
                }
            }
        }
        i = i + 1;
    }
}

/// The number of cycles `J`, and the table `nu` in which `nu[c * 8 + i]` is
/// the number of cycles whose visits to state `excursion_state(i)` fall in
/// class `c`.
pub fn excursion_cycles(data: &BitsData) -> (res: Result<(usize, Vec<usize>), TestError>)
    ensures
        res is Err <==> data@.len() < EXCURSIONS_MIN_BITS || too_few_cycles(
            data@.len() as int,
            cycle_count(data@) as int,
        ),
        res matches Err(e) ==> {
            ||| e == TestError::ExcursionsTooShort && data@.len() < EXCURSIONS_MIN_BITS
            ||| e == TestError::ExcursionsTooFewCycles && data@.len() >= EXCURSIONS_MIN_BITS
                && too_few_cycles(data@.len() as int, cycle_count(data@) as int)
        },
        res matches Ok(r) ==> {
            &&& r.0 == cycle_count(data@)
            &&& r.1@.len() == VISIT_CLASSES * EXCURSION_STATES
            &&& forall|c: int, i: int|
                0 <= c < VISIT_CLASSES && 0 <= i < EXCURSION_STATES ==> #[trigger] r.1@[c * 8 + i]
                    == cycles_in_class(data@, excursion_state(i), c, r.0 as int)
        },
{
    let n = data.len();
    if n < EXCURSIONS_MIN_BITS {
        return Err(TestError::ExcursionsTooShort);
    }
    let ghost s = data@;
    let mut nu: Vec<usize> = vec![0usize; VISIT_CLASSES * EXCURSION_STATES];
    let mut counter: Vec<usize> = vec![0usize; EXCURSION_STATES];
    let mut cur: i128 = 0;
    let mut zeros: usize = 0;
    let mut j: usize = 0;
    while j < n
        invariant
            j <= n == s.len(),
            s == data@,
            cur == walk(s, j as int),
            zeros == zeros_upto(s, j as int),
            zeros <= j,
            counter@.len() == EXCURSION_STATES,
            forall|i: int|
                0 <= i < EXCURSION_STATES ==> #[trigger] counter@[i] == cycle_visits(
                    s,
                    excursion_state(i),
                    zeros + 1,
                    j as int,
                ),
            nu@.len() == VISIT_CLASSES * EXCURSION_STATES,
            forall|c: int, i: int|
                0 <= c < VISIT_CLASSES && 0 <= i < EXCURSION_STATES ==> #[trigger] nu@[c * 8 + i]
                    == cycles_in_class(s, excursion_state(i), c, zeros as int),
        decreases n - j,
    {
        proof {
            crate::walk::lemma_walk_bounded(s, j as int);
            assert forall|i: int| 0 <= i < EXCURSION_STATES implies counter@[i] <= j by {
                lemma_counts_bounded(s, excursion_state(i), zeros + 1, j as int);
            }
            assert(cycle_of(s, j + 1) == zeros + 1);
        }
        if data.index(j) {
            cur = cur + 1;
        } else {
            cur = cur - 1;
        }
        if -4 <= cur && cur <= 4 && cur != 0 {
            let idx: usize = if cur < 0 {
                (cur + 4) as usize
            } else {
                (cur + 3) as usize
            };
            let c = counter[idx];
            counter.set(idx, c + 1);
        }
        j = j + 1;
        assert forall|i: int| 0 <= i < EXCURSION_STATES implies #[trigger] counter@[i]
            == cycle_visits(s, excursion_state(i), zeros + 1, j as int) by {}
        if cur == 0 {
            proof {
                assert forall|k: int| 0 <= k < nu@.len() implies #[trigger] nu@[k] < usize::MAX by {
                    let c = k / 8;
                    let i = k % 8;
                    assert(k == c * 8 + i);
                    lemma_cycles_in_class_bounded(s, excursion_state(i), c, zeros as int);
                }
            }
            let ghost before = nu@;
            add_cycle(&mut nu, &counter);
            proof {
                assert forall|c: int, i: int|
                    0 <= c < VISIT_CLASSES && 0 <= i < EXCURSION_STATES implies #[trigger] nu@[c * 8
                    + i] == cycles_in_class(s, excursion_state(i), c, zeros + 1) by {
                    lemma_closed_cycle_visits(s, excursion_state(i), zeros + 1, j as int, n as int);
                }
            }
            zeros = zeros + 1;
            counter = vec![0usize; EXCURSION_STATES];
            proof {
                assert forall|i: int| 0 <= i < EXCURSION_STATES implies #[trigger] counter@[i]
                    == cycle_visits(s, excursion_state(i), zeros + 1, j as int) by {
                    lemma_future_cycle_visits(s, excursion_state(i), zeros + 1, j as int);
                }
            }
        }
    }
    proof {
        lemma_counts_bounded(s, 0, 0, n - 1);
    }
    let cycles: usize = if cur != 0 {
        proof {
            assert forall|k: int| 0 <= k < nu@.len() implies #[trigger] nu@[k] < usize::MAX by {
                let c = k / 8;
                let i = k % 8;
                assert(k == c * 8 + i);
                lemma_cycles_in_class_bounded(s, excursion_state(i), c, zeros as int);
            }
        }
        add_cycle(&mut nu, &counter);
        zeros + 1
    } else {
        zeros
    };
    if cycles_insufficient(n, cycles) {
        return Err(TestError::ExcursionsTooFewCycles);
    }
    Ok((cycles, nu))
}

/// `cycles_in_class(s, x, 0, t) + ... + cycles_in_class(s, x, cs - 1, t)`.
pub open spec fn class_total(s: Seq<bool>, x: int, cs: int, t: int) -> nat
    decreases cs,
{
    if cs <= 0 {
        0
    } else {
        class_total(s, x, cs - 1, t) + cycles_in_class(s, x, cs - 1, t)
    }
}

proof fn lemma_class_total_step(s: Seq<bool>, x: int, cs: int, t: int)
    requires
        t >= 1,
        cs >= 0,
    ensures
        class_total(s, x, cs, t) == class_total(s, x, cs, t - 1) + if visit_class(
            cycle_visits(s, x, t, s.len() as int) as int,
        ) < cs {
            1nat
        } else {
            0nat
        },
    decreases cs,
{
    if cs > 0 {
        lemma_class_total_step(s, x, cs - 1, t);
    }
}

proof fn lemma_class_total_zero(s: Seq<bool>, x: int, cs: int)
    ensures
        class_total(s, x, cs, 0) == 0,
    decreases cs,
{
    if cs > 0 {
        lemma_class_total_zero(s, x, cs - 1);
    }
}

/// Every cycle falls in exactly one visit class: for each state, the six
/// classes together hold all `t` cycles.
pub proof fn lemma_classes_partition_cycles(s: Seq<bool>, x: int, t: int)
    requires
        t >= 0,
    ensures
        class_total(s, x, VISIT_CLASSES as int, t) == t,
    decreases t,
{
    if t > 0 {
        lemma_classes_partition_cycles(s, x, t - 1);
        lemma_class_total_step(s, x, VISIT_CLASSES as int, t);
    } else {
        lemma_class_total_zero(s, x, VISIT_CLASSES as int);
    }
}

} // verus!
