//! Runs test: the number of uninterrupted runs of identical bits.
use vstd::prelude::*;

use crate::bits::{count_ones, BitsData};
use crate::counting::{count_range, lemma_count_range_ext, lemma_count_range_reflect};
use crate::error::TestError;

verus! {

/// Least number of bits the runs test accepts.
pub const RUNS_MIN_BITS: usize = 100;

/// Number of positions `i >= 1` at which bit `i` differs from bit `i - 1`.
pub open spec fn count_changes(s: Seq<bool>) -> nat
    decreases s.len(),
{
    if s.len() < 2 {
        0
    } else {
        count_changes(s.drop_last()) + if s.last() != s[s.len() - 2] { 1nat } else { 0nat }
    }
}

/// Number of runs of a non-empty sequence: one more than its number of changes.
pub open spec fn count_runs(s: Seq<bool>) -> nat {
    count_changes(s) + 1
}

proof fn lemma_count_changes_bounded(s: Seq<bool>)
    ensures
        count_changes(s) < s.len() || s.len() == 0,
    decreases s.len(),
{
    if s.len() >= 2 {
        lemma_count_changes_bounded(s.drop_last());
    }
}

/// The observed number of runs `V_n`.
pub fn runs_statistic(data: &BitsData) -> (res: Result<usize, TestError>)
    ensures
        res is Err <==> data@.len() < RUNS_MIN_BITS,
        res matches Err(e) ==> e == TestError::RunsTooShort,
        res matches Ok(v) ==> v == count_runs(data@),
{
    let n_bits = data.len();
    if n_bits < RUNS_MIN_BITS {
        return Err(TestError::RunsTooShort);
    }
    let mut v: usize = 1;
    let mut i: usize = 1;
    while i < n_bits
        invariant
            1 <= i <= n_bits == data@.len(),
            v == count_changes(data@.take(i as int)) + 1,
        decreases n_bits - i,
    {
        proof {
            lemma_count_changes_bounded(data@.take(i as int));
            assert(data@.take(i + 1).drop_last() =~= data@.take(i as int));
        }
        if data.index(i) != data.index(i - 1) {
            v = v + 1;
        }
        i = i + 1;
    }
    assert(data@.take(n_bits as int) =~= data@);
    Ok(v)
}

proof fn lemma_count_changes_as_range(s: Seq<bool>)
    ensures
        count_changes(s) == count_range(|i: int| if s[i] != s[i - 1] { 1nat } else { 0nat }, 1, s.len() as int),
    decreases s.len(),
{
    if s.len() >= 2 {
        let t = s.drop_last();
        lemma_count_changes_as_range(t);
        lemma_count_range_ext(
            |i: int| if t[i] != t[i - 1] { 1nat } else { 0nat },
            |i: int| if s[i] != s[i - 1] { 1nat } else { 0nat },
            1,
            t.len() as int,
        );
    }
}

proof fn lemma_count_ones_as_range(s: Seq<bool>)
    ensures
        count_ones(s) == count_range(|i: int| if s[i] { 1nat } else { 0nat }, 0, s.len() as int),
    decreases s.len(),
{
    if s.len() >= 1 {
        let t = s.drop_last();
        lemma_count_ones_as_range(t);
        lemma_count_range_ext(
            |i: int| if t[i] { 1nat } else { 0nat },
            |i: int| if s[i] { 1nat } else { 0nat },
            0,
            t.len() as int,
        );
    }
}

/// Reading a sequence backwards changes neither its number of runs nor its
/// number of ones.
pub proof fn lemma_runs_reversal(s: Seq<bool>, t: Seq<bool>)
    requires
        t.len() == s.len(),
        forall|i: int| 0 <= i < t.len() ==> #[trigger] t[i] == s[s.len() - 1 - i],
    ensures
        count_runs(t) == count_runs(s),
        count_ones(t) == count_ones(s),
{
    let n = s.len() as int;
    let gs = |i: int| if s[i] != s[i - 1] { 1nat } else { 0nat };
    let gt = |i: int| if t[i] != t[i - 1] { 1nat } else { 0nat };
    lemma_count_changes_as_range(s);
    lemma_count_changes_as_range(t);
    assert forall|i: int| 1 <= i < n implies #[trigger] gt(i) == gs(n - i) by {
        assert(t[i] == s[n - 1 - i]);
        assert(t[i - 1] == s[n - i]);
    }
    lemma_count_range_reflect(gs, gt, n, 1, n);
    let fs = |i: int| if s[i] { 1nat } else { 0nat };
    let ft = |i: int| if t[i] { 1nat } else { 0nat };
    lemma_count_ones_as_range(s);
    lemma_count_ones_as_range(t);
    assert forall|i: int| 0 <= i < n implies #[trigger] ft(i) == fs(n - 1 - i) by {}
    lemma_count_range_reflect(fs, ft, n - 1, 0, n);
}

} // verus!
