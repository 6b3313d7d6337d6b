//! Counts of the overlapping `b`-bit patterns of a sequence read cyclically,
//! shared by the approximate entropy and serial tests.
use vstd::arithmetic::power2::{lemma_pow2_strictly_increases, lemma_pow2_unfold, pow2};
use vstd::prelude::*;

use vstd::arithmetic::div_mod::{lemma_fundamental_div_mod, lemma_mod_multiples_vanish, lemma_small_mod};

use crate::bits::BitsData;
use crate::counting::{count_range, lemma_count_range_ext, lemma_count_range_shift, lemma_count_range_split};

verus! {

/// `1` for a one, `0` for a zero.
pub open spec fn bit_value(b: bool) -> nat {
    if b {
        1
    } else {
        0
    }
}

/// Value of the `b` bits starting at position `i`, the sequence read cyclically,
/// the first bit the most significant.
pub open spec fn window_value(s: Seq<bool>, i: int, b: nat) -> nat
    decreases b,
{
    if b == 0 {
        0
    } else {
        2 * window_value(s, i, (b - 1) as nat) + bit_value(s[(i + b - 1) % (s.len() as int)])
    }
}

/// Number of start positions `i < upto` whose `b`-bit window has value `v`.
pub open spec fn pattern_count(s: Seq<bool>, b: nat, v: nat, upto: int) -> nat
    decreases upto,
{
    if upto <= 0 {
        0
    } else {
        pattern_count(s, b, v, upto - 1) + if window_value(s, upto - 1, b) == v {
            1nat
        } else {
            0nat
        }
    }
}

/// `floor(log2(n))` for `n >= 1` (and `0` for `n == 0`).
pub open spec fn ilog2(n: nat) -> nat
    decreases n,
{
    if n < 2 {
        0
    } else {
        1 + ilog2(n / 2)
    }
}

/// A window of `b` bits has a value below `2^b`.
pub proof fn lemma_window_value_bounded(s: Seq<bool>, i: int, b: nat)
    ensures
        window_value(s, i, b) < pow2(b),
    decreases b,
{
    if b == 0 {
        assert(pow2(0) == 1) by {
            vstd::arithmetic::power2::lemma2_to64();
        }
    } else {
        lemma_window_value_bounded(s, i, (b - 1) as nat);
        lemma_pow2_unfold(b);
    }
}

proof fn lemma_pattern_count_bounded(s: Seq<bool>, b: nat, v: nat, upto: int)
    requires
        upto >= 0,
    ensures
        pattern_count(s, b, v, upto) <= upto,
    decreases upto,
{
    if upto > 0 {
        lemma_pattern_count_bounded(s, b, v, upto - 1);
    }
}

/// `2^floor(log2(n))` lies in `(n/2, n]`.
pub proof fn lemma_ilog2_bounds(n: nat)
    requires
        n >= 1,
    ensures
        pow2(ilog2(n)) <= n < 2 * pow2(ilog2(n)),
    decreases n,
{
    if n < 2 {
        vstd::arithmetic::power2::lemma2_to64();
    } else {
        lemma_ilog2_bounds(n / 2);
        lemma_pow2_unfold(ilog2(n));
    }
}

/// `k <= floor(log2(n))` exactly when `2^k <= n`.
pub proof fn lemma_ilog2_pow2_order(n: nat, k: nat)
    requires
        n >= 1,
    ensures
        k <= ilog2(n) <==> pow2(k) <= n,
{
    lemma_ilog2_bounds(n);
    if k <= ilog2(n) {
        if k < ilog2(n) {
            lemma_pow2_strictly_increases(k, ilog2(n));
        }
    } else {
        lemma_pow2_unfold(ilog2(n) + 1);
        if k > ilog2(n) + 1 {
            lemma_pow2_strictly_increases(ilog2(n) + 1, k);
        }
    }
}

/// `floor(log2(n))` of a machine-sized `n` is below the word width.
pub proof fn lemma_ilog2_small(n: usize)
    requires
        n >= 1,
    ensures
        ilog2(n as nat) < 64,
        pow2(ilog2(n as nat)) <= n,
{
    lemma_ilog2_bounds(n as nat);
    if ilog2(n as nat) >= 64 {
        vstd::arithmetic::power2::lemma2_to64();
        if ilog2(n as nat) > 64 {
            lemma_pow2_strictly_increases(64, ilog2(n as nat));
        }
    }
}

/// Computes `floor(log2(n))` for `n >= 1`.
pub fn floor_log2(n: usize) -> (l: u32)
    requires
        n >= 1,
    ensures
        l == ilog2(n as nat),
{
    let mut x = n;
    let mut l: u32 = 0;
    proof {
        lemma_ilog2_small(n);
    }
    while x >= 2
        invariant
            1 <= x <= n,
            l + ilog2(x as nat) == ilog2(n as nat),
            ilog2(n as nat) < 64,
        decreases x,
    {
        x = x / 2;
        l = l + 1;
    }
    l
}

/// Computes `2^b`.
pub fn power_of_two(b: u32) -> (p: usize)
    requires
        pow2(b as nat) <= usize::MAX,
    ensures
        p == pow2(b as nat),
{
    let mut p: usize = 1;
    let mut j: u32 = 0;
    proof {
        vstd::arithmetic::power2::lemma2_to64();
    }
    while j < b
        invariant
            j <= b,
            p == pow2(j as nat),
            pow2(b as nat) <= usize::MAX,
        decreases b - j,
    {
        proof {
            lemma_pow2_unfold((j + 1) as nat);
            if j + 1 < b {
                lemma_pow2_strictly_increases((j + 1) as nat, b as nat);
            }
        }
        p = p * 2;
        j = j + 1;
    }
    p
}

/// For every `b`-bit value `v`, the number of positions whose cyclic `b`-bit
/// window has value `v`.
pub fn pattern_counts(data: &BitsData, b: u32) -> (counts: Vec<usize>)
    requires
        pow2(b as nat) <= usize::MAX,
    ensures
        counts@.len() == pow2(b as nat),
        forall|v: int|
            0 <= v < counts@.len() ==> #[trigger] counts@[v] == pattern_count(
                data@,
                b as nat,
                v as nat,
                data@.len() as int,
            ),
{
    let n = data.len();
    let size = power_of_two(b);
    let mut counts: Vec<usize> = vec![0usize; size];
    let ghost s = data@;
    let mut i: usize = 0;
    while i < n
        invariant
            i <= n == s.len(),
            s == data@,
            counts@.len() == size == pow2(b as nat),
            forall|v: int|
                0 <= v < counts@.len() ==> #[trigger] counts@[v] == pattern_count(
                    s,
                    b as nat,
                    v as nat,
                    i as int,
                ),
        decreases n - i,
    {
        let mut k: usize = 0;
        let mut j: u32 = 0;
        while j < b
            invariant
                j <= b,
                i < n == s.len(),
                s == data@,
                k == window_value(s, i as int, j as nat),
                pow2(b as nat) <= usize::MAX,
            decreases b - j,
        {
            let pos = ((i as u128 + j as u128) % (n as u128)) as usize;
            proof {
                lemma_window_value_bounded(s, i as int, j as nat);
                lemma_pow2_unfold((j + 1) as nat);
                if j + 1 < b {
                    lemma_pow2_strictly_increases((j + 1) as nat, b as nat);
                }
                lemma_window_value_bounded(s, i as int, (j + 1) as nat);
            }
            if data.index(pos) {
                k = 2 * k + 1;
            } else {
                k = 2 * k;
            }
            j = j + 1;
        }
        proof {
            lemma_window_value_bounded(s, i as int, b as nat);
            lemma_pattern_count_bounded(s, b as nat, k as nat, i as int);
        }
        let old_count = counts[k];
        counts.set(k, old_count + 1);
        i = i + 1;
    }
    counts
}

/// `pattern_count(s, b, 0, upto) + ... + pattern_count(s, b, vs - 1, upto)`.
pub open spec fn pattern_count_total(s: Seq<bool>, b: nat, vs: int, upto: int) -> nat
    decreases vs,
{
    if vs <= 0 {
        0
    } else {
        pattern_count_total(s, b, vs - 1, upto) + pattern_count(s, b, (vs - 1) as nat, upto)
    }
}

proof fn lemma_pattern_count_total_step(s: Seq<bool>, b: nat, vs: int, upto: int)
    requires
        upto >= 1,
        vs >= 0,
    ensures
        pattern_count_total(s, b, vs, upto) == pattern_count_total(s, b, vs, upto - 1) + if window_value(
            s,
            upto - 1,
            b,
        ) < vs {
            1nat
        } else {
            0nat
        },
    decreases vs,
{
    if vs > 0 {
        lemma_pattern_count_total_step(s, b, vs - 1, upto);
    }
}

/// Every position starts exactly one window: over all `2^b` values, the
/// pattern counts add up to the length of the sequence.
pub proof fn lemma_pattern_counts_total(s: Seq<bool>, b: nat, upto: int)
    requires
        0 <= upto,
    ensures
        pattern_count_total(s, b, pow2(b) as int, upto) == upto,
    decreases upto,
{
    if upto > 0 {
        lemma_pattern_counts_total(s, b, upto - 1);
        lemma_pattern_count_total_step(s, b, pow2(b) as int, upto);
        lemma_window_value_bounded(s, upto - 1, b);
    } else {
        lemma_pattern_count_total_zero(s, b, pow2(b) as int);
    }
}

proof fn lemma_pattern_count_total_zero(s: Seq<bool>, b: nat, vs: int)
    ensures
        pattern_count_total(s, b, vs, 0) == 0,
    decreases vs,
{
    if vs > 0 {
        lemma_pattern_count_total_zero(s, b, vs - 1);
    }
}

/// The windows of `b + 1` bits refine those of `b` bits: a `b`-bit pattern
/// `v` is followed by a zero or by a one, so its count splits into the
/// counts of the `(b + 1)`-bit patterns `2v` and `2v + 1`.
pub proof fn lemma_pattern_counts_refine(s: Seq<bool>, b: nat, v: nat, upto: int)
    ensures
        pattern_count(s, b, v, upto) == pattern_count(s, b + 1, 2 * v, upto) + pattern_count(
            s,
            b + 1,
            2 * v + 1,
            upto,
        ),
    decreases upto,
{
    if upto > 0 {
        lemma_pattern_counts_refine(s, b, v, upto - 1);
        assert(window_value(s, upto - 1, b + 1) == 2 * window_value(s, upto - 1, b) + bit_value(
            s[(upto - 1 + b) % (s.len() as int)],
        ));
    }
}

/// `counts` holds, for every `b`-bit value, its number of cyclic windows in `s`.
pub open spec fn are_pattern_counts(s: Seq<bool>, b: nat, counts: Seq<usize>) -> bool {
    &&& counts.len() == pow2(b)
    &&& forall|v: int| 0 <= v < counts.len() ==> #[trigger] counts[v] == pattern_count(s, b, v as nat, s.len() as int)
}

/// `t` is `s` rotated left by `r` places.
pub open spec fn is_rotation(s: Seq<bool>, t: Seq<bool>, r: int) -> bool {
    &&& s.len() == t.len()
    &&& 0 <= r < s.len()
    &&& forall|i: int| 0 <= i < t.len() ==> #[trigger] t[i] == s[(i + r) % (s.len() as int)]
}

proof fn lemma_mod_add(x: int, y: int, n: int)
    requires
        n > 0,
    ensures
        ((x % n) + y) % n == (x + y) % n,
{
    lemma_fundamental_div_mod(x, n);
    lemma_mod_multiples_vanish(x / n, (x % n) + y, n);
    assert(n * (x / n) + ((x % n) + y) == x + y);
}

proof fn lemma_window_rotation(s: Seq<bool>, t: Seq<bool>, r: int, i: int, b: nat)
    requires
        is_rotation(s, t, r),
    ensures
        window_value(t, i, b) == window_value(s, (i + r) % (s.len() as int), b),
    decreases b,
{
    let n = s.len() as int;
    if b > 0 {
        lemma_window_rotation(s, t, r, i, (b - 1) as nat);
        let k = (i + b - 1) % n;
        assert(0 <= k < n);
        assert(t[k] == s[(k + r) % n]);
        lemma_mod_add(i + b - 1, r, n);
        lemma_mod_add(i + r, b - 1, n);
        assert((k + r) % n == (i + r + b - 1) % n);
        assert(((i + r) % n + b - 1) % n == (i + r + b - 1) % n);
    }
}

proof fn lemma_pattern_count_as_range(s: Seq<bool>, b: nat, v: nat, upto: int)
    requires
        upto >= 0,
    ensures
        pattern_count(s, b, v, upto) == count_range(
            |i: int| if window_value(s, i, b) == v { 1nat } else { 0nat },
            0,
            upto,
        ),
    decreases upto,
{
    if upto > 0 {
        lemma_pattern_count_as_range(s, b, v, upto - 1);
    }
}

/// Patterns are counted cyclically, so rotating the sequence leaves every
/// pattern count unchanged.
pub proof fn lemma_pattern_count_rotation(s: Seq<bool>, t: Seq<bool>, r: int, b: nat, v: nat)
    requires
        is_rotation(s, t, r),
    ensures
        pattern_count(t, b, v, t.len() as int) == pattern_count(s, b, v, s.len() as int),
{
    let n = s.len() as int;
    let fs = |i: int| if window_value(s, i, b) == v { 1nat } else { 0nat };
    let ft = |i: int| if window_value(t, i, b) == v { 1nat } else { 0nat };
    lemma_pattern_count_as_range(s, b, v, n);
    lemma_pattern_count_as_range(t, b, v, n);
    lemma_count_range_split(ft, 0, n - r, n);
    assert forall|i: int| 0 <= i < n - r implies #[trigger] ft(i) == fs(i + r) by {
        lemma_window_rotation(s, t, r, i, b);
        lemma_small_mod((i + r) as nat, n as nat);
    }
    lemma_count_range_shift(fs, ft, r, 0, n - r);
    assert forall|i: int| n - r <= i < n implies #[trigger] ft(i) == fs(i + (r - n)) by {
        lemma_window_rotation(s, t, r, i, b);
        lemma_mod_multiples_vanish(1, i + r - n, n);
        lemma_small_mod((i + r - n) as nat, n as nat);
    }
    lemma_count_range_shift(fs, ft, r - n, n - r, n);
    lemma_count_range_split(fs, 0, r, n);
}

/// The cyclic pattern counts of the approximate entropy and serial tests are
/// the same for a sequence and for any rotation of it.
pub proof fn lemma_pattern_counts_rotation(s: Seq<bool>, t: Seq<bool>, r: int, b: nat, counts: Seq<usize>)
    requires
        is_rotation(s, t, r),
    ensures
        are_pattern_counts(s, b, counts) <==> are_pattern_counts(t, b, counts),
{
    assert forall|v: int| 0 <= v < counts.len() implies #[trigger] pattern_count(t, b, v as nat, t.len() as int)
        == pattern_count(s, b, v as nat, s.len() as int) by {
        lemma_pattern_count_rotation(s, t, r, b, v as nat);
    }
}

} // verus!
