//! Overlapping template matching test: occurrences of the periodic `m`-bit
//! templates,
//! the search moving one bit after each match.
use vstd::prelude::*;

use crate::bits::BitsData;
use crate::error::TestError;
use vstd::arithmetic::power2::{lemma_pow2_strictly_increases, pow2};

use crate::non_overlapping_template::{
    aperiodic_below, block, is_aperiodic, template_bits, template_is_aperiodic,
    value_bits, window_matches,
};
use crate::patterns::power_of_two;
use crate::random_excursions::visit_class;

verus! {

/// Length `M` of each block.
pub const OVERLAPPING_BLOCK_LEN: usize = 1032;

/// Least number `N` of blocks the test accepts.
pub const OVERLAPPING_MIN_BLOCKS: usize = 968;

/// Number of positions `p < upto` at which `t` occurs in `blk`.
pub open spec fn occurrences_before(blk: Seq<bool>, t: Seq<bool>, upto: int) -> nat
    decreases upto,
{
    if upto <= 0 {
        0
    } else {
        occurrences_before(blk, t, upto - 1) + if upto - 1 + t.len() <= blk.len()
            && blk.subrange(upto - 1, upto - 1 + t.len()) == t {
            1nat
        } else {
            0nat
        }
    }
}

/// Number of (possibly overlapping) occurrences of `t` in `blk`.
pub open spec fn occurrences(blk: Seq<bool>, t: Seq<bool>) -> nat {
    occurrences_before(blk, t, blk.len() - t.len() + 1)
}

/// Number of the blocks `0 .. b` in which the occurrences of `t` fall in class
/// `c` (`0, 1, 2, 3, 4` or `5 or more`).
pub open spec fn blocks_in_class(s: Seq<bool>, t: Seq<bool>, c: int, b: int) -> nat
    decreases b,
{
    if b <= 0 {
        0
    } else {
        blocks_in_class(s, t, c, b - 1) + if visit_class(
            occurrences(block(s, b - 1, OVERLAPPING_BLOCK_LEN as int), t) as int,
        ) == c {
            1nat
        } else {
            0nat
        }
    }
}

proof fn lemma_occurrences_bounded(blk: Seq<bool>, t: Seq<bool>, upto: int)
    requires
        upto >= 0,
    ensures
        occurrences_before(blk, t, upto) <= upto,
    decreases upto,
{
    if upto > 0 {
        lemma_occurrences_bounded(blk, t, upto - 1);
    }
}

proof fn lemma_blocks_in_class_bounded(s: Seq<bool>, t: Seq<bool>, c: int, b: int)
    requires
        b >= 0,
    ensures
        blocks_in_class(s, t, c, b) <= b,
    decreases b,
{
    if b > 0 {
        lemma_blocks_in_class_bounded(s, t, c, b - 1);
    }
}

/// The periodic `m`-bit templates (those with a proper prefix that is also a
/// suffix) of value below `v`, in increasing order.
pub open spec fn periodic_below(m: u32, v: int) -> Seq<Seq<bool>>
    decreases v,
{
    if v <= 0 {
        Seq::empty()
    } else {
        let prev = periodic_below(m, v - 1);
        let t = value_bits((v - 1) as u32, m);
        if !is_aperiodic(t) {
            prev.push(t)
        } else {
            prev
        }
    }
}

/// All periodic `m`-bit templates, in increasing order: the templates of the
/// overlapping test.
pub open spec fn periodic_templates(m: u32) -> Seq<Seq<bool>> {
    periodic_below(m, pow2(m as nat) as int)
}

/// Every template is either aperiodic or periodic: the two tables together
/// hold all `2^m` templates.
pub proof fn lemma_templates_partition(m: u32, v: int)
    requires
        v >= 0,
    ensures
        aperiodic_below(m, v).len() + periodic_below(m, v).len() == v,
    decreases v,
{
    if v > 0 {
        lemma_templates_partition(m, v - 1);
    }
}

/// All periodic templates of length `m`, in increasing order of their value.
pub fn periodic_template_list(m: usize) -> (ts: Vec<Vec<bool>>)
    requires
        1 <= m <= 16,
    ensures
        ts@.len() == periodic_templates(m as u32).len(),
        forall|i: int| 0 <= i < ts@.len() ==> #[trigger] ts@[i]@ == periodic_templates(m as u32)[i],
{
    proof {
        vstd::arithmetic::power2::lemma2_to64();
        if m < 16 {
            lemma_pow2_strictly_increases(m as nat, 16);
        }
    }
    let count = power_of_two(m as u32);
    let mut ts: Vec<Vec<bool>> = Vec::new();
    let mut v: usize = 0;
    while v < count
        invariant
            v <= count == pow2(m as nat) <= 65536,
            1 <= m <= 16,
            ts@.len() == periodic_below(m as u32, v as int).len(),
            forall|i: int| 0 <= i < ts@.len() ==> #[trigger] ts@[i]@ == periodic_below(m as u32, v as int)[i],
        decreases count - v,
    {
        let t = template_bits(v as u32, m as u32);
        if !template_is_aperiodic(&t) {
            ts.push(t);
        }
        v = v + 1;
    }
    ts
}

/// Number of templates of length `m`.
pub fn get_template_size(m: usize) -> (size: usize)
    requires
        2 <= m <= 16,
    ensures
        size == periodic_templates(m as u32).len(),
{
    let ts = periodic_template_list(m);
    ts.len()
}

/// The template of length `m` at position `i`.
pub fn get_template(i: usize, m: usize) -> (t: Vec<bool>)
    requires
        2 <= m <= 16,
        i < periodic_templates(m as u32).len(),
    ensures
        t@ == periodic_templates(m as u32)[i as int],
{
    let mut ts = periodic_template_list(m);
    ts.swap_remove(i)
}

/// Number of blocks `n / M`, once the sequence is long enough.
pub fn overlapping_blocks(n: usize) -> (res: Result<usize, TestError>)
    ensures
        res is Err <==> n < OVERLAPPING_BLOCK_LEN * OVERLAPPING_MIN_BLOCKS,
        res matches Err(e) ==> e == TestError::OverlappingTooShort,
        res matches Ok(b) ==> b == n / OVERLAPPING_BLOCK_LEN && b >= OVERLAPPING_MIN_BLOCKS,
{
    if n < OVERLAPPING_BLOCK_LEN * OVERLAPPING_MIN_BLOCKS {
        return Err(TestError::OverlappingTooShort);
    }
    Ok(n / OVERLAPPING_BLOCK_LEN)
}

/// For each class `c`, the number of the first `blocks` blocks of length `M`
/// in which the occurrences of `t` fall in class `c`.
pub fn overlapping_counts(data: &BitsData, t: &[bool], blocks: usize) -> (nu: Vec<usize>)
    requires
        1 <= t@.len() <= OVERLAPPING_BLOCK_LEN,
        blocks * OVERLAPPING_BLOCK_LEN <= data@.len(),
    ensures
        nu@.len() == 6,
        forall|c: int| 0 <= c < 6 ==> #[trigger] nu@[c] == blocks_in_class(data@, t@, c, blocks as int),
{
    let m = t.len();
    let n = data.len();
    let mut nu: Vec<usize> = vec![0usize; 6];
    let mut b: usize = 0;
    while b < blocks
        invariant
            b <= blocks,
            blocks * OVERLAPPING_BLOCK_LEN <= n == data@.len(),
            m == t@.len(),
            1 <= m <= OVERLAPPING_BLOCK_LEN,
            nu@.len() == 6,
            forall|c: int| 0 <= c < 6 ==> #[trigger] nu@[c] == blocks_in_class(data@, t@, c, b as int),
        decreases blocks - b,
    {
        assert(b * 1032 + 1032 <= n) by (nonlinear_arith)
            requires
                b < blocks,
                blocks * 1032 <= n,
        ;
        let begin = b * OVERLAPPING_BLOCK_LEN;
        let ghost blk = block(data@, b as int, OVERLAPPING_BLOCK_LEN as int);
        let limit = OVERLAPPING_BLOCK_LEN + 1 - m;
        let mut found: usize = 0;
        let mut p: usize = 0;
        while p < limit
            invariant
                p <= limit == OVERLAPPING_BLOCK_LEN + 1 - m,
                m == t@.len(),
                1 <= m <= OVERLAPPING_BLOCK_LEN,
                begin == b * OVERLAPPING_BLOCK_LEN,
                begin + OVERLAPPING_BLOCK_LEN <= n == data@.len(),
                blk == block(data@, b as int, OVERLAPPING_BLOCK_LEN as int),
                blk.len() == OVERLAPPING_BLOCK_LEN,
                found == occurrences_before(blk, t@, p as int),
                found <= p,
            decreases limit - p,
        {
            let hit = window_matches(data, begin + p, t);
            proof {
                assert(blk.subrange(p as int, p + m) =~= data@.subrange(begin + p, begin + p + m));
            }
            if hit {
                found = found + 1;
            }
            p = p + 1;
        }
        let class: usize = if found < 5 {
            found
        } else {
            5
        };
        proof {
            lemma_blocks_in_class_bounded(data@, t@, class as int, b as int);
        }
        let old_value = nu[class];
        nu.set(class, old_value + 1);
        b = b + 1;
    }
    nu
}

/// `blocks_in_class(s, t, 0, b) + ... + blocks_in_class(s, t, cs - 1, b)`.
pub open spec fn block_class_total(s: Seq<bool>, t: Seq<bool>, cs: int, b: int) -> nat
    decreases cs,
{
    if cs <= 0 {
        0
    } else {
        block_class_total(s, t, cs - 1, b) + blocks_in_class(s, t, cs - 1, b)
    }
}

proof fn lemma_block_class_total_step(s: Seq<bool>, t: Seq<bool>, cs: int, b: int)
    requires
        b >= 1,
        cs >= 0,
    ensures
        block_class_total(s, t, cs, b) == block_class_total(s, t, cs, b - 1) + if visit_class(
            occurrences(block(s, b - 1, OVERLAPPING_BLOCK_LEN as int), t) as int,
        ) < cs {
            1nat
        } else {
            0nat
        },
    decreases cs,
{
    if cs > 0 {
        lemma_block_class_total_step(s, t, cs - 1, b);
    }
}

proof fn lemma_block_class_total_zero(s: Seq<bool>, t: Seq<bool>, cs: int)
    ensures
        block_class_total(s, t, cs, 0) == 0,
    decreases cs,
{
    if cs > 0 {
        lemma_block_class_total_zero(s, t, cs - 1);
    }
}

/// Every block falls in exactly one occurrence class: the six classes
/// together hold all `b` blocks.
pub proof fn lemma_classes_partition_blocks(s: Seq<bool>, t: Seq<bool>, b: int)
    requires
        b >= 0,
    ensures
        block_class_total(s, t, 6, b) == b,
    decreases b,
{
    if b > 0 {
        lemma_classes_partition_blocks(s, t, b - 1);
        lemma_block_class_total_step(s, t, 6, b);
    } else {
        lemma_block_class_total_zero(s, t, 6);
    }
}

} // verus!
