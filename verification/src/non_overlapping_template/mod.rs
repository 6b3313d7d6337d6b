//! Non-overlapping template matching test: occurrences of aperiodic `m`-bit
//! templates, the search jumping past each match.
use vstd::arithmetic::power2::{lemma_pow2_strictly_increases, pow2};
use vstd::prelude::*;

use crate::bits::BitsData;
use crate::error::TestError;
use crate::patterns::power_of_two;

verus! {

/// Number of blocks the sequence is cut into.
pub const NON_OVERLAPPING_BLOCKS: usize = 8;

/// Whether the first `k` bits of `t` equal its last `k` bits.
pub open spec fn has_border(t: Seq<bool>, k: int) -> bool {
    forall|j: int| 0 <= j < k ==> #[trigger] t[j] == t[t.len() - k + j]
}

/// A template is aperiodic when no proper prefix of it is also a suffix of it.
pub open spec fn is_aperiodic(t: Seq<bool>) -> bool {
    forall|k: int| 1 <= k < t.len() ==> !#[trigger] has_border(t, k)
}

/// The `m` bits of `v`, most significant first.
pub open spec fn value_bits(v: u32, m: u32) -> Seq<bool> {
    Seq::new(m as nat, |j: int| ((v >> ((m - 1 - j) as u32)) & 1u32) == 1u32)
}

/// The aperiodic `m`-bit templates of value below `v`, in increasing order.
pub open spec fn aperiodic_below(m: u32, v: int) -> Seq<Seq<bool>>
    decreases v,
{
    if v <= 0 {
        Seq::empty()
    } else {
        let prev = aperiodic_below(m, v - 1);
        let t = value_bits((v - 1) as u32, m);
        if is_aperiodic(t) {
            prev.push(t)
        } else {
            prev
        }
    }
}

/// All aperiodic `m`-bit templates, in increasing order.
pub open spec fn aperiodic_templates(m: u32) -> Seq<Seq<bool>> {
    aperiodic_below(m, pow2(m as nat) as int)
}

/// Number of matches of `t` in `block` found scanning from position `k`,
/// the scan moving past each match before it goes on.
pub open spec fn scan_matches(block: Seq<bool>, t: Seq<bool>, k: int) -> nat
    decreases block.len() - k,
{
    if k < 0 || t.len() == 0 || k + t.len() > block.len() {
        0
    } else if block.subrange(k, k + t.len()) == t {
        1 + scan_matches(block, t, k + t.len())
    } else {
        scan_matches(block, t, k + 1)
    }
}

/// Block `j` of length `len`.
pub open spec fn block(s: Seq<bool>, j: int, len: int) -> Seq<bool> {
    s.subrange(j * len, j * len + len)
}

/// The test refuses template lengths outside `2 ..= 16`.
pub open spec fn template_length_rejected(m: int) -> bool {
    !(2 <= m <= 16)
}

/// The test refuses a sequence whose length `n` is not `8 * (n / 8)` plus
/// less than `n / 8`.
pub open spec fn blocks_rejected(n: int) -> bool {
    n / (n / 8) != 8
}

/// From 64 bits on, `n / (n / 8)` is 8: the remainder of `n` by 8 is below
/// `n / 8`, so the block length `n / 8` is always accepted.
pub proof fn lemma_eighth_divides_back(n: int)
    requires
        n >= 64,
    ensures
        !blocks_rejected(n),
        n / (n / 8) == 8,
{
    let q = n / 8;
    let r = n % 8;
    assert(n == 8 * q + r && 0 <= r < 8 && q >= 8);
    assert(n / q == 8) by (nonlinear_arith)
        requires
            n == 8 * q + r,
            0 <= r < 8,
            q >= 8,
    {
        vstd::arithmetic::div_mod::lemma_fundamental_div_mod_converse(n, q, 8, r);
    }
}

/// From 8 bits on, the block length `n / 8` is accepted exactly when the
/// remainder of `n` by 8 is below it.
pub proof fn lemma_blocks_accepted(n: int)
    requires
        n >= 8,
    ensures
        !blocks_rejected(n) <==> n % 8 < n / 8,
{
    let q = n / 8;
    let r = n % 8;
    assert(n == 8 * q + r && 0 <= r < 8 && q >= 1);
    if r < q {
        assert(n / q == 8) by (nonlinear_arith)
            requires
                n == 8 * q + r,
                0 <= r < q,
        {
            vstd::arithmetic::div_mod::lemma_fundamental_div_mod_converse(n, q, 8, r);
        }
    } else {
        assert(n / q >= 9) by (nonlinear_arith)
            requires
                n == 8 * q + r,
                q <= r,
                q >= 1,
        {
            vstd::arithmetic::div_mod::lemma_div_is_ordered(9 * q, n, q);
            vstd::arithmetic::div_mod::lemma_div_multiples_vanish(9, q);
        }
    }
}

/// The template lengths the test takes are exactly `2 ..= 16`.
pub proof fn lemma_template_length_range(m: int)
    ensures
        template_length_rejected(m) <==> m < 2 || m > 16,
{
}

pub(crate) fn template_bits(v: u32, m: u32) -> (t: Vec<bool>)
    requires
        1 <= m <= 16,
    ensures
        t@ == value_bits(v, m),
{
    let mut t: Vec<bool> = Vec::new();
    let mut j: u32 = 0;
    while j < m
        invariant
            j <= m <= 16,
            t@.len() == j,
            forall|i: int| 0 <= i < j ==> #[trigger] t@[i] == value_bits(v, m)[i],
        decreases m - j,
    {
        t.push(((v >> (m - 1 - j)) & 1u32) == 1u32);
        j = j + 1;
    }
    assert(t@ =~= value_bits(v, m));
    t
}

pub(crate) fn template_is_aperiodic(t: &Vec<bool>) -> (b: bool)
    ensures
        b == is_aperiodic(t@),
{
    let m = t.len();
    let mut k: usize = 1;
    while k < m
        invariant
            1 <= k,
            m == t@.len(),
            forall|k2: int| 1 <= k2 < k && k2 < m ==> !#[trigger] has_border(t@, k2),
        decreases m - k,
    {
        let mut j: usize = 0;
        let mut border = true;
        while j < k
            invariant
                j <= k < m == t@.len(),
                border == forall|j2: int| 0 <= j2 < j ==> #[trigger] t@[j2] == t@[m - k + j2],
            decreases k - j,
        {
            if t[j] != t[m - k + j] {
                border = false;
            }
            j = j + 1;
        }
        if border {
            assert(has_border(t@, k as int));
            return false;
        }
        k = k + 1;
    }
    true
}

/// All aperiodic templates of length `m`, in increasing order of their value.
pub fn aperiodic_template_list(m: usize) -> (ts: Vec<Vec<bool>>)
    requires
        1 <= m <= 16,
    ensures
        ts@.len() == aperiodic_templates(m as u32).len(),
        forall|i: int| 0 <= i < ts@.len() ==> #[trigger] ts@[i]@ == aperiodic_templates(m as u32)[i],
{
    proof {
        vstd::arithmetic::power2::lemma2_to64();
        if m < 16 {
            lemma_pow2_strictly_increases(m as nat, 16);
        }
    }
    let count = power_of_two(m as u32);
    let mut ts: Vec<Vec<bool>> = Vec::new();
    let mut v: usize = 0;
    while v < count
        invariant
            v <= count == pow2(m as nat) <= 65536,
            1 <= m <= 16,
            ts@.len() == aperiodic_below(m as u32, v as int).len(),
            forall|i: int| 0 <= i < ts@.len() ==> #[trigger] ts@[i]@ == aperiodic_below(m as u32, v as int)[i],
        decreases count - v,
    {
        let t = template_bits(v as u32, m as u32);
        if template_is_aperiodic(&t) {
            ts.push(t);
        }
        v = v + 1;
    }
    ts
}

/// Number of aperiodic templates of length `m`.
pub fn get_template_size(m: usize) -> (size: usize)
    requires
        2 <= m <= 16,
    ensures
        size == aperiodic_templates(m as u32).len(),
{
    let ts = aperiodic_template_list(m);
    ts.len()
}

/// The aperiodic template of length `m` at position `i` in increasing order.
pub fn get_tempalte(i: usize, m: usize) -> (t: Vec<bool>)
    requires
        2 <= m <= 16,
        i < aperiodic_templates(m as u32).len(),
    ensures
        t@ == aperiodic_templates(m as u32)[i as int],
{
    let mut ts = aperiodic_template_list(m);
    ts.swap_remove(i)
}

/// Block length `M = n / 8`, once the template length and the sequence length
/// have been checked.
pub fn non_overlapping_params(n: usize, m: usize) -> (res: Result<usize, TestError>)
    requires
        m < 2 || m > 16 || (n >= 8 && (blocks_rejected(n as int) || n / 8 + 1 >= m)),
    ensures
        m < 2 || m > 16 ==> res == Err::<usize, TestError>(TestError::TemplateLength),
        2 <= m <= 16 && n >= 64 ==> res == Ok::<usize, TestError>(n / 8),
        2 <= m <= 16 && n >= 8 ==> (res is Ok <==> n % 8 < n / 8),
        res matches Err(e) ==> {
            ||| e == TestError::TemplateLength && template_length_rejected(m as int)
            ||| e == TestError::TemplateBlocks && !template_length_rejected(m as int)
                && blocks_rejected(n as int)
        },
        res is Ok <==> !template_length_rejected(m as int) && !blocks_rejected(n as int),
        res matches Ok(b) ==> b == n / 8 && b + 1 >= m,
{
    if m < 2 || m > 16 {
        return Err(TestError::TemplateLength);
    }
    proof {
        if n >= 64 {
            lemma_eighth_divides_back(n as int);
        }
        if n >= 8 {
            lemma_blocks_accepted(n as int);
        }
    }
    let blocks = n / NON_OVERLAPPING_BLOCKS;
    if n / blocks != NON_OVERLAPPING_BLOCKS {
        return Err(TestError::TemplateBlocks);
    }
    Ok(blocks)
}

/// Whether the `t.len()` bits starting at `start` equal `t`.
pub fn window_matches(data: &BitsData, start: usize, t: &[bool]) -> (b: bool)
    requires
        start + t@.len() <= data@.len(),
    ensures
        b == (data@.subrange(start as int, start + t@.len()) == t@),
{
    let m = t.len();
    let n = data.len();
    let mut j: usize = 0;
    while j < m
        invariant
            j <= m == t@.len(),
            n == data@.len(),
            start + m <= data@.len(),
            forall|i: int| 0 <= i < j ==> data@[start + i] == #[trigger] t@[i],
        decreases m - j,
    {
        if data.index(start + j) != t[j] {
            proof {
                assert(data@.subrange(start as int, start + m)[j as int] != t@[j as int]);
            }
            return false;
        }
        j = j + 1;
    }
    assert(data@.subrange(start as int, start + m) =~= t@);
    true
}

/// For each of the 8 blocks of length `block_len`, the number of
/// non-overlapping occurrences of `t`.
pub fn non_overlapping_counts(data: &BitsData, t: &[bool], block_len: usize) -> (w: Vec<usize>)
    requires
        t@.len() >= 1,
        block_len + 1 >= t@.len(),
        NON_OVERLAPPING_BLOCKS * block_len <= data@.len(),
    ensures
        w@.len() == NON_OVERLAPPING_BLOCKS,
        forall|j: int|
            0 <= j < NON_OVERLAPPING_BLOCKS ==> #[trigger] w@[j] == scan_matches(
                block(data@, j, block_len as int),
                t@,
                0,
            ),
{
    let m = t.len();
    let n = data.len();
    let mut w: Vec<usize> = Vec::new();
    let mut j: usize = 0;
    while j < NON_OVERLAPPING_BLOCKS
        invariant
            j <= NON_OVERLAPPING_BLOCKS,
            n == data@.len(),
            m == t@.len() >= 1,
            block_len + 1 >= m,
            NON_OVERLAPPING_BLOCKS * block_len <= data@.len(),
            w@.len() == j,
            forall|i: int|
                0 <= i < j ==> #[trigger] w@[i] == scan_matches(
                    block(data@, i, block_len as int),
                    t@,
                    0,
                ),
        decreases NON_OVERLAPPING_BLOCKS - j,
    {
        assert(j * block_len + block_len <= n) by (nonlinear_arith)
            requires
                j < 8,
                8 * block_len <= n,
        ;
        let begin = j * block_len;
        let ghost blk = block(data@, j as int, block_len as int);
        let limit = block_len + 1 - m;
        let mut k: usize = 0;
        let mut found: usize = 0;
        while k < limit
            invariant
                m == t@.len() >= 1,
                limit == block_len + 1 - m,
                begin == j * block_len,
                j < NON_OVERLAPPING_BLOCKS,
                n == data@.len(),
                begin + block_len <= n,
                NON_OVERLAPPING_BLOCKS * block_len <= data@.len(),
                blk == block(data@, j as int, block_len as int),
                blk.len() == block_len,
                found <= k,
                found + scan_matches(blk, t@, k as int) == scan_matches(blk, t@, 0),
            decreases block_len + 1 - k,
        {
            let hit = window_matches(data, begin + k, t);
            proof {
                assert(blk.subrange(k as int, k + m) =~= data@.subrange(begin + k, begin + k + m));
            }
            if hit {
                found = found + 1;
                k = k + m;
            } else {
                k = k + 1;
            }
        }
        proof {
            assert(k + m > blk.len());
        }
        w.push(found);
        j = j + 1;
    }
    w
}

} // verus!
