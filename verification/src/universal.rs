//! Maurer's universal statistical test: the distances between repeated
//! `L`-bit blocks.
use vstd::arithmetic::power2::pow2;
use vstd::prelude::*;

use crate::bits::BitsData;
use crate::error::TestError;
use crate::patterns::{bit_value, power_of_two};

verus! {

/// Least number of bits for which the test's parameters are defined.
pub const UNIVERSAL_MIN_BITS: usize = 1600;

/// The block length `L` that the test takes for `n` bits.
pub open spec fn universal_block_length(n: int) -> int {
    if n >= 1059061760 {
        16
    } else if n >= 496435200 {
        15
    } else if n >= 231669760 {
        14
    } else if n >= 107560960 {
        13
    } else if n >= 49643520 {
        12
    } else if n >= 22753280 {
        11
    } else if n >= 10342400 {
        10
    } else if n >= 4654080 {
        9
    } else if n >= 2068480 {
        8
    } else if n >= 904960 {
        7
    } else if n >= 387840 {
        6
    } else {
        5
    }
}

/// The block length by rows of its table: `L = 5` below 387,840 bits, then
/// one more for each row, `L = 9` exactly when `4,654,080 <= n < 10,342,400`,
/// up to `L = 16` from 1,059,061,760 bits on.
pub proof fn lemma_universal_block_length_rows(n: int)
    ensures
        n < 387_840 <==> universal_block_length(n) == 5,
        387_840 <= n < 904_960 <==> universal_block_length(n) == 6,
        904_960 <= n < 2_068_480 <==> universal_block_length(n) == 7,
        2_068_480 <= n < 4_654_080 <==> universal_block_length(n) == 8,
        4_654_080 <= n < 10_342_400 <==> universal_block_length(n) == 9,
        10_342_400 <= n < 22_753_280 <==> universal_block_length(n) == 10,
        22_753_280 <= n < 49_643_520 <==> universal_block_length(n) == 11,
        49_643_520 <= n < 107_560_960 <==> universal_block_length(n) == 12,
        107_560_960 <= n < 231_669_760 <==> universal_block_length(n) == 13,
        231_669_760 <= n < 496_435_200 <==> universal_block_length(n) == 14,
        496_435_200 <= n < 1_059_061_760 <==> universal_block_length(n) == 15,
        n >= 1_059_061_760 <==> universal_block_length(n) == 16,
{
}

/// Value of the `j` first bits of the block starting at `start`, first bit most significant.
pub open spec fn bits_value(s: Seq<bool>, start: int, j: nat) -> nat
    decreases j,
{
    if j == 0 {
        0
    } else {
        2 * bits_value(s, start, (j - 1) as nat) + bit_value(s[start + j - 1])
    }
}

/// Value of block `i` (numbered from 1) of length `l`.
pub open spec fn block_value(s: Seq<bool>, l: nat, i: int) -> nat {
    bits_value(s, (i - 1) * l, l)
}

/// The last block `j < i` (numbered from 1) with value `v`, or 0 if there is none.
pub open spec fn last_before(s: Seq<bool>, l: nat, v: nat, i: int) -> int
    decreases i,
{
    if i <= 1 {
        0
    } else if block_value(s, l, i - 1) == v {
        i - 1
    } else {
        last_before(s, l, v, i - 1)
    }
}

/// Distance from block `i` back to the last earlier block with the same value
/// (to block 0 if there is none).
pub open spec fn block_distance(s: Seq<bool>, l: nat, i: int) -> int {
    i - last_before(s, l, block_value(s, l, i), i)
}

proof fn lemma_bits_value_bounded(s: Seq<bool>, start: int, j: nat)
    ensures
        bits_value(s, start, j) < pow2(j),
    decreases j,
{
    if j == 0 {
        vstd::arithmetic::power2::lemma2_to64();
    } else {
        lemma_bits_value_bounded(s, start, (j - 1) as nat);
        vstd::arithmetic::power2::lemma_pow2_unfold(j);
    }
}

proof fn lemma_last_before_bounded(s: Seq<bool>, l: nat, v: nat, i: int)
    ensures
        0 <= last_before(s, l, v, i),
        i >= 1 ==> last_before(s, l, v, i) < i,
    decreases i,
{
    if i > 1 {
        lemma_last_before_bounded(s, l, v, i - 1);
    }
}

/// The parameters `(L, Q, K)`: block length, number of initialisation blocks
/// `Q = 10 * 2^L`, and number of test blocks `K = n / L - Q`.
pub fn universal_params(n: usize) -> (res: Result<(usize, usize, usize), TestError>)
    requires
        n >= UNIVERSAL_MIN_BITS,
    ensures
        res is Err <==> universal_block_length(n as int) < 6,
        res matches Err(e) ==> e == TestError::UniversalBlockLength,
        res matches Ok(r) ==> {
            &&& r.0 == universal_block_length(n as int)
            &&& r.1 == 10 * pow2(r.0 as nat)
            &&& r.2 == n / r.0 - r.1
            &&& (r.1 + r.2) * r.0 <= n
        },
        n < 387_840 ==> res == Err::<(usize, usize, usize), TestError>(
            TestError::UniversalBlockLength,
        ),
        387_840 <= n < 904_960 ==> (res matches Ok(r) && r.0 == 6),
        904_960 <= n < 2_068_480 ==> (res matches Ok(r) && r.0 == 7),
        2_068_480 <= n < 4_654_080 ==> (res matches Ok(r) && r.0 == 8),
        4_654_080 <= n < 10_342_400 ==> (res matches Ok(r) && r.0 == 9),
        10_342_400 <= n < 22_753_280 ==> (res matches Ok(r) && r.0 == 10),
        22_753_280 <= n < 49_643_520 ==> (res matches Ok(r) && r.0 == 11),
        49_643_520 <= n < 107_560_960 ==> (res matches Ok(r) && r.0 == 12),
        107_560_960 <= n < 231_669_760 ==> (res matches Ok(r) && r.0 == 13),
        231_669_760 <= n < 496_435_200 ==> (res matches Ok(r) && r.0 == 14),
        496_435_200 <= n < 1_059_061_760 ==> (res matches Ok(r) && r.0 == 15),
        n >= 1_059_061_760 ==> (res matches Ok(r) && r.0 == 16),
{
    let l: usize = if n >= 1059061760 {
        16
    } else if n >= 496435200 {
        15
    } else if n >= 231669760 {
        14
    } else if n >= 107560960 {
        13
    } else if n >= 49643520 {
        12
    } else if n >= 22753280 {
        11
    } else if n >= 10342400 {
        10
    } else if n >= 4654080 {
        9
    } else if n >= 2068480 {
        8
    } else if n >= 904960 {
        7
    } else if n >= 387840 {
        6
    } else {
        5
    };
    proof {
        vstd::arithmetic::power2::lemma2_to64();
    }
    let p = power_of_two(l as u32);
    let q = 10 * p;
    let blocks = n / l;
    assert(blocks >= q) by (nonlinear_arith)
        requires
            blocks == n / l,
            n >= 1600,
            l == universal_block_length(n as int),
            q == 10 * pow2(l as nat),
            pow2(5) == 32,
            pow2(6) == 64,
            pow2(7) == 128,
            pow2(8) == 256,
            pow2(9) == 512,
            pow2(10) == 1024,
            pow2(11) == 2048,
            pow2(12) == 4096,
            pow2(13) == 8192,
            pow2(14) == 16384,
            pow2(15) == 32768,
            pow2(16) == 65536,
    ;
    let k = blocks - q;
    assert((q + k) * l <= n) by (nonlinear_arith)
        requires
            q + k == n / l,
            l >= 5,
    ;
    if l < 6 {
        return Err(TestError::UniversalBlockLength);
    }
    Ok((l, q, k))
}

/// For each test block `i = Q + 1 ..= Q + K`, the distance back to the last
/// earlier block with the same value.
pub fn universal_distances(data: &BitsData, l: usize, q: usize, k: usize) -> (d: Vec<usize>)
    requires
        6 <= l <= 16,
        q == 10 * pow2(l as nat),
        (q + k) * l <= data@.len(),
    ensures
        d@.len() == k,
        forall|i: int| 0 <= i < k ==> #[trigger] d@[i] == block_distance(data@, l as nat, q + 1 + i),
{
    let ghost s = data@;
    proof {
        vstd::arithmetic::power2::lemma2_to64();
        assert(pow2(l as nat) <= 65536) by {
            if l < 16 {
                vstd::arithmetic::power2::lemma_pow2_strictly_increases(l as nat, 16);
            }
        }
    }
    let size = power_of_two(l as u32);
    let mut table: Vec<usize> = vec![0usize; size];
    let mut d: Vec<usize> = Vec::new();
    let n = data.len();
    assert(q + k <= n / 6) by (nonlinear_arith)
        requires
            (q + k) * l <= n,
            l >= 6,
    ;
    let total = q + k;
    let mut i: usize = 1;
    while i <= total
        invariant
            1 <= i <= total + 1,
            total == q + k,
            6 <= l <= 16,
            total * l <= s.len(),
            total <= n / 6,
            n == s.len(),
            s == data@,
            table@.len() == size == pow2(l as nat),
            forall|v: int| 0 <= v < size ==> #[trigger] table@[v] == last_before(s, l as nat, v as nat, i as int),
            i <= q + 1 ==> d@.len() == 0,
            i > q + 1 ==> d@.len() == i - q - 1,
            forall|t: int| 0 <= t < d@.len() ==> #[trigger] d@[t] == block_distance(s, l as nat, q + 1 + t),
        decreases total + 1 - i,
    {
        assert((i - 1) * l + l <= s.len()) by (nonlinear_arith)
            requires
                1 <= i <= total,
                total * l <= s.len(),
        ;
        let start = (i - 1) * l;
        let mut v: usize = 0;
        let mut j: usize = 0;
        while j < l
            invariant
                j <= l <= 16,
                start + l <= s.len(),
                n == s.len(),
                s == data@,
                v == bits_value(s, start as int, j as nat),
            decreases l - j,
        {
            proof {
                lemma_bits_value_bounded(s, start as int, j as nat);
                vstd::arithmetic::power2::lemma2_to64();
                assert(pow2(j as nat) <= 65536) by {
                    if j < 16 {
                        vstd::arithmetic::power2::lemma_pow2_strictly_increases(j as nat, 16);
                    }
                }
            }
            if data.index(start + j) {
                v = 2 * v + 1;
            } else {
                v = 2 * v;
            }
            j = j + 1;
        }
        proof {
            lemma_bits_value_bounded(s, start as int, l as nat);
            assert(v == block_value(s, l as nat, i as int));
            lemma_last_before_bounded(s, l as nat, v as nat, i as int);
        }
        if i > q {
            let prev = table[v];
            d.push(i - prev);
        }
        table.set(v, i);
        i = i + 1;
    }
    d
}

} // verus!
