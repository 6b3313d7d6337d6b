//! Linear complexity test: the length of the shortest linear feedback shift
//! register that generates each block, found by the Berlekamp-Massey
//! algorithm.
use vstd::prelude::*;

use crate::bits::BitsData;
use crate::error::TestError;
use crate::lfsr::{
    bv, coef, discrepancy, is_linear_complexity, lemma_discrepancies_from_generates,
    lemma_generates_from_discrepancies, lemma_generates_prefix, lemma_massey, lemma_shifted_tap,
    lemma_tap_degree, lemma_tap_prefix, lemma_tap_update, lfsr_generates, tap_sum,
};

verus! {

/// Least number of bits the linear complexity test accepts.
pub const LINEAR_MIN_BITS: usize = 1_000_000;

/// Least block length the test accepts.
pub const LINEAR_MIN_BLOCK: usize = 500;

/// Largest block length the test accepts.
pub const LINEAR_MAX_BLOCK: usize = 5_000;

/// Least number of blocks the test accepts.
pub const LINEAR_MIN_BLOCKS: usize = 200;

/// The state of the Berlekamp-Massey algorithm after the first `n` bits of
/// `a`: the register `(c, l)` is a shortest one that generates those bits;
/// `b` is the register saved at the last length change, made at bit
/// `last - 1` (`last == 0`: no change yet), where it had length `lb`.
pub open spec fn bm_state(a: Seq<bool>, n: int, c: Seq<bool>, b: Seq<bool>, l: int, last: int, lb: int) -> bool {
    &&& 0 <= l <= n <= a.len()
    &&& coef(c, 0)
    &&& coef(b, 0)
    &&& forall|j: int| l < j ==> !#[trigger] coef(c, j)
    &&& forall|k: int| l <= k < n ==> #[trigger] discrepancy(c, a, k, l) % 2 == 0
    &&& is_linear_complexity(a.take(n), l)
    &&& 0 <= last <= n
    &&& last == 0 ==> l == 0 && forall|j: int| 1 <= j ==> !#[trigger] coef(b, j)
    &&& last > 0 ==> {
        &&& 0 <= lb < last
        &&& l == last - lb
        &&& forall|j: int| lb < j ==> !#[trigger] coef(b, j)
        &&& forall|k: int| lb <= k < last - 1 ==> #[trigger] discrepancy(b, a, k, lb) % 2 == 0
        &&& discrepancy(b, a, last - 1, lb) % 2 == 1
    }
}

proof fn lemma_bm_init(a: Seq<bool>, c: Seq<bool>, b: Seq<bool>)
    requires
        coef(c, 0),
        coef(b, 0),
        forall|j: int| 1 <= j ==> !#[trigger] coef(c, j),
        forall|j: int| 1 <= j ==> !#[trigger] coef(b, j),
    ensures
        bm_state(a, 0, c, b, 0, 0, 0),
{
    assert(lfsr_generates(c, a.take(0), 0));
}

proof fn lemma_bm_keep(a: Seq<bool>, n: int, c: Seq<bool>, b: Seq<bool>, l: int, last: int, lb: int)
    requires
        bm_state(a, n, c, b, l, last, lb),
        n < a.len(),
        discrepancy(c, a, n, l) % 2 == 0,
    ensures
        bm_state(a, n + 1, c, b, l, last, lb),
{
    let t = a.take(n + 1);
    assert forall|k: int| l <= k < t.len() implies #[trigger] discrepancy(c, t, k, l) % 2 == 0 by {
        lemma_tap_prefix(c, a, t, k, l);
    }
    lemma_generates_from_discrepancies(c, t, l);
    assert forall|e: Seq<bool>, l2: int| 0 <= l2 < l implies !#[trigger] lfsr_generates(e, t, l2) by {
        if lfsr_generates(e, t, l2) {
            lemma_generates_prefix(e, t, n, l2);
            assert(t.take(n) =~= a.take(n));
            assert(!lfsr_generates(e, a.take(n), l2));
        }
    }
}

proof fn lemma_bm_change(
    a: Seq<bool>,
    n: int,
    c: Seq<bool>,
    cp: Seq<bool>,
    b: Seq<bool>,
    l: int,
    last: int,
    lb: int,
    newb: Seq<bool>,
    newl: int,
    newlast: int,
    newlb: int,
)
    requires
        bm_state(a, n, c, b, l, last, lb),
        n < a.len(),
        c.len() == a.len(),
        cp.len() == a.len(),
        b.len() == a.len(),
        discrepancy(c, a, n, l) % 2 == 1,
        forall|i: int|
            0 <= i < a.len() ==> #[trigger] cp[i] == (c[i] != (n + 1 - last <= i && b[i - (n + 1 - last)])),
        newl == if l <= n / 2 { n + 1 - l } else { l },
        l <= n / 2 ==> newb == c && newlast == n + 1 && newlb == l,
        !(l <= n / 2) ==> newb == b && newlast == last && newlb == lb,
    ensures
        bm_state(a, n + 1, cp, newb, newl, newlast, newlb),
{
    let s = n + 1 - last;
    let t = a.take(n + 1);
    assert(newl >= n + 1 - l && newl >= l);
    assert(coef(cp, 0)) by {
        assert(cp[0] == c[0]);
    }
    assert forall|i: int| 1 <= i < a.len() implies #[trigger] coef(cp, i) == (coef(c, i) != (s <= i
        && coef(b, i - s))) by {
        assert(cp[i] == (c[i] != (s <= i && b[i - s])));
    }
    assert forall|j: int| newl < j implies !#[trigger] coef(cp, j) by {
        if j < a.len() {
            assert(coef(cp, j) == (coef(c, j) != (s <= j && coef(b, j - s))));
            assert(!coef(c, j));
            if s <= j {
                assert(!coef(b, j - s));
            }
        }
    }
    assert forall|k: int| newl <= k < n + 1 implies #[trigger] discrepancy(cp, a, k, newl) % 2 == 0 by {
        assert(last > 0);
        lemma_tap_update(c, cp, b, a, k, s, newl);
        lemma_tap_degree(c, a, k, l, newl);
        lemma_shifted_tap(b, a, k, s, newl);
        lemma_tap_degree(b, a, k - s, lb, newl - s);
        let dc = discrepancy(c, a, k, l);
        let db = discrepancy(b, a, k - s, lb);
        if k < n {
            assert(dc % 2 == 0);
            assert(db % 2 == 0);
        } else {
            assert(dc % 2 == 1);
            assert(db % 2 == 1);
        }
        let x = tap_sum(cp, a, k, newl);
        let y = tap_sum(c, a, k, l);
        let z = discrepancy(b, a, k - s, lb);
        assert((bv(a[k]) + x) % 2 == 0) by (nonlinear_arith)
            requires
                (x - y - z) % 2 == 0,
                (bv(a[k]) + y) % 2 == z % 2,
        ;
    }
    // The new register generates the first n + 1 bits.
    assert forall|k: int| newl <= k < t.len() implies #[trigger] discrepancy(cp, t, k, newl) % 2 == 0 by {
        lemma_tap_prefix(cp, a, t, k, newl);
        assert(discrepancy(cp, a, k, newl) % 2 == 0);
    }
    lemma_generates_from_discrepancies(cp, t, newl);
    // No shorter register does.
    assert forall|e: Seq<bool>, l2: int| 0 <= l2 < newl implies !#[trigger] lfsr_generates(e, t, l2) by {
        if lfsr_generates(e, t, l2) {
            if l2 < l {
                lemma_generates_prefix(e, t, n, l2);
                assert(t.take(n) =~= a.take(n));
                assert(!lfsr_generates(e, a.take(n), l2));
            } else {
                assert forall|k: int| l <= k < n implies #[trigger] discrepancy(c, t, k, l) % 2 == 0 by {
                    lemma_tap_prefix(c, a, t, k, l);
                    assert(discrepancy(c, a, k, l) % 2 == 0);
                }
                lemma_tap_prefix(c, a, t, n, l);
                lemma_massey(c, e, t, n, l, l2);
                lemma_discrepancies_from_generates(e, t, l2);
            }
        }
    }
}

/// Linear complexity of the `m` bits of `data` starting at `start`, by the
/// Berlekamp-Massey algorithm.
pub fn block_linear_complexity(data: &BitsData, start: usize, m: usize) -> (l: usize)
    requires
        1 <= m,
        start + m <= data@.len(),
    ensures
        is_linear_complexity(data@.subrange(start as int, start + m), l as int),
{
    let ghost a = data@.subrange(start as int, start + m);
    let total = data.len();
    let mut c: Vec<bool> = vec![false; m];
    let mut b: Vec<bool> = vec![false; m];
    c.set(0, true);
    b.set(0, true);
    let mut l: usize = 0;
    // One past the position of the last length change (0: none yet).
    let mut last: usize = 0;
    let ghost mut lb: int = 0;
    proof {
        assert forall|j: int| 1 <= j implies !#[trigger] coef(c@, j) by {}
        assert forall|j: int| 1 <= j implies !#[trigger] coef(b@, j) by {}
        lemma_bm_init(a, c@, b@);
    }
    let mut n: usize = 0;
    while n < m
        invariant
            n <= m,
            1 <= m,
            start + m <= data@.len() == total,
            a == data@.subrange(start as int, start + m),
            c@.len() == m,
            b@.len() == m,
            bm_state(a, n as int, c@, b@, l as int, last as int, lb),
        decreases m - n,
    {
        let mut d: bool = data.index(start + n);
        let mut j: usize = 1;
        while j <= l
            invariant
                1 <= j <= l + 1,
                l <= n < m,
                start + m <= data@.len() == total,
                a == data@.subrange(start as int, start + m),
                c@.len() == m,
                bv(d) == (bv(a[n as int]) + tap_sum(c@, a, n as int, j - 1)) % 2,
            decreases l + 1 - j,
        {
            let ghost prev = tap_sum(c@, a, n as int, j - 1);
            assert(tap_sum(c@, a, n as int, j as int) == prev + bv(coef(c@, j as int)) * bv(
                a[n - j],
            ));
            assert(a[n - j] == data@[start + n - j]);
            if data.index(start + n - j) && c[j] {
                d = !d;
            }
            j = j + 1;
        }
        assert(bv(d) == discrepancy(c@, a, n as int, l as int) % 2);
        if d {
            let t = c.clone();
            assert(t@ =~= c@);
            let ghost c_old = c@;
            let ghost b_old = b@;
            let shift = n + 1 - last;
            let mut i: usize = 0;
            while i < m - shift
                invariant
                    1 <= shift <= n + 1 <= m,
                    i <= m - shift,
                    c@.len() == m,
                    b@.len() == m,
                    b@ == b_old,
                    forall|x: int|
                        0 <= x < m ==> #[trigger] c@[x] == if shift <= x < shift + i {
                            c_old[x] != b_old[x - shift]
                        } else {
                            c_old[x]
                        },
                decreases m - shift - i,
            {
                let v = c[i + shift] != b[i];
                c.set(i + shift, v);
                i = i + 1;
            }
            proof {
                assert forall|x: int| 0 <= x < a.len() implies #[trigger] c@[x] == (c_old[x] != (n
                    + 1 - last <= x && b_old[x - (n + 1 - last)])) by {}
            }
            if l <= n / 2 {
                proof {
                    lemma_bm_change(
                        a,
                        n as int,
                        c_old,
                        c@,
                        b_old,
                        l as int,
                        last as int,
                        lb,
                        c_old,
                        n + 1 - l,
                        n + 1,
                        l as int,
                    );
                    lb = l as int;
                }
                l = n + 1 - l;
                last = n + 1;
                b = t;
            } else {
                proof {
                    lemma_bm_change(
                        a,
                        n as int,
                        c_old,
                        c@,
                        b_old,
                        l as int,
                        last as int,
                        lb,
                        b_old,
                        l as int,
                        last as int,
                        lb,
                    );
                }
            }
        } else {
            proof {
                lemma_bm_keep(a, n as int, c@, b@, l as int, last as int, lb);
            }
        }
        n = n + 1;
    }
    assert(a.take(m as int) =~= a);
    l
}

/// The test refuses fewer than 1,000,000 bits, a block length outside
/// `500 ..= 5000`, and fewer than 200 blocks, in that order.
pub open spec fn linear_error(n: int, m: int) -> Option<TestError> {
    if n < LINEAR_MIN_BITS {
        Some(TestError::LinearTooShort)
    } else if m < LINEAR_MIN_BLOCK || m > LINEAR_MAX_BLOCK {
        Some(TestError::LinearBlockLength)
    } else if n / m < LINEAR_MIN_BLOCKS {
        Some(TestError::LinearTooFewBlocks)
    } else {
        None
    }
}

/// The refusals of the linear complexity test, by their bounds: under
/// 1,000,000 bits the sequence is too short; a block length outside
/// `500 ..= 5000` is refused; fewer than 200 blocks are refused; every other
/// pair of sizes is accepted.
pub proof fn lemma_linear_refusals(n: int, m: int)
    requires
        m >= 0,
    ensures
        n < 1_000_000 <==> linear_error(n, m) == Some(TestError::LinearTooShort),
        n >= 1_000_000 && (m < 500 || m > 5000) <==> linear_error(n, m) == Some(
            TestError::LinearBlockLength,
        ),
        n >= 1_000_000 && 500 <= m <= 5000 && n / m < 200 <==> linear_error(n, m) == Some(
            TestError::LinearTooFewBlocks,
        ),
        n >= 1_000_000 && 500 <= m <= 5000 && n / m >= 200 <==> linear_error(n, m) is None,
{
}

/// Number of blocks `n / m`, once the sizes have been checked.
pub fn linear_params(n: usize, m: usize) -> (res: Result<usize, TestError>)
    ensures
        res matches Err(e) ==> linear_error(n as int, m as int) == Some(e),
        res matches Ok(b) ==> linear_error(n as int, m as int) is None && b == n / m
            && LINEAR_MIN_BLOCK <= m <= LINEAR_MAX_BLOCK,
        n < 1_000_000 ==> res == Err::<usize, TestError>(TestError::LinearTooShort),
        n >= 1_000_000 && (m < 500 || m > 5000) ==> res == Err::<usize, TestError>(
            TestError::LinearBlockLength,
        ),
        n >= 1_000_000 && 500 <= m <= 5000 && n / m < 200 ==> res == Err::<usize, TestError>(
            TestError::LinearTooFewBlocks,
        ),
        n >= 1_000_000 && 500 <= m <= 5000 && n / m >= 200 ==> res == Ok::<usize, TestError>(
            n / m,
        ),
{
    if n < LINEAR_MIN_BITS {
        return Err(TestError::LinearTooShort);
    }
    if m < LINEAR_MIN_BLOCK || m > LINEAR_MAX_BLOCK {
        return Err(TestError::LinearBlockLength);
    }
    let blocks = n / m;
    if blocks < LINEAR_MIN_BLOCKS {
        return Err(TestError::LinearTooFewBlocks);
    }
    Ok(blocks)
}

/// Linear complexity of each of the `n / m` blocks of length `m`.
pub fn linear_complexity_profile(data: &BitsData, m: usize) -> (res: Result<Vec<usize>, TestError>)
    ensures
        res matches Err(e) ==> linear_error(data@.len() as int, m as int) == Some(e),
        data@.len() < 1_000_000 ==> res == Err::<Vec<usize>, TestError>(
            TestError::LinearTooShort,
        ),
        data@.len() >= 1_000_000 && (m < 500 || m > 5000) ==> res == Err::<Vec<usize>, TestError>(
            TestError::LinearBlockLength,
        ),
        data@.len() >= 1_000_000 && 500 <= m <= 5000 && data@.len() / (m as nat) < 200 ==> res
            == Err::<Vec<usize>, TestError>(TestError::LinearTooFewBlocks),
        data@.len() >= 1_000_000 && 500 <= m <= 5000 && data@.len() / (m as nat) >= 200 ==> (
        res matches Ok(ls) && ls@.len() == data@.len() / (m as nat)),
        res matches Ok(ls) ==> {
            &&& linear_error(data@.len() as int, m as int) is None
            &&& ls@.len() == data@.len() / (m as nat)
            &&& forall|i: int|
                0 <= i < ls@.len() ==> is_linear_complexity(
                    data@.subrange(i * m, i * m + m),
                    #[trigger] ls@[i] as int,
                )
        },
{
    let n = data.len();
    let blocks = linear_params(n, m)?;
    let mut ls: Vec<usize> = Vec::new();
    let mut i: usize = 0;
    while i < blocks
        invariant
            i <= blocks == n / m,
            n == data@.len(),
            LINEAR_MIN_BLOCK <= m <= LINEAR_MAX_BLOCK,
            ls@.len() == i,
            forall|k: int|
                0 <= k < i ==> is_linear_complexity(
                    data@.subrange(k * m, k * m + m),
                    #[trigger] ls@[k] as int,
                ),
        decreases blocks - i,
    {
        assert(i * m + m <= n) by (nonlinear_arith)
            requires
                i < blocks,
                blocks == n / m,
                m >= 1,
        ;
        let l = block_linear_complexity(data, i * m, m);
        ls.push(l);
        i = i + 1;
    }
    Ok(ls)
}

} // verus!
