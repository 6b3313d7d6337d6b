//! Linear feedback shift registers over GF(2) and the linear complexity of a
//! bit sequence, with the facts the Berlekamp-Massey algorithm rests on.
use vstd::prelude::*;

verus! {

/// `1` for `true`, `0` for `false`.
pub open spec fn bv(b: bool) -> int {
    if b {
        1
    } else {
        0
    }
}

/// Coefficient `j` of a polynomial over GF(2) stored by its first coefficients;
/// zero outside the stored range.
pub open spec fn coef(c: Seq<bool>, j: int) -> bool {
    0 <= j < c.len() && c[j]
}

/// `f(1) + f(2) + ... + f(n)`.
pub open spec fn sum1(f: spec_fn(int) -> int, n: int) -> int
    decreases n,
{
    if n <= 0 {
        0
    } else {
        sum1(f, n - 1) + f(n)
    }
}

/// The feedback of the register with taps `c` and length `len` at position
/// `k`: `c_1 a_{k-1} + ... + c_len a_{k-len}`, over the integers.
pub open spec fn tap_sum(c: Seq<bool>, a: Seq<bool>, k: int, len: int) -> int {
    sum1(|i: int| bv(coef(c, i)) * bv(a[k - i]), len)
}

/// Bit `k` plus the feedback at `k`; even exactly where the register predicts bit `k`.
pub open spec fn discrepancy(c: Seq<bool>, a: Seq<bool>, k: int, len: int) -> int {
    bv(a[k]) + tap_sum(c, a, k, len)
}

/// The register of length `len` with taps `c_1, ..., c_len` generates `a`:
/// every bit from position `len` on is the sum, modulo 2, of the tapped
/// earlier bits.
pub open spec fn lfsr_generates(c: Seq<bool>, a: Seq<bool>, len: int) -> bool {
    forall|k: int| len <= k < a.len() ==> bv(#[trigger] a[k]) == tap_sum(c, a, k, len) % 2
}

/// `l` is the linear complexity of `a`: the length of the shortest linear
/// feedback shift register that generates `a`.
pub open spec fn is_linear_complexity(a: Seq<bool>, l: int) -> bool {
    &&& 0 <= l <= a.len()
    &&& exists|c: Seq<bool>| #[trigger] lfsr_generates(c, a, l)
    &&& forall|c: Seq<bool>, l2: int| 0 <= l2 < l ==> !#[trigger] lfsr_generates(c, a, l2)
}

/// Sums of pointwise equal terms are equal.
pub proof fn lemma_sum1_ext(f: spec_fn(int) -> int, g: spec_fn(int) -> int, n: int)
    requires
        forall|i: int| 1 <= i <= n ==> #[trigger] f(i) == g(i),
    ensures
        sum1(f, n) == sum1(g, n),
    decreases n,
{
    if n > 0 {
        lemma_sum1_ext(f, g, n - 1);
    }
}

/// Sums of terms of equal parity have equal parity.
pub proof fn lemma_sum1_parity(f: spec_fn(int) -> int, g: spec_fn(int) -> int, n: int)
    requires
        forall|i: int| 1 <= i <= n ==> #[trigger] f(i) % 2 == g(i) % 2,
    ensures
        sum1(f, n) % 2 == sum1(g, n) % 2,
    decreases n,
{
    if n > 0 {
        lemma_sum1_parity(f, g, n - 1);
        assert(f(n) % 2 == g(n) % 2);
        assert((sum1(f, n - 1) + f(n)) % 2 == (sum1(g, n - 1) + g(n)) % 2) by (nonlinear_arith)
            requires
                sum1(f, n - 1) % 2 == sum1(g, n - 1) % 2,
                f(n) % 2 == g(n) % 2,
        ;
    }
}

/// A sum of zeros is zero.
pub proof fn lemma_sum1_zero(f: spec_fn(int) -> int, n: int)
    requires
        forall|i: int| 1 <= i <= n ==> #[trigger] f(i) == 0,
    ensures
        sum1(f, n) == 0,
    decreases n,
{
    if n > 0 {
        lemma_sum1_zero(f, n - 1);
    }
}

/// A factor of 0 or 1 moves into a sum.
pub proof fn lemma_sum1_scale(w: int, f: spec_fn(int) -> int, g: spec_fn(int) -> int, n: int)
    requires
        w == 0 || w == 1,
        forall|i: int| 1 <= i <= n ==> #[trigger] g(i) == w * f(i),
    ensures
        sum1(g, n) == w * sum1(f, n),
    decreases n,
{
    if w == 0 {
        lemma_sum1_zero(g, n);
    } else {
        lemma_sum1_ext(g, f, n);
    }
}

/// Sums of pointwise sums.
pub proof fn lemma_sum1_add(f: spec_fn(int) -> int, g: spec_fn(int) -> int, h: spec_fn(int) -> int, n: int)
    requires
        forall|i: int| 1 <= i <= n ==> #[trigger] h(i) == f(i) + g(i),
    ensures
        sum1(h, n) == sum1(f, n) + sum1(g, n),
    decreases n,
{
    if n > 0 {
        lemma_sum1_add(f, g, h, n - 1);
    }
}

/// The order of a double sum does not matter.
pub proof fn lemma_sum1_swap(f: spec_fn(int, int) -> int, n1: int, n2: int)
    ensures
        sum1(|i: int| sum1(|j: int| f(i, j), n2), n1) == sum1(
            |j: int| sum1(|i: int| f(i, j), n1),
            n2,
        ),
    decreases n1,
{
    if n1 > 0 {
        lemma_sum1_swap(f, n1 - 1, n2);
        let g = |j: int| sum1(|i: int| f(i, j), n1);
        let g0 = |j: int| sum1(|i: int| f(i, j), n1 - 1);
        let last = |j: int| f(n1, j);
        assert forall|j: int| 1 <= j <= n2 implies #[trigger] g(j) == g0(j) + last(j) by {}
        lemma_sum1_add(g0, last, g, n2);
        let outer = |i: int| sum1(|j: int| f(i, j), n2);
        assert(outer(n1) == sum1(last, n2));
    } else {
        lemma_sum1_zero(|j: int| sum1(|i: int| f(i, j), n1), n2);
    }
}

/// For a bit `w`, `w * x` and `w * y` have equal parity when `x` and `y` do.
proof fn lemma_bit_mul_parity(w: int, x: int, y: int)
    requires
        w == 0 || w == 1,
        x % 2 == y % 2,
    ensures
        (w * x) % 2 == (w * y) % 2,
{
}

/// Products of three bits in either order.
proof fn lemma_bit_mul_comm(w: int, u: int, x: int)
    requires
        w == 0 || w == 1,
        u == 0 || u == 1,
    ensures
        w * (u * x) == u * (w * x),
{
}

/// Massey's lemma: when the register `(c, len)` produces `a` up to bit `n - 1`
/// but not bit `n`, no register `(e, len2)` with `len + len2 <= n` produces
/// `a` up to bit `n`.
pub proof fn lemma_massey(c: Seq<bool>, e: Seq<bool>, a: Seq<bool>, n: int, len: int, len2: int)
    requires
        0 <= len,
        0 <= len2,
        len + len2 <= n < a.len(),
        forall|k: int| len <= k < n ==> #[trigger] discrepancy(c, a, k, len) % 2 == 0,
        discrepancy(c, a, n, len) % 2 == 1,
    ensures
        exists|k: int| len2 <= k <= n && #[trigger] discrepancy(e, a, k, len2) % 2 != 0,
{
    if forall|k: int| len2 <= k <= n ==> #[trigger] discrepancy(e, a, k, len2) % 2 == 0 {
        lemma_massey_contradiction(c, e, a, n, len, len2);
    }
}

/// Under the hypotheses of Massey's lemma, were `(e, len2)` to produce `a` up
/// to bit `n`, the feedback of `(c, len)` at `n` would agree with bit `n`.
proof fn lemma_massey_contradiction(c: Seq<bool>, e: Seq<bool>, a: Seq<bool>, n: int, len: int, len2: int)
    requires
        0 <= len,
        0 <= len2,
        len + len2 <= n < a.len(),
        forall|k: int| len <= k < n ==> #[trigger] discrepancy(c, a, k, len) % 2 == 0,
        discrepancy(c, a, n, len) % 2 == 1,
        forall|k: int| len2 <= k <= n ==> #[trigger] discrepancy(e, a, k, len2) % 2 == 0,
    ensures
        tap_sum(c, a, n, len) % 2 == bv(a[n]) % 2,
{
    let w = |i: int| bv(coef(c, i));
    let u = |j: int| bv(coef(e, j));
    let aa = |t: int| bv(a[n - t]);
    // tap_sum(c, a, n, len), written with `aa`.
    let t0 = |i: int| w(i) * aa(i);
    assert(tap_sum(c, a, n, len) == sum1(t0, len)) by {
        lemma_sum1_ext(|i: int| bv(coef(c, i)) * bv(a[n - i]), t0, len);
    }
    // Each earlier bit replaced by the feedback of `e`.
    let f1 = |i: int| w(i) * sum1(|j: int| u(j) * aa(i + j), len2);
    assert forall|i: int| 1 <= i <= len implies #[trigger] t0(i) % 2 == f1(i) % 2 by {
        let k = n - i;
        assert(discrepancy(e, a, k, len2) % 2 == 0);
        lemma_generates_bit(e, a, k, len2);
        lemma_sum1_ext(
            |j: int| bv(coef(e, j)) * bv(a[k - j]),
            |j: int| u(j) * aa(i + j),
            len2,
        );
        lemma_bit_mul_parity(w(i), aa(i), sum1(|j: int| u(j) * aa(i + j), len2));
    }
    lemma_sum1_parity(t0, f1, len);
    // Into a double sum, and swapped.
    let ff = |i: int, j: int| w(i) * (u(j) * aa(i + j));
    let f2 = |i: int| sum1(|j: int| ff(i, j), len2);
    assert forall|i: int| 1 <= i <= len implies #[trigger] f1(i) == f2(i) by {
        lemma_sum1_scale(w(i), |j: int| u(j) * aa(i + j), |j: int| ff(i, j), len2);
    }
    lemma_sum1_ext(f1, f2, len);
    lemma_sum1_swap(ff, len, len2);
    let g = |j: int| sum1(|i: int| ff(i, j), len);
    // Each inner sum is the feedback of `c` at an earlier bit.
    let g1 = |j: int| u(j) * aa(j);
    assert forall|j: int| 1 <= j <= len2 implies #[trigger] g(j) % 2 == g1(j) % 2 by {
        let k = n - j;
        assert forall|i: int| 1 <= i <= len implies #[trigger] ff(i, j) == u(j) * (w(i) * aa(i + j)) by {
            lemma_bit_mul_comm(w(i), u(j), aa(i + j));
        }
        lemma_sum1_scale(u(j), |i: int| w(i) * aa(i + j), |i: int| ff(i, j), len);
        lemma_sum1_ext(
            |i: int| w(i) * aa(i + j),
            |i: int| bv(coef(c, i)) * bv(a[k - i]),
            len,
        );
        assert(discrepancy(c, a, k, len) % 2 == 0);
        lemma_generates_bit(c, a, k, len);
        lemma_bit_mul_parity(u(j), tap_sum(c, a, k, len), aa(j));
    }
    lemma_sum1_parity(g, g1, len2);
    assert(tap_sum(e, a, n, len2) == sum1(g1, len2)) by {
        lemma_sum1_ext(|j: int| bv(coef(e, j)) * bv(a[n - j]), g1, len2);
    }
    assert(discrepancy(e, a, n, len2) % 2 == 0);
}

/// The feedback at `k` reads only bits before `k`, so a prefix long enough
/// gives the same feedback.
pub proof fn lemma_tap_prefix(c: Seq<bool>, a: Seq<bool>, t: Seq<bool>, k: int, len: int)
    requires
        t.len() <= a.len(),
        t == a.take(t.len() as int),
        0 <= len <= k < t.len(),
    ensures
        tap_sum(c, t, k, len) == tap_sum(c, a, k, len),
        discrepancy(c, t, k, len) == discrepancy(c, a, k, len),
{
    lemma_sum1_ext(
        |i: int| bv(coef(c, i)) * bv(t[k - i]),
        |i: int| bv(coef(c, i)) * bv(a[k - i]),
        len,
    );
}

/// Taps that are all zero beyond `len1` give the same feedback for any
/// register length `len2 >= len1`.
pub proof fn lemma_tap_degree(c: Seq<bool>, a: Seq<bool>, k: int, len1: int, len2: int)
    requires
        0 <= len1 <= len2,
        forall|j: int| len1 < j <= len2 ==> !#[trigger] coef(c, j),
    ensures
        tap_sum(c, a, k, len2) == tap_sum(c, a, k, len1),
    decreases len2 - len1,
{
    if len2 > len1 {
        lemma_tap_degree(c, a, k, len1, len2 - 1);
    }
}

/// The feedback at `k` of the taps `b` moved up by `s` places.
pub open spec fn shifted_tap_sum(b: Seq<bool>, a: Seq<bool>, k: int, s: int, len: int) -> int {
    sum1(|i: int| bv(s <= i && coef(b, i - s)) * bv(a[k - i]), len)
}

/// Adding `x^s b(x)` to the taps adds, modulo 2, the shifted feedback.
pub proof fn lemma_tap_update(c: Seq<bool>, cp: Seq<bool>, b: Seq<bool>, a: Seq<bool>, k: int, s: int, len: int)
    requires
        forall|i: int| 1 <= i <= len ==> #[trigger] coef(cp, i) == (coef(c, i) != (s <= i && coef(b, i - s))),
    ensures
        (tap_sum(cp, a, k, len) - tap_sum(c, a, k, len) - shifted_tap_sum(b, a, k, s, len)) % 2 == 0,
    decreases len,
{
    if len > 0 {
        lemma_tap_update(c, cp, b, a, k, s, len - 1);
        assert(coef(cp, len) == (coef(c, len) != (s <= len && coef(b, len - s))));
        let prev = tap_sum(cp, a, k, len - 1) - tap_sum(c, a, k, len - 1) - shifted_tap_sum(b, a, k, s, len - 1);
        let x = bv(coef(cp, len)) * bv(a[k - len]);
        let y = bv(coef(c, len)) * bv(a[k - len]);
        let z = bv(s <= len && coef(b, len - s)) * bv(a[k - len]);
        assert(x - y - z == 0 || x - y - z == -2);
        assert(tap_sum(cp, a, k, len) == tap_sum(cp, a, k, len - 1) + x);
        assert(tap_sum(c, a, k, len) == tap_sum(c, a, k, len - 1) + y);
        assert(shifted_tap_sum(b, a, k, s, len) == shifted_tap_sum(b, a, k, s, len - 1) + z);
        assert((prev + (x - y - z)) % 2 == 0) by (nonlinear_arith)
            requires
                prev % 2 == 0,
                x - y - z == 0 || x - y - z == -2,
        ;
    }
}

/// The shifted feedback vanishes below the shift and is the discrepancy of
/// `b` at `k - s` from it on.
pub proof fn lemma_shifted_tap(b: Seq<bool>, a: Seq<bool>, k: int, s: int, len: int)
    requires
        1 <= s,
        coef(b, 0),
    ensures
        len < s ==> shifted_tap_sum(b, a, k, s, len) == 0,
        len >= s ==> shifted_tap_sum(b, a, k, s, len) == discrepancy(b, a, k - s, len - s),
    decreases len,
{
    if len > 0 {
        lemma_shifted_tap(b, a, k, s, len - 1);
        if len > s {
            assert(tap_sum(b, a, k - s, len - s) == tap_sum(b, a, k - s, len - s - 1) + bv(coef(b, len - s)) * bv(a[(k - s) - (len - s)]));
        } else if len == s {
            assert(tap_sum(b, a, k - s, 0) == 0);
        }
    }
}

/// A register predicts bit `k` exactly when the discrepancy there is even.
pub proof fn lemma_generates_bit(c: Seq<bool>, a: Seq<bool>, k: int, len: int)
    ensures
        (discrepancy(c, a, k, len) % 2 == 0) == (bv(a[k]) == tap_sum(c, a, k, len) % 2),
{
}

/// A register with even discrepancies on `len .. a.len()` generates `a`.
pub proof fn lemma_generates_from_discrepancies(c: Seq<bool>, a: Seq<bool>, len: int)
    requires
        forall|k: int| len <= k < a.len() ==> #[trigger] discrepancy(c, a, k, len) % 2 == 0,
    ensures
        lfsr_generates(c, a, len),
{
    assert forall|k: int| len <= k < a.len() implies bv(#[trigger] a[k]) == tap_sum(c, a, k, len) % 2 by {
        assert(discrepancy(c, a, k, len) % 2 == 0);
        lemma_generates_bit(c, a, k, len);
    }
}

/// A register that generates `a` has even discrepancies on `len .. a.len()`.
pub proof fn lemma_discrepancies_from_generates(c: Seq<bool>, a: Seq<bool>, len: int)
    requires
        lfsr_generates(c, a, len),
    ensures
        forall|k: int| len <= k < a.len() ==> #[trigger] discrepancy(c, a, k, len) % 2 == 0,
{
    assert forall|k: int| len <= k < a.len() implies #[trigger] discrepancy(c, a, k, len) % 2 == 0 by {
        assert(bv(a[k]) == tap_sum(c, a, k, len) % 2);
        lemma_generates_bit(c, a, k, len);
    }
}

/// A register that generates a sequence generates each of its prefixes.
pub proof fn lemma_generates_prefix(c: Seq<bool>, a: Seq<bool>, n: int, len: int)
    requires
        0 <= len,
        0 <= n <= a.len(),
        lfsr_generates(c, a, len),
    ensures
        lfsr_generates(c, a.take(n), len),
{
    let t = a.take(n);
    assert forall|k: int| len <= k < t.len() implies bv(#[trigger] t[k]) == tap_sum(c, t, k, len) % 2 by {
        assert(bv(a[k]) == tap_sum(c, a, k, len) % 2);
        lemma_tap_prefix(c, a, t, k, len);
    }
}

} // verus!
