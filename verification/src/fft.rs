//! Discrete Fourier transform (spectral) test: the `±1` signal whose
//! spectrum the test examines.
use vstd::prelude::*;

use crate::bits::BitsData;
use crate::error::TestError;

verus! {

/// Least number of bits the spectral test accepts.
pub const FFT_MIN_BITS: usize = 1_000;

/// `+1` for a one, `-1` for a zero.
pub open spec fn signal_value(b: bool) -> i8 {
    if b {
        1i8
    } else {
        -1i8
    }
}

/// The `±1` signal of a bit sequence.
pub open spec fn signal(s: Seq<bool>) -> Seq<i8> {
    s.map_values(|b: bool| signal_value(b))
}

/// The sequence as a signal of `+1` (one) and `-1` (zero) samples.
pub fn fft_signal(data: &BitsData) -> (res: Result<Vec<i8>, TestError>)
    ensures
        res is Err <==> data@.len() < FFT_MIN_BITS,
        res matches Err(e) ==> e == TestError::FftTooShort,
        res matches Ok(v) ==> v@ == signal(data@),
{
    let n = data.len();
    if n < FFT_MIN_BITS {
        return Err(TestError::FftTooShort);
    }
    let mut v: Vec<i8> = Vec::new();
    let mut i: usize = 0;
    while i < n
        invariant
            i <= n == data@.len(),
            v@ == data@.take(i as int).map_values(|b: bool| signal_value(b)),
        decreases n - i,
    {
        v.push(if data.index(i) { 1i8 } else { -1i8 });
        proof {
            assert(data@.take(i + 1) =~= data@.take(i as int).push(data@[i as int]));
        }
        i = i + 1;
        assert(v@ =~= data@.take(i as int).map_values(|b: bool| signal_value(b)));
    }
    assert(data@.take(n as int) =~= data@);
    Ok(v)
}

/// Complementing every bit negates every sample of the signal (so the moduli
/// of its transform, and the test's outcome, are unchanged).
pub proof fn lemma_signal_complement(s: Seq<bool>, t: Seq<bool>)
    requires
        t.len() == s.len(),
        forall|i: int| 0 <= i < t.len() ==> #[trigger] t[i] == !s[i],
    ensures
        forall|i: int|
            0 <= i < t.len() ==> #[trigger] signal(t)[i] as int == -(signal(s)[i] as int),
{
}

} // verus!
