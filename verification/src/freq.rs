//! Frequency (monobit) test: the excess of ones over zeros.
use vstd::prelude::*;

use crate::bits::{count_ones, BitsData};
use crate::error::TestError;

verus! {

/// Least number of bits the frequency test accepts.
pub const FREQUENCY_MIN_BITS: usize = 100;

/// Number of ones minus number of zeros: `S_n = 2 * ones - n`.
pub fn frequency_statistic(data: &BitsData) -> (res: Result<i128, TestError>)
    ensures
        res is Err <==> data@.len() < FREQUENCY_MIN_BITS,
        res matches Err(e) ==> e == TestError::FrequencyTooShort,
        res matches Ok(s) ==> s == 2 * count_ones(data@) - data@.len(),
{
    let ones = data.ones();
    let nbits = data.len();
    if nbits < FREQUENCY_MIN_BITS {
        return Err(TestError::FrequencyTooShort);
    }
    Ok(2 * (ones as i128) - (nbits as i128))
}

} // verus!
