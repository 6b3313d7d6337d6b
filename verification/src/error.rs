//! The reasons for which a test refuses its input.
use vstd::prelude::*;

verus! {

/// Why a test cannot run on the given sequence and parameters.
#[derive(Debug, Clone, Copy, PartialEq, Eq, Structural)]
pub enum TestError {
    /// Frequency test: fewer than 100 bits.
    FrequencyTooShort,
    /// Runs test: fewer than 100 bits.
    RunsTooShort,
    /// Cumulative sums test: fewer than 100 bits.
    CusumTooShort,
    /// Approximate entropy test: `m >= floor(log2(n)) - 5`.
    ApproximateEntropyParameters,
    /// Serial test: `m >= floor(log2(n)) - 2`.
    SerialParameters,
    /// Spectral test: fewer than 1,000 bits.
    FftTooShort,
    /// Random excursions tests: fewer than 1,000,000 bits.
    ExcursionsTooShort,
    /// Random excursions tests: too few cycles of the walk.
    ExcursionsTooFewCycles,
    /// Universal test: too few bits for a block length of at least 6.
    UniversalBlockLength,
    /// Template tests: template length outside `2 ..= 16`.
    TemplateLength,
    /// Non-overlapping template test: the sequence does not split into 8 blocks.
    TemplateBlocks,
    /// Overlapping template test: fewer than `1032 * 968` bits.
    OverlappingTooShort,
    /// Linear complexity test: fewer than 1,000,000 bits.
    LinearTooShort,
    /// Linear complexity test: block length outside `500 ..= 5000`.
    LinearBlockLength,
    /// Linear complexity test: fewer than 200 blocks.
    LinearTooFewBlocks,
}

impl TestError {
    /// The message that the test reports.
    pub fn message(&self) -> (s: String)
        ensures
            s@ == self.spec_message(),
    {
        proof {
            broadcast use vstd::string::to_string_from_display_ensures_for_str;
        }
        match self {
            TestError::FrequencyTooShort => "At least 100 bits are required to run the frequency test.".to_string(),
            TestError::RunsTooShort => "At least 100 bits are required to run the runs test.".to_string(),
            TestError::CusumTooShort => "n must be at least 100".to_string(),
            TestError::ApproximateEntropyParameters => "m and n must fulfil m < floor(log2(n)) - 5".to_string(),
            TestError::SerialParameters => "m and n must fulfil m < floor(log2(n)) - 2".to_string(),
            TestError::FftTooShort => "At least 1,000 bits are required to run the DFT test".to_string(),
            TestError::ExcursionsTooShort => "n must be at least 1000000".to_string(),
            TestError::ExcursionsTooFewCycles => "WARNING:  TEST NOT APPLICABLE.  THERE ARE AN INSUFFICIENT NUMBER OF CYCLES.".to_string(),
            TestError::UniversalBlockLength => "Invalid value of l, check size of n!".to_string(),
            TestError::TemplateLength => "In this implementation 2 <= m <= 16 !".to_string(),
            TestError::TemplateBlocks => "N != n/M".to_string(),
            TestError::OverlappingTooShort => "n is too small, increase to at least 998976".to_string(),
            TestError::LinearTooShort => "n must be at least 1,000,000".to_string(),
            TestError::LinearBlockLength => "m must be between 500 and 5,000".to_string(),
            TestError::LinearTooFewBlocks => "N ist smaller than 200, result is invalid".to_string(),
        }
    }

    /// The text of `message`.
    pub open spec fn spec_message(&self) -> Seq<char> {
        match self {
            TestError::FrequencyTooShort => "At least 100 bits are required to run the frequency test."@,
            TestError::RunsTooShort => "At least 100 bits are required to run the runs test."@,
            TestError::CusumTooShort => "n must be at least 100"@,
            TestError::ApproximateEntropyParameters => "m and n must fulfil m < floor(log2(n)) - 5"@,
            TestError::SerialParameters => "m and n must fulfil m < floor(log2(n)) - 2"@,
            TestError::FftTooShort => "At least 1,000 bits are required to run the DFT test"@,
            TestError::ExcursionsTooShort => "n must be at least 1000000"@,
            TestError::ExcursionsTooFewCycles => "WARNING:  TEST NOT APPLICABLE.  THERE ARE AN INSUFFICIENT NUMBER OF CYCLES."@,
            TestError::UniversalBlockLength => "Invalid value of l, check size of n!"@,
            TestError::TemplateLength => "In this implementation 2 <= m <= 16 !"@,
            TestError::TemplateBlocks => "N != n/M"@,
            TestError::OverlappingTooShort => "n is too small, increase to at least 998976"@,
            TestError::LinearTooShort => "n must be at least 1,000,000"@,
            TestError::LinearBlockLength => "m must be between 500 and 5,000"@,
            TestError::LinearTooFewBlocks => "N ist smaller than 200, result is invalid"@,
        }
    }
}

} // verus!
