//! Statistical tests for binary sequences after NIST SP 800-22.
//!
//! The library holds the bit sequence (`BitsData`) and, for each test, the
//! integer part of the statistic: counts, walks, pattern tables and the
//! parameter checks that decide when a test refuses its input.
use vstd::prelude::*;

pub mod bits;
pub mod counting;
pub mod error;
pub mod freq;
pub mod runs;
pub mod walk;
pub mod cusum;
pub mod patterns;
pub mod approximate;
pub mod serial;
pub mod fft;
pub mod lfsr;
pub mod linear;
pub mod random_excursions_variant;
pub mod random_excursions;
pub mod universal;
pub mod non_overlapping_template;
pub mod overlapping_template;

pub use bits::BitsData;
pub use error::TestError;

verus! {

} // verus!
