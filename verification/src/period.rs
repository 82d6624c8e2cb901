//! Period arithmetic: how long one measurement period lasts and how many
//! samples of one channel it holds.

use vstd::prelude::*;

verus! {

/// The sample rate, in samples per second, that the input stream is opened at.
pub const SAMPLE_RATE: u32 = 48000;

/// Nanoseconds in one second.
pub const NANOS_PER_SECOND: u64 = 1_000_000_000;

/// The length of one period in nanoseconds for a sampling factor: one second
/// divided by the factor, rounded down. A factor of zero stands for a period
/// without end, the largest duration that can be written.
pub open spec fn spec_period_nanos(sampling_factor: int) -> int {
    if sampling_factor == 0 {
        u64::MAX as int
    } else {
        1_000_000_000int / sampling_factor
    }
}

/// The number of samples of one channel in a period: the sample rate times
/// the period's length in seconds, rounded down.
pub open spec fn spec_samples_per_period(sample_rate: int, period_nanos: int) -> int {
    (sample_rate * period_nanos) / 1_000_000_000int
}

/// Computes the period for a sampling factor.
pub fn period_nanos(sampling_factor: usize) -> (nanos: u64)
    ensures
        nanos == spec_period_nanos(sampling_factor as int),
{
    if sampling_factor == 0 {
        u64::MAX
    } else {
        let factor: u64 = sampling_factor as u64;
        NANOS_PER_SECOND / factor
    }
}

/// Computes the number of samples per period, or `None` when that number
/// does not fit the machine's word.
pub fn samples_per_period(sample_rate: u32, period_nanos: u64) -> (samples: Option<usize>)
    ensures
        samples == if spec_samples_per_period(sample_rate as int, period_nanos as int)
            <= usize::MAX {
            Some(spec_samples_per_period(sample_rate as int, period_nanos as int) as usize)
        } else {
            None
        },
{
    let rate: u128 = sample_rate as u128;
    let nanos: u128 = period_nanos as u128;
    assert(rate * nanos <= 0xFFFF_FFFF * 0xFFFF_FFFF_FFFF_FFFF) by (nonlinear_arith)
        requires
            0 <= rate <= 0xFFFF_FFFF,
            0 <= nanos <= 0xFFFF_FFFF_FFFF_FFFF,
    ;
    let product: u128 = rate * nanos;
    let whole: u128 = product / (NANOS_PER_SECOND as u128);
    if whole <= usize::MAX as u128 {
        Some(whole as usize)
    } else {
        None
    }
}

} // verus!
