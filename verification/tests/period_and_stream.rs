use alapi::period::{period_nanos, samples_per_period, NANOS_PER_SECOND, SAMPLE_RATE};
use alapi::stream::{range_suits, select_stream, SampleKind, StreamRange};

#[test]
fn period_of_one_per_second_is_a_second() {
    assert_eq!(period_nanos(1), 1_000_000_000);
    assert_eq!(period_nanos(1), NANOS_PER_SECOND);
}

#[test]
fn period_divides_the_second_rounding_down() {
    assert_eq!(period_nanos(4), 250_000_000);
    assert_eq!(period_nanos(3), 333_333_333);
    assert_eq!(period_nanos(7), 142_857_142);
    assert_eq!(period_nanos(1_000_000_000), 1);
    assert_eq!(period_nanos(1_000_000_001), 0);
}

#[test]
fn period_of_factor_zero_is_the_longest() {
    assert_eq!(period_nanos(0), u64::MAX);
}

#[test]
fn samples_per_period_is_rate_times_seconds() {
    assert_eq!(SAMPLE_RATE, 48000);
    assert_eq!(samples_per_period(48000, 1_000_000_000), Some(48000));
    assert_eq!(samples_per_period(48000, 250_000_000), Some(12000));
    assert_eq!(samples_per_period(44100, 500_000_000), Some(22050));
    assert_eq!(samples_per_period(48000, 0), Some(0));
    assert_eq!(samples_per_period(0, 1_000_000_000), Some(0));
}

#[test]
fn samples_per_period_rounds_down() {
    assert_eq!(samples_per_period(48000, 333_333_333), Some(15999));
    assert_eq!(samples_per_period(48000, 20_833), Some(0));
    assert_eq!(samples_per_period(48000, 20_834), Some(1));
    assert_eq!(samples_per_period(3, 999_999_999), Some(2));
}

#[test]
fn samples_per_period_reports_what_does_not_fit() {
    let exact: u128 = (u32::MAX as u128) * (u64::MAX as u128) / 1_000_000_000;
    let expected = if exact <= usize::MAX as u128 { Some(exact as usize) } else { None };
    assert_eq!(samples_per_period(u32::MAX, u64::MAX), expected);
    let longest: u128 = 48000u128 * (u64::MAX as u128) / 1_000_000_000;
    let expected = if longest <= usize::MAX as u128 { Some(longest as usize) } else { None };
    assert_eq!(samples_per_period(48000, u64::MAX), expected);
}

fn range(channels: u16, min: u32, max: u32, kind: SampleKind) -> StreamRange {
    StreamRange { channels, min_sample_rate: min, max_sample_rate: max, kind }
}

#[test]
fn a_range_suits_only_with_single_precision_rate_and_channels() {
    assert!(range_suits(&range(2, 44100, 48000, SampleKind::Single), 48000, 2));
    assert!(range_suits(&range(8, 48000, 96000, SampleKind::Single), 48000, 2));
    assert!(!range_suits(&range(2, 44100, 48000, SampleKind::Int16), 48000, 2));
    assert!(!range_suits(&range(2, 44100, 48000, SampleKind::Uint16), 48000, 2));
    assert!(!range_suits(&range(2, 8000, 44100, SampleKind::Single), 48000, 2));
    assert!(!range_suits(&range(2, 96000, 192000, SampleKind::Single), 48000, 2));
    assert!(!range_suits(&range(1, 44100, 48000, SampleKind::Single), 48000, 2));
    assert!(range_suits(&range(0, 48000, 48000, SampleKind::Single), 48000, 0));
}

#[test]
fn select_stream_takes_the_first_that_suits() {
    let ranges = vec![
        range(2, 44100, 48000, SampleKind::Int16),
        range(1, 44100, 48000, SampleKind::Single),
        range(4, 44100, 96000, SampleKind::Single),
        range(8, 44100, 96000, SampleKind::Single),
    ];
    assert_eq!(select_stream(&ranges, 48000, 2), Some(2));
    assert_eq!(select_stream(&ranges, 48000, 1), Some(1));
    assert_eq!(select_stream(&ranges, 48000, 5), Some(3));
}

#[test]
fn select_stream_finds_nothing_where_nothing_suits() {
    let ranges = vec![
        range(2, 44100, 48000, SampleKind::Int16),
        range(2, 8000, 44100, SampleKind::Single),
    ];
    assert_eq!(select_stream(&ranges, 48000, 2), None);
    assert_eq!(select_stream(&Vec::new(), 48000, 0), None);
    assert_eq!(select_stream(&ranges, 48000, 70000), None);
}
