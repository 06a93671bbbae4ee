use binast_bench::decimal::{scale_up, sum_decimals, Decimal};
use binast_bench::report::{decimal_ratio_hundredths, kilobytes, ratio_hundredths, RatioError};
use binast_bench::sizes::{total_sizes, SizeTotals, SourceSizes};
use binast_bench::timings::{total_durations, DurationSample, PerformanceTotals};

fn dec(mantissa: u64, scale: usize) -> Decimal {
    Decimal { mantissa, scale }
}

#[test]
fn two_sources_size_totals() {
    let sources = [SourceSizes { raw: 1000, encoded: 400 }, SourceSizes { raw: 2000, encoded: 900 }];
    let t = total_sizes(&sources).unwrap();
    assert_eq!(t, SizeTotals { raw: 3000, encoded: 1300 });
    assert_eq!(ratio_hundredths(t.encoded, t.raw), Ok(43));
    assert_eq!(ratio_hundredths(400, 1000), Ok(40));
    assert_eq!(ratio_hundredths(900, 2000), Ok(45));
}

#[test]
fn size_totals_of_nothing_are_zero() {
    assert_eq!(total_sizes(&[]), Some(SizeTotals { raw: 0, encoded: 0 }));
}

#[test]
fn size_totals_overflow() {
    let sources = [SourceSizes { raw: u64::MAX, encoded: 1 }, SourceSizes { raw: 1, encoded: 1 }];
    assert_eq!(total_sizes(&sources), None);
    let mut t = SizeTotals::new();
    assert!(t.add(SourceSizes { raw: u64::MAX, encoded: 5 }));
    assert!(!t.add(SourceSizes { raw: 1, encoded: 0 }));
    assert_eq!(t, SizeTotals { raw: u64::MAX, encoded: 5 });
}

#[test]
fn ratio_rounds_half_up() {
    assert_eq!(ratio_hundredths(1, 8), Ok(13));
    assert_eq!(ratio_hundredths(1, 3), Ok(33));
    assert_eq!(ratio_hundredths(2, 3), Ok(67));
    assert_eq!(ratio_hundredths(5, 2), Ok(250));
}

#[test]
fn ratio_of_zero_denominator_is_undefined() {
    assert_eq!(ratio_hundredths(5, 0), Err(RatioError::DivisionUndefined));
    assert_eq!(decimal_ratio_hundredths(dec(5, 0), dec(0, 3)), Err(RatioError::DivisionUndefined));
}

#[test]
fn decimal_ratio_aligns_scales() {
    assert_eq!(decimal_ratio_hundredths(dec(110, 2), dec(325, 2)), Ok(34));
    assert_eq!(decimal_ratio_hundredths(dec(110, 2), dec(1250, 2)), Ok(9));
    assert_eq!(decimal_ratio_hundredths(dec(11, 1), dec(125, 1)), Ok(9));
    assert_eq!(decimal_ratio_hundredths(dec(3, 0), dec(15, 1)), Ok(200));
    assert_eq!(decimal_ratio_hundredths(dec(u64::MAX, 0), dec(1, 1)), Err(RatioError::OutOfRange));
}

#[test]
fn kilobytes_truncate() {
    assert_eq!(kilobytes(1999), 1);
    assert_eq!(kilobytes(999), 0);
    assert_eq!(kilobytes(3000), 3);
}

#[test]
fn decimal_addition_aligns_scales() {
    assert_eq!(dec(15, 1).checked_add(dec(225, 2)), Some(dec(375, 2)));
    assert_eq!(dec(u64::MAX, 0).checked_add(dec(1, 0)), None);
    assert_eq!(dec(2, 0).checked_add(dec(0, 20)), None);
    assert_eq!(scale_up(3, 2), Some(300));
    assert_eq!(scale_up(0, 100), Some(0));
    assert_eq!(scale_up(2, 19), None);
}

#[test]
fn decimal_sums() {
    assert_eq!(sum_decimals(&[]), Some(dec(0, 0)));
    assert_eq!(sum_decimals(&[dec(1, 0), dec(25, 1), dec(125, 3)]), Some(dec(3625, 3)));
    assert_eq!(sum_decimals(&[dec(u64::MAX, 0), dec(1, 0)]), None);
}

#[test]
fn one_sample_totals() {
    let s = DurationSample { full: dec(1250, 2), lazy: dec(325, 2), encoded: dec(110, 2) };
    let t = total_durations(&[s]).unwrap();
    assert_eq!(t, PerformanceTotals { full: dec(1250, 2), lazy: dec(325, 2), encoded: dec(110, 2) });
}

#[test]
fn repeated_samples_sum_exactly() {
    let a = DurationSample { full: dec(15, 1), lazy: dec(5, 1), encoded: dec(1, 1) };
    let b = DurationSample { full: dec(225, 2), lazy: dec(1, 0), encoded: dec(2, 1) };
    let samples = [a, b, a, b, a, b];
    let t = total_durations(&samples).unwrap();
    assert_eq!(t.full, dec(1125, 2));
    assert_eq!(t.lazy, dec(45, 1));
    assert_eq!(t.encoded, dec(9, 1));
}

#[test]
fn add_sample_overflow_leaves_totals() {
    let mut t = PerformanceTotals::new();
    let big = DurationSample { full: dec(u64::MAX, 0), lazy: dec(1, 0), encoded: dec(1, 0) };
    assert!(t.add_sample(big));
    assert!(!t.add_sample(big));
    assert_eq!(t, PerformanceTotals { full: dec(u64::MAX, 0), lazy: dec(1, 0), encoded: dec(1, 0) });
    assert_eq!(total_durations(&[big, big]), None);
}
