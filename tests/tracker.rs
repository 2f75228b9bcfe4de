use mavlink2rest::frequency::{FrequencyBlock, RATE_SCALE};
use mavlink2rest::text::{decimal_text, millionths_decimal_text};

#[test]
fn first_arrival_leaves_rate_at_zero() {
    let mut b = FrequencyBlock::new();
    b.update(1_000_000);
    assert_eq!(b.count, 1);
    assert_eq!(b.previous, Some(1_000_000));
    assert_eq!(b.rate, 0);
}

#[test]
fn second_arrival_gives_instant_rate() {
    let mut b = FrequencyBlock::new();
    b.update(1_000_000);
    b.update(1_500_000);
    assert_eq!(b.rate, RATE_SCALE / 500_000);
    assert_eq!(b.rate, 2_000_000);
    assert_eq!(b.count, 2);
}

#[test]
fn later_arrivals_blend_by_half() {
    let mut b = FrequencyBlock::new();
    b.update(0);
    b.update(1_000_000);
    assert_eq!(b.rate, 1_000_000);
    b.update(1_250_000);
    // instant rate 4 Hz, blended with 1 Hz
    assert_eq!(b.rate, 2_500_000);
}

#[test]
fn clock_going_back_keeps_rate() {
    let mut b = FrequencyBlock::new();
    b.update(0);
    b.update(1_000_000);
    b.update(1_000_000);
    assert_eq!(b.rate, 1_000_000);
    b.update(500_000);
    assert_eq!(b.rate, 1_000_000);
    assert_eq!(b.count, 4);
    assert_eq!(b.previous, Some(500_000));
}

#[test]
fn count_stops_at_the_largest_value() {
    let mut b = FrequencyBlock { count: u64::MAX, previous: None, rate: 0, rated: false };
    b.update(5);
    assert_eq!(b.count, u64::MAX);
}

#[test]
fn decimal_texts() {
    assert_eq!(decimal_text(0), "0");
    assert_eq!(decimal_text(1234), "1234");
    assert_eq!(decimal_text(u64::MAX), "18446744073709551615");
}

#[test]
fn millionths_texts() {
    assert_eq!(millionths_decimal_text(1_500_000), "1.500000");
    assert_eq!(millionths_decimal_text(5), "0.000005");
    assert_eq!(millionths_decimal_text(0), "0.000000");
    assert_eq!(millionths_decimal_text(2_000_000_000_000), "2000000.000000");
}

#[test]
fn zero_estimate_after_first_interval_still_blends() {
    let mut b = FrequencyBlock::new();
    b.update(0);
    b.update(2_000_000_000_000);
    assert_eq!(b.rate, 0);
    assert!(b.rated);
    b.update(2_000_001_000_000);
    // instant rate 1 Hz, blended with an estimate of 0 Hz
    assert_eq!(b.rate, 500_000);
}
