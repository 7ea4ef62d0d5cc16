use multimeter::histogram::{Fraction, Histogram};
use multimeter::reading::Reading;

fn reading(units: i64) -> Reading {
    Reading::from_units(units)
}

fn standard() -> Histogram {
    Histogram::new(reading(0), reading(1_000_000_000), 50)
}

#[test]
fn middle_value_lands_in_bin_twenty_five() {
    let mut h = standard();
    h.add_value(reading(500_000_000));
    assert_eq!(h.bins()[25], 1);
    assert_eq!(h.bins().iter().map(|&c| c as u64).sum::<u64>(), 1);
}

#[test]
fn top_of_range_lands_in_last_bin() {
    let mut h = standard();
    h.add_value(reading(1_000_000_000));
    assert_eq!(h.bins()[49], 1);
    let mut one_point = Histogram::new(reading(7), reading(7), 4);
    one_point.add_value(reading(7));
    assert_eq!(one_point.bins()[3], 1);
}

#[test]
fn bottom_of_range_lands_in_first_bin() {
    let mut h = standard();
    h.add_value(reading(0));
    assert_eq!(h.bins()[0], 1);
}

#[test]
fn values_outside_range_are_dropped() {
    let mut h = standard();
    h.add_value(reading(-1));
    h.add_value(reading(1_000_000_001));
    assert!(h.bins().iter().all(|&c| c == 0));
    let mut empty = Histogram::new(reading(0), reading(10), 0);
    empty.add_value(reading(5));
    assert_eq!(empty.bin_count(), 0);
}

#[test]
fn normalized_bins_scale_to_fullest() {
    let mut h = standard();
    let empty = h.normalized_bins();
    assert_eq!(empty.len(), 50);
    assert!(empty.iter().all(|f| f.numerator == 0 && f.denominator == 1));
    h.add_value(reading(500_000_000));
    h.add_value(reading(500_000_000));
    h.add_value(reading(100_000_000));
    let bins = h.normalized_bins();
    assert_eq!(bins[25], Fraction { numerator: 2, denominator: 2 });
    assert_eq!(bins[5], Fraction { numerator: 1, denominator: 2 });
    assert!(bins.iter().all(|f| f.numerator <= f.denominator));
    assert!(bins.iter().any(|f| f.numerator == f.denominator));
    assert_eq!(h.peak(), 2);
}

#[test]
fn reset_clears_every_bin() {
    let mut h = standard();
    h.add_value(reading(300_000_000));
    h.reset();
    assert!(h.bins().iter().all(|&c| c == 0));
    assert_eq!(h.bin_count(), 50);
    assert_eq!(h.min_value(), reading(0));
    assert_eq!(h.max_value(), reading(1_000_000_000));
}
