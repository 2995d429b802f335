//! The two aggregation primitives on concrete collections.

use value_iteration::set_max;
use value_iteration::set_sum;
use value_iteration::AggError;
use value_iteration::Frac;

#[test]
fn max_of_empty_set_signals_empty() {
    let empty: Vec<Frac> = Vec::new();
    assert!(set_max(&empty).is_none());
}

#[test]
fn max_keeps_first_seen_maximum() {
    let values = vec![Frac::new(5, 1), Frac::new(3, 1), Frac::new(5, 1)];
    let best = set_max(&values).unwrap();
    assert!(best.equals(&Frac::new(5, 1)));
}

#[test]
fn max_of_singleton_is_the_element() {
    let values = vec![Frac::new(-7, 2)];
    let best = set_max(&values).unwrap();
    assert!(best.equals(&Frac::new(-7, 2)));
}

#[test]
fn sum_adds_every_element() {
    let values = vec![Frac::new(2, 1), Frac::new(3, 1)];
    let total = set_sum(&values).unwrap();
    assert!(total.equals(&Frac::new(5, 1)));
}

#[test]
fn sum_of_empty_set_signals_empty() {
    let empty: Vec<Frac> = Vec::new();
    assert_eq!(set_sum(&empty).unwrap_err(), AggError::Empty);
}

#[test]
fn sum_reports_overflow() {
    let values = vec![Frac::new(i64::MAX, 1), Frac::new(i64::MAX, 1)];
    assert_eq!(set_sum(&values).unwrap_err(), AggError::Overflow);
}

#[test]
fn sum_of_reduced_fractions_is_exact() {
    let values = vec![Frac::new(1, 2), Frac::new(1, 3), Frac::new(1, 6)];
    let total = set_sum(&values).unwrap();
    assert!(total.equals(&Frac::new(1, 1)));
}

#[test]
fn fractions_compare_by_value() {
    assert!(Frac::new(1, 2).equals(&Frac::new(2, 4)));
    assert!(Frac::new(3, 4).gt(&Frac::new(1, 2)));
    assert!(!Frac::new(1, 2).gt(&Frac::new(1, 2)));
    assert!(Frac::zero().equals(&Frac::new(0, 5)));
}
