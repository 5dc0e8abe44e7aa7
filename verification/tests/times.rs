use wiremocket::utils::{decimal_text, Times};

#[test]
fn exact_times() {
    let t: Times = 10.into();
    assert!(t.contains(10));
    assert!(!t.contains(9));
    assert!(!t.contains(11));
    assert_eq!(t.describe(), "== 10");
}

#[test]
fn range_times() {
    let t: Times = (10..15).into();
    assert!(t.contains(10));
    assert!(t.contains(14));
    assert!(!t.contains(15));
    assert!(!t.contains(9));
    assert_eq!(t.describe(), "10 <= x < 15");
}

#[test]
fn inclusive_range_times() {
    let t: Times = (10..=15).into();
    assert!(t.contains(15));
    assert!(!t.contains(16));
    assert!(t.contains(10));
    assert_eq!(t.describe(), "10 <= x <= 15");
}

#[test]
fn open_ranges() {
    let from: Times = (10..).into();
    assert!(from.contains(10));
    assert!(from.contains(u64::MAX));
    assert!(!from.contains(9));
    assert_eq!(from.describe(), "10 <= x");

    let to: Times = (..15).into();
    assert!(to.contains(0));
    assert!(to.contains(14));
    assert!(!to.contains(15));
    assert_eq!(to.describe(), "0 <= x < 15");

    let to_incl: Times = (..=15).into();
    assert!(to_incl.contains(15));
    assert!(!to_incl.contains(16));
    assert_eq!(to_incl.describe(), "0 <= x <= 15");

    let all: Times = (..).into();
    assert!(all.contains(0));
    assert!(all.contains(12345));
    assert_eq!(all.describe(), "0 <= x");
}

#[test]
fn default_times_admit_everything() {
    let t = Times::default();
    assert!(t.contains(0));
    assert!(t.contains(u64::MAX));
    assert_eq!(t.describe(), "0 <= x");
}

#[test]
fn exhausted_inclusive_range_excludes_its_end() {
    let mut r = 3..=3u64;
    assert_eq!(r.next(), Some(3));
    let t: Times = r.into();
    assert!(!t.contains(3));
}

#[test]
fn decimal_digits() {
    assert_eq!(decimal_text(0), "0");
    assert_eq!(decimal_text(7), "7");
    assert_eq!(decimal_text(10), "10");
    assert_eq!(decimal_text(1234567890), "1234567890");
    assert_eq!(decimal_text(u64::MAX), u64::MAX.to_string());
}

#[test]
fn cloned_times_keep_their_expectation() {
    let exact = Times::from(3u64);
    let copy = exact.clone();
    assert!(copy.contains(3));
    assert!(!copy.contains(2));
    let inclusive = Times::from(1u64..=2);
    let copy = inclusive.clone();
    assert!(copy.contains(2));
    assert!(!copy.contains(3));
    let mut spent = 1u64..=2;
    assert_eq!(spent.next(), Some(1));
    assert_eq!(spent.next(), Some(2));
    let exhausted = Times::from(spent);
    let copy = exhausted.clone();
    assert!(!exhausted.contains(2));
    assert!(!copy.contains(2));
    assert_eq!(copy.describe(), exhausted.describe());
}
