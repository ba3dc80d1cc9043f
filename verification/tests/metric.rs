//! The level-dependent geometric error heuristic.

use tile3d::error_metric::geometric_error;

#[test]
fn equator_error_at_level_two() {
    // cos(0) is exactly one in the fixed-point evaluation, so the
    // circumference is the equator's and the error is its 2^6th part.
    let e = geometric_error(0, 2);
    assert_eq!(e.circumference_mm, 40_074_155_889);
    assert_eq!(e.level, 2);
    assert_eq!(e.millimeters(), 40_074_155_889 >> 6);
}

#[test]
fn error_halves_with_each_level() {
    let lat = 30_000_000; // 30 degrees
    let mut prev = geometric_error(lat, 2).millimeters();
    for level in 3..20 {
        let cur = geometric_error(lat, level).millimeters();
        assert_eq!(cur, prev / 2);
        assert!(cur < prev);
        prev = cur;
    }
}

#[test]
fn circumference_shrinks_with_latitude() {
    let eq = geometric_error(0, 2).circumference_mm;
    let mid = geometric_error(45_000_000, 2).circumference_mm;
    let high = geometric_error(85_000_000, 2).circumference_mm;
    assert!(eq > mid && mid > high);
    // cos(45 deg) ~ 0.7071: the circumference stays within a tenth of
    // a percent of the closed form
    let expect = 28_336_786_337_i64; // 0.70710678 * equator
    assert!((mid as i64 - expect).abs() < expect / 1000);
}

#[test]
fn error_stays_positive_at_the_poles() {
    let e = geometric_error(90_000_000, 2);
    assert!(e.circumference_mm >= 1);
    let e2 = geometric_error(-90_000_000, 10);
    assert!(e2.circumference_mm >= 1);
}

#[test]
fn latitude_sign_does_not_matter() {
    let n = geometric_error(52_300_000, 4).circumference_mm;
    let s = geometric_error(-52_300_000, 4).circumference_mm;
    assert_eq!(n, s);
}
