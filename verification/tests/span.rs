use covertree::{SpanFactor, DEFAULT_SPAN_DENOMINATOR, DEFAULT_SPAN_NUMERATOR};

#[test]
fn span_factor_must_exceed_one() {
    assert!(SpanFactor::new(13, 10).is_some());
    assert!(SpanFactor::new(2, 1).is_some());
    assert!(SpanFactor::new(65535, 65534).is_some());
    assert!(SpanFactor::new(10, 10).is_none());
    assert!(SpanFactor::new(9, 10).is_none());
    assert!(SpanFactor::new(5, 0).is_none());
    assert!(SpanFactor::new(0, 0).is_none());
}

#[test]
fn span_factor_keeps_its_parts() {
    let sf = SpanFactor::new(7, 4).unwrap();
    assert_eq!(sf.numerator(), 7);
    assert_eq!(sf.denominator(), 4);
}

#[test]
fn standard_span_factor_is_thirteen_tenths() {
    let sf = SpanFactor::standard();
    assert_eq!(sf.numerator(), 13);
    assert_eq!(sf.denominator(), 10);
    assert_eq!(DEFAULT_SPAN_NUMERATOR, 13);
    assert_eq!(DEFAULT_SPAN_DENOMINATOR, 10);
}

#[test]
fn cover_distance_of_level_zero_is_one() {
    let sf = SpanFactor::standard();
    assert!(sf.covers(0, 0));
    assert!(sf.covers(0, 1));
    assert!(!sf.covers(0, 2));
}

#[test]
fn cover_distance_is_the_exact_power() {
    let sf = SpanFactor::standard();
    // 1.3^1 = 1.3, 1.3^2 = 1.69, 1.3^5 = 3.71293, 1.3^10 = 13.78..., 1.3^20 = 190.04...
    assert!(sf.covers(1, 1));
    assert!(!sf.covers(1, 2));
    assert!(sf.covers(2, 1));
    assert!(!sf.covers(2, 2));
    assert!(sf.covers(5, 3));
    assert!(!sf.covers(5, 4));
    assert!(sf.covers(10, 13));
    assert!(!sf.covers(10, 14));
    assert!(sf.covers(20, 190));
    assert!(!sf.covers(20, 191));
    assert!(sf.covers(50, 497929));
    assert!(!sf.covers(50, 497930));
    assert!(sf.covers(100, 247933511096));
    assert!(!sf.covers(100, 247933511097));
}

#[test]
fn cover_distance_is_exact_near_the_limit_of_64_bits() {
    let sf = SpanFactor::standard();
    // 1.3^168 = 13882995648971427331.2..., 1.3^169 = 18047894343662855530.6...
    assert!(sf.covers(168, 13882995648971427331));
    assert!(!sf.covers(168, 13882995648971427332));
    assert!(sf.covers(169, 18047894343662855530));
    assert!(!sf.covers(169, 18047894343662855531));
    assert!(!sf.covers(169, u64::MAX));
    assert!(sf.covers(170, u64::MAX));
    assert!(sf.covers(640, u64::MAX));
}

#[test]
fn cover_distance_with_a_whole_span_factor() {
    let sf = SpanFactor::new(2, 1).unwrap();
    assert!(sf.covers(3, 8));
    assert!(!sf.covers(3, 9));
    assert!(sf.covers(63, 1 << 63));
    assert!(!sf.covers(63, (1 << 63) + 1));
    assert!(sf.covers(64, u64::MAX));
}

#[test]
fn cover_distance_with_three_halves() {
    let sf = SpanFactor::new(3, 2).unwrap();
    // 1.5^2 = 2.25, 1.5^3 = 3.375, 1.5^10 = 57.66..., 1.5^40 = 11057332.3...
    assert!(sf.covers(2, 2));
    assert!(!sf.covers(2, 3));
    assert!(sf.covers(3, 3));
    assert!(!sf.covers(3, 4));
    assert!(sf.covers(10, 57));
    assert!(!sf.covers(10, 58));
    assert!(sf.covers(40, 11057332));
    assert!(!sf.covers(40, 11057333));
}

#[test]
fn twice_the_cover_distance() {
    let sf = SpanFactor::standard();
    // 2 * 1.3 = 2.6, 2 * 1.3^6 = 9.65..., 2 * 1.3^10 = 27.57...
    assert!(sf.covers_twice(0, 2));
    assert!(!sf.covers_twice(0, 3));
    assert!(sf.covers_twice(1, 2));
    assert!(!sf.covers_twice(1, 3));
    assert!(!sf.covers_twice(5, 9));
    assert!(sf.covers_twice(6, 9));
    assert!(!sf.covers_twice(6, 10));
    assert!(sf.covers_twice(10, 27));
    assert!(!sf.covers_twice(10, 28));
    // 2 * 1.3^166 = 1.64...e19 < 2^64 < 2.13...e19 = 2 * 1.3^167
    assert!(!sf.covers_twice(166, u64::MAX));
    assert!(sf.covers_twice(167, u64::MAX));
}
