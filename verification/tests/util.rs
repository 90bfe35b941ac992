use std::time::Duration;
use utp::util::{
    as_ms, as_wrapping_micros, generate_sequential_identifiers, millis_from_parts,
    sequential_identifiers, wrapping_lt, wrapping_micros_from_parts,
};

#[test]
fn wrapping_lt_orders_neighbours() {
    assert!(wrapping_lt(1, 2, 0xFFFF));
    assert!(!wrapping_lt(2, 1, 0xFFFF));
    assert!(!wrapping_lt(7, 7, 0xFFFF));
}

#[test]
fn wrapping_lt_orders_across_the_wrap() {
    assert!(wrapping_lt(0xFFFF, 0, 0xFFFF));
    assert!(!wrapping_lt(0, 0xFFFF, 0xFFFF));
    assert!(wrapping_lt(0xFFF0, 0x0010, 0xFFFF));
    assert!(wrapping_lt(0xFFFF_FFFF, 3, 0xFFFF_FFFF));
}

#[test]
fn wrapping_lt_fails_both_ways_at_the_antipode() {
    assert!(!wrapping_lt(0, 0x8000, 0xFFFF));
    assert!(!wrapping_lt(0x8000, 0, 0xFFFF));
    assert!(wrapping_lt(0, 0x7FFF, 0xFFFF));
    assert!(wrapping_lt(0x8001, 0, 0xFFFF));
}

#[test]
fn wrapping_lt_is_antisymmetric_over_a_small_space() {
    for a in 0u32..64 {
        for b in 0u32..64 {
            let up = (b + 64 - a) % 64;
            if up != 0 && up != 32 {
                assert_ne!(wrapping_lt(a, b, 63), wrapping_lt(b, a, 63));
                assert_eq!(wrapping_lt(a, b, 63), up < 32);
            } else {
                assert!(!wrapping_lt(a, b, 63));
                assert!(!wrapping_lt(b, a, 63));
            }
        }
    }
}

#[test]
fn as_ms_counts_milliseconds() {
    assert_eq!(as_ms(Duration::new(0, 0)), 0);
    assert_eq!(as_ms(Duration::new(2, 500_000_000)), 2_500);
    assert_eq!(as_ms(Duration::from_millis(1_234)), 1_234);
    assert_eq!(as_ms(Duration::new(0, 999_999)), 0);
}

#[test]
fn as_ms_is_limited_to_thirty_seconds() {
    assert_eq!(as_ms(Duration::new(31, 0)), 30_000);
    assert_eq!(as_ms(Duration::new(3_600, 5)), 30_000);
    assert_eq!(as_ms(Duration::new(30, 0)), 30_000);
    assert_eq!(as_ms(Duration::new(30, 999_000_000)), 30_999);
    assert_eq!(millis_from_parts(30, 999_000_000), 30_999);
    assert_eq!(millis_from_parts(31, 0), 30_000);
}

#[test]
fn as_wrapping_micros_counts_microseconds() {
    assert_eq!(as_wrapping_micros(Duration::new(0, 0)), 0);
    assert_eq!(as_wrapping_micros(Duration::new(1, 500_000)), 1_000_500);
    assert_eq!(as_wrapping_micros(Duration::new(0, 999)), 0);
    assert_eq!(wrapping_micros_from_parts(2, 3_000), 2_000_003);
}

#[test]
fn as_wrapping_micros_wraps_around() {
    // 4295 s = 4_295_000_000 us = 2^32 + 32_704
    assert_eq!(as_wrapping_micros(Duration::new(4_295, 0)), 32_704);
    // 4294 s + 967_296 us = 2^32 exactly
    assert_eq!(as_wrapping_micros(Duration::new(4_294, 967_296_000)), 0);
    assert_eq!(as_wrapping_micros(Duration::new(4_294, 967_295_000)), u32::MAX);
    let secs = u64::MAX;
    let expected = ((secs as u128 * 1_000_000 + 999_999) % (1u128 << 32)) as u32;
    assert_eq!(wrapping_micros_from_parts(secs, 999_999_999), expected);
}

#[test]
fn sequential_identifiers_follow_each_other() {
    assert_eq!(sequential_identifiers(0), (0, 1));
    assert_eq!(sequential_identifiers(41), (41, 42));
    assert_eq!(sequential_identifiers(0xFFFE), (0xFFFE, 0xFFFF));
}

#[test]
fn sequential_identifiers_step_back_at_the_boundary() {
    assert_eq!(sequential_identifiers(0xFFFF), (0xFFFE, 0xFFFF));
}

#[test]
fn generated_identifiers_are_sequential() {
    for _ in 0..1_000 {
        let (recv, send) = generate_sequential_identifiers();
        assert_eq!(send as u32, recv as u32 + 1);
    }
}
