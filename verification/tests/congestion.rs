use utp::congestion::{
    Congestion, Tuning, INITIAL_TIMEOUT, MAX_PAYLOAD, MAX_TIMEOUT, MIN_TIMEOUT, MIN_WINDOW_SIZE,
    TARGET_DELAY,
};
use utp::MAX_WINDOW_SIZE;

fn fresh() -> Congestion {
    Congestion::new(Tuning::standard())
}

/// A controller that has left slow start, with a window of 2800 bytes and
/// a baseline delay of 1000.
fn proportional() -> Congestion {
    let mut c = fresh();
    c.congestion_control_update(1_000, true, 0);
    assert_eq!(c.window(), 2_800);
    c.congestion_control_update(1_000 + TARGET_DELAY + 1, false, 0);
    assert!(!c.in_slow_start());
    c
}

#[test]
fn a_new_controller_starts_with_one_packet() {
    let c = fresh();
    assert_eq!(c.window(), MIN_WINDOW_SIZE);
    assert_eq!(c.window(), MAX_PAYLOAD);
    assert_eq!(c.timeout(), INITIAL_TIMEOUT);
    assert!(c.in_slow_start());
    assert_eq!(c.tuning(), Tuning::standard());
    assert_eq!(Tuning::standard().gain, 1_400);
    assert_eq!(Tuning::standard().control_interval, 0);
    assert_eq!(Tuning::standard().fast_resend_threshold, 3);
}

#[test]
fn slow_start_doubles_on_each_fully_acked_window() {
    let mut c = fresh();
    c.congestion_control_update(5_000, true, 10);
    assert_eq!(c.window(), 2_800);
    c.congestion_control_update(5_000, false, 20);
    assert_eq!(c.window(), 2_800);
    c.congestion_control_update(5_000, true, 30);
    assert_eq!(c.window(), 5_600);
    assert!(c.in_slow_start());
}

#[test]
fn slow_start_stops_at_the_largest_window() {
    let mut c = fresh();
    for _ in 0..10 {
        c.congestion_control_update(5_000, true, 0);
    }
    assert_eq!(c.window(), MAX_WINDOW_SIZE);
    assert_eq!(c.window(), 65_536);
}

#[test]
fn delay_above_target_ends_slow_start_and_shrinks_the_window() {
    let mut c = fresh();
    c.congestion_control_update(1_000, true, 0);
    c.congestion_control_update(1_000, true, 0);
    assert_eq!(c.window(), 5_600);
    // queueing delay 150 ms: half the target above it, so half the gain
    c.congestion_control_update(151_000, true, 0);
    assert!(!c.in_slow_start());
    assert_eq!(c.window(), 5_600 - 700);
    // far above the target: the whole gain and no more
    c.congestion_control_update(4_000_000_000, true, 0);
    assert_eq!(c.window(), 5_600 - 700 - 1_400);
    // slow start does not come back
    c.congestion_control_update(1_000, true, 0);
    assert!(!c.in_slow_start());
}

#[test]
fn proportional_control_grows_with_the_distance_to_the_target() {
    let mut c = proportional();
    let start = c.window();
    // no queueing delay: the whole gain
    c.congestion_control_update(1_000, false, 0);
    assert_eq!(c.window(), start + 1_400);
    // a quarter of the target: three quarters of the gain
    c.congestion_control_update(26_000, false, 0);
    assert_eq!(c.window(), start + 1_400 + 1_050);
    // at the target: nothing
    c.congestion_control_update(101_000, false, 0);
    assert_eq!(c.window(), start + 1_400 + 1_050);
}

#[test]
fn the_window_never_falls_below_one_packet() {
    let mut c = proportional();
    for _ in 0..10 {
        c.congestion_control_update(900_000, false, 0);
        assert!(c.window() >= MIN_WINDOW_SIZE);
    }
    assert_eq!(c.window(), MIN_WINDOW_SIZE);
}

#[test]
fn the_window_never_grows_beyond_the_largest() {
    let mut c = proportional();
    for _ in 0..100 {
        c.congestion_control_update(1_000, false, 0);
        assert!(c.window() <= MAX_WINDOW_SIZE);
    }
    assert_eq!(c.window(), MAX_WINDOW_SIZE);
}

#[test]
fn the_window_follows_the_peers_window() {
    let mut c = fresh();
    for _ in 0..4 {
        c.congestion_control_update(1_000, true, 0);
    }
    assert_eq!(c.window(), 22_400);
    c.set_peer_window(10_000);
    assert_eq!(c.window(), 10_000);
    c.congestion_control_update(1_000, true, 0);
    assert_eq!(c.window(), 10_000);
    // below one packet the peer's window wins
    c.set_peer_window(100);
    assert_eq!(c.window(), 100);
    c.set_peer_window(0);
    assert_eq!(c.window(), 0);
    c.on_timeout();
    assert_eq!(c.window(), 0);
    // and once the peer opens up again there is one packet at least
    c.set_peer_window(1_000_000);
    assert_eq!(c.window(), MIN_WINDOW_SIZE);
}

#[test]
fn adjustments_wait_for_the_control_interval() {
    let mut c = proportional();
    c.on_rtt_sample(80_000);
    let start = c.window();
    c.congestion_control_update(1_000, false, 1_000_000);
    assert_eq!(c.window(), start + 1_400);
    // less than one round-trip time later: no change
    c.congestion_control_update(1_000, false, 1_079_999);
    assert_eq!(c.window(), start + 1_400);
    c.congestion_control_update(1_000, false, 1_080_000);
    assert_eq!(c.window(), start + 2_800);
}

#[test]
fn a_fixed_control_interval_can_be_tuned() {
    let tuning = Tuning { gain: 3_000, control_interval: 500, fast_resend_threshold: 1 };
    let mut c = Congestion::new(tuning);
    c.congestion_control_update(1_000, false, 1_000);
    c.congestion_control_update(1_000 + TARGET_DELAY + 1, false, 1_000);
    assert!(!c.in_slow_start());
    let start = c.window();
    c.congestion_control_update(1_000, false, 2_000);
    assert_eq!(c.window(), start + 3_000);
    c.congestion_control_update(1_000, false, 2_499);
    assert_eq!(c.window(), start + 3_000);
    c.congestion_control_update(1_000, false, 2_500);
    assert_eq!(c.window(), start + 6_000);
}

#[test]
fn the_baseline_is_the_smallest_of_the_latest_samples() {
    let mut c = proportional();
    let start = c.window();
    // a lower sample lowers the baseline: the next sample of 101_000 is
    // then 100_500 above it and shrinks the window
    c.congestion_control_update(500, false, 0);
    assert_eq!(c.window(), start + 1_400);
    c.congestion_control_update(101_000, false, 0);
    assert_eq!(c.window(), start + 1_400 - 7);
    // sixteen samples later the low one is forgotten
    let mut d = proportional();
    d.congestion_control_update(500, false, 0);
    for _ in 0..16 {
        d.congestion_control_update(90_000, false, 0);
    }
    let before = d.window();
    d.congestion_control_update(190_000, false, 0);
    assert_eq!(d.window(), before);
}

#[test]
fn the_first_round_trip_sets_the_estimate() {
    let mut c = fresh();
    c.on_rtt_sample(200_000);
    // 200 ms + 4 * 100 ms
    assert_eq!(c.timeout(), 600_000);
    c.on_rtt_sample(200_000);
    // rtt stays 200 ms, the variation falls to 75 ms
    assert_eq!(c.timeout(), 500_000);
    c.on_rtt_sample(1_000_000);
    // rtt 300 ms, variation 56.25 ms + 200 ms
    assert_eq!(c.timeout(), 300_000 + 4 * 256_250);
}

#[test]
fn the_timeout_stays_within_its_limits() {
    let mut c = fresh();
    c.on_rtt_sample(10);
    assert_eq!(c.timeout(), MIN_TIMEOUT);
    c.on_rtt_sample(u64::MAX);
    assert!(c.timeout() <= MAX_TIMEOUT);
    for _ in 0..100 {
        c.on_rtt_sample(u64::MAX);
    }
    assert_eq!(c.timeout(), MAX_TIMEOUT);
}

#[test]
fn a_timeout_collapses_the_window_and_doubles_the_timeout() {
    let mut c = fresh();
    for _ in 0..3 {
        c.congestion_control_update(1_000, true, 0);
    }
    assert_eq!(c.window(), 11_200);
    c.on_timeout();
    assert_eq!(c.window(), MIN_WINDOW_SIZE);
    assert_eq!(c.timeout(), 2_000_000);
    for _ in 0..10 {
        c.on_timeout();
    }
    assert_eq!(c.timeout(), MAX_TIMEOUT);
}

#[test]
fn a_gain_beyond_the_largest_window_is_limited() {
    let wild = Tuning { gain: usize::MAX, control_interval: 0, fast_resend_threshold: 3 };
    assert_eq!(wild.limit().gain, MAX_WINDOW_SIZE);
    assert_eq!(Tuning::standard().limit(), Tuning::standard());
    let mut c = Congestion::new(wild);
    assert_eq!(c.tuning().gain, MAX_WINDOW_SIZE);
    c.congestion_control_update(1_000, false, 0);
    c.congestion_control_update(1_000 + TARGET_DELAY + 1, false, 0);
    assert!(!c.in_slow_start());
    c.congestion_control_update(1_000, false, 0);
    assert_eq!(c.window(), MAX_WINDOW_SIZE);
}
