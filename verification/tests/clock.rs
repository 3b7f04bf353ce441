//! Clocks: the system's, and fixed ones.

use libtau::clock::{seconds_of, Clock};

#[test]
fn fixed_overrides_system() {
    let c = Clock::fixed(1_234_567_000);
    assert_eq!(c.now_ms(), 1_234_567_000);
    assert_eq!(c.now_secs(), 1_234_567);
}

#[test]
fn clear_restores_system_time() {
    let mut c = Clock::fixed(1);
    c.clear_fixed();
    assert!(c.now_ms() > 1_000_000_000_000, "expected system time");
}

#[test]
fn clocks_are_independent() {
    let mut a = Clock::fixed(1_000);
    let b = Clock::fixed(2_000);
    a.set_fixed_now_ms(5_000);
    assert_eq!(a.now_ms(), 5_000);
    assert_eq!(b.now_ms(), 2_000);
}

#[test]
fn seconds_round_toward_zero() {
    assert_eq!(seconds_of(1_999), 1);
    assert_eq!(seconds_of(-1_999), -1);
    assert_eq!(seconds_of(0), 0);
}

#[test]
fn fixed_seconds_are_milliseconds_times_a_thousand() {
    let mut c = Clock::system();
    c.set_fixed_now_secs(7);
    assert_eq!(c.now_ms(), 7_000);
    c.set_fixed_now_secs(i64::MAX);
    assert_eq!(c.now_ms(), i64::MAX);
}
