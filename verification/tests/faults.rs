//! Injected write failures.

use libtau::faults::FaultInjector;

#[test]
fn disarmed_never_fires() {
    let mut f = FaultInjector::new();
    for _ in 0..100 {
        assert!(f.check_wal_write().is_ok());
    }
}

#[test]
fn fires_on_nth_write_then_disarms() {
    let mut f = FaultInjector::new();
    f.arm_wal_write_failure(3);
    assert!(f.check_wal_write().is_ok());
    assert!(f.check_wal_write().is_ok());
    let err = f.check_wal_write().expect_err("third write must fail");
    assert!(err.contains("injected"));
    assert!(!f.is_armed());
    assert!(f.check_wal_write().is_ok());
}

#[test]
fn disarm_cancels() {
    let mut f = FaultInjector::new();
    f.arm_wal_write_failure(1);
    f.disarm();
    assert!(f.check_wal_write().is_ok());
}

#[test]
fn every_number_arms() {
    for nth in [0, 1, 2, i64::MAX as u64, i64::MAX as u64 + 1, u64::MAX] {
        let mut f = FaultInjector::new();
        f.arm_wal_write_failure(nth);
        assert!(f.is_armed(), "{nth}");
    }
    let mut f = FaultInjector::new();
    f.arm_wal_write_failure(0);
    assert!(f.check_wal_write().is_err());
    f.arm_wal_write_failure(u64::MAX);
    assert!(f.check_wal_write().is_ok());
    assert_eq!(f.countdown, i64::MAX - 1);
}
