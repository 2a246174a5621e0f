use gfs::lease::{HealthState, LeaseMonitor, LeasePolicy};
use gfs::local::MountId;
use gfs::time::Timestamp;

fn monitor(expiry_secs: i64) -> LeaseMonitor {
    LeaseMonitor::new(
        MountId::new("m-lease".to_owned()),
        Timestamp::from_secs(expiry_secs),
        300,
        LeasePolicy::standard(),
    )
}

#[test]
fn a_fresh_lease_is_healthy() {
    let m = monitor(2_000);
    assert_eq!(
        m.health_at(Timestamp::from_secs(1_000)).state,
        HealthState::Healthy
    );
}

#[test]
fn two_consecutive_failures_warn_while_the_lease_is_still_valid() {
    let mut m = monitor(2_000);
    assert_eq!(m.record_failure("transient".to_owned()), 1);
    assert_eq!(
        m.health_at(Timestamp::from_secs(1_000)).state,
        HealthState::Healthy
    );
    assert_eq!(m.record_failure("transient".to_owned()), 2);
    let health = m.health_at(Timestamp::from_secs(1_000));
    assert_eq!(health.state, HealthState::Warning);
    assert_eq!(health.last_error.as_deref(), Some("transient"));
}

#[test]
fn a_success_clears_the_failure_count() {
    let mut m = monitor(2_000);
    m.record_failure("a".to_owned());
    m.record_failure("b".to_owned());
    m.record_success(Timestamp::from_secs(4_000), Timestamp::from_secs(900));
    let health = m.health_at(Timestamp::from_secs(1_000));
    assert_eq!(health.state, HealthState::Healthy);
    assert_eq!(health.consecutive_failures, 0);
    assert!(health.last_error.is_none());
    assert_eq!(health.lease_expiry, Timestamp::from_secs(4_000));
}

#[test]
fn expiry_warns_and_only_the_end_of_grace_is_critical() {
    let m = monitor(2_000);
    let grace = LeasePolicy::standard().renewal_grace_secs as i64;

    assert_eq!(
        m.health_at(Timestamp::from_secs(2_500)).state,
        HealthState::Warning
    );
    assert_eq!(
        m.health_at(Timestamp::from_secs(2_000 + grace + 1)).state,
        HealthState::Critical
    );
}

#[test]
fn the_heartbeat_interval_comes_from_the_server() {
    let m = LeaseMonitor::new(
        MountId::new("m-x".to_owned()),
        Timestamp::from_secs(1),
        42,
        LeasePolicy::standard(),
    );
    assert_eq!(m.interval(), 42);
    assert_eq!(
        m.health_at(Timestamp::from_secs(0)).heartbeat_interval_secs,
        42
    );
}

#[test]
fn a_lease_does_not_heal_by_waiting() {
    let m = monitor(2_000);
    let mut worst = HealthState::Healthy;
    for t in [0, 1_999, 2_000, 2_001, 10_000] {
        let state = m.health_at(Timestamp::from_secs(t)).state;
        assert!(!(worst == HealthState::Critical && state != HealthState::Critical));
        worst = state;
    }
    assert_eq!(worst, HealthState::Critical);
    assert!(m.health_at(Timestamp::from_secs(0)).is_healthy());
}
