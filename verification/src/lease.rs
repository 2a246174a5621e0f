//! The retention lease's heartbeat, as an operator sees it.
use vstd::prelude::*;
use crate::entry::{copy_opt_text, opt_text};
use crate::local::MountId;
use crate::time::Timestamp;

verus! {

/// What an operator needs to decide whether to intervene.
#[derive(Clone, Copy, PartialEq, Eq, Structural, Debug)]
pub enum HealthState {
    /// Renewing normally.
    Healthy,
    /// Renewal is failing, or the lease is in its grace period.
    Warning,
    /// Grace has passed: uncached reads will fail, and the commit can be
    /// pruned.
    Critical,
}

/// How a lease is kept.
#[derive(Clone, Copy, PartialEq, Eq, Structural, Debug)]
pub struct LeasePolicy {
    /// Seconds between renewals where the server names none.
    pub heartbeat_interval_secs: u64,
    /// Seconds a lease can still be renewed after it expired.
    pub renewal_grace_secs: u64,
    /// Consecutive failures that raise the alert.
    pub alert_after_failures: u32,
}

impl LeasePolicy {
    /// A renewal every five minutes, fifteen minutes of grace, and an alert at
    /// the second failure.
    pub fn standard() -> (res: LeasePolicy)
        ensures
            res == (LeasePolicy {
                heartbeat_interval_secs: 300,
                renewal_grace_secs: 900,
                alert_after_failures: 2,
            }),
    {
        LeasePolicy {
            heartbeat_interval_secs: 300,
            renewal_grace_secs: 900,
            alert_after_failures: 2,
        }
    }
}

/// A lease's health at one time.
#[derive(Debug)]
pub struct LeaseHealth {
    pub state: HealthState,
    pub consecutive_failures: u32,
    pub lease_expiry: Timestamp,
    pub last_renewal: Option<Timestamp>,
    pub last_error: Option<String>,
    pub heartbeat_interval_secs: u64,
    pub grace_deadline: Timestamp,
}

impl LeaseHealth {
    pub fn is_healthy(&self) -> (res: bool)
        ensures
            res == (self.state == HealthState::Healthy),
    {
        self.state == HealthState::Healthy
    }
}

/// What a [`LeaseMonitor`] denotes.
#[verifier::ext_equal]
pub struct LeaseView {
    pub mount_id: Seq<char>,
    pub policy: LeasePolicy,
    pub expiry: Timestamp,
    pub interval_secs: u64,
    pub failures: u32,
    pub last_renewal: Option<Timestamp>,
    pub last_error: Option<Seq<char>>,
}

impl LeaseView {
    /// The end of the grace period.
    pub open spec fn grace_deadline(self) -> Timestamp {
        let secs = self.expiry.secs + self.policy.renewal_grace_secs;
        Timestamp {
            secs: if secs > i64::MAX {
                i64::MAX
            } else {
                secs as i64
            },
            nanos: self.expiry.nanos,
        }
    }

    /// How the lease stands at a time.
    pub open spec fn state_at(self, now: Timestamp) -> HealthState {
        if now.after(self.grace_deadline()) {
            HealthState::Critical
        } else if self.failures >= self.policy.alert_after_failures || now.after(self.expiry) {
            HealthState::Warning
        } else {
            HealthState::Healthy
        }
    }

    /// After a renewal.
    pub open spec fn renewed(self, expiry: Timestamp, now: Timestamp) -> LeaseView {
        LeaseView { expiry, failures: 0, last_error: None, last_renewal: Some(now), ..self }
    }

    /// After a renewal failed.
    pub open spec fn missed(self, message: Seq<char>) -> LeaseView {
        LeaseView { failures: (self.failures + 1) as u32, last_error: Some(message), ..self }
    }
}

/// The heartbeat state of one lease.
#[derive(Debug)]
pub struct LeaseMonitor {
    mount_id: MountId,
    policy: LeasePolicy,
    expiry: Timestamp,
    interval_secs: u64,
    failures: u32,
    last_renewal: Option<Timestamp>,
    last_error: Option<String>,
}

impl View for LeaseMonitor {
    type V = LeaseView;

    closed spec fn view(&self) -> LeaseView {
        LeaseView {
            mount_id: self.mount_id@,
            policy: self.policy,
            expiry: self.expiry,
            interval_secs: self.interval_secs,
            failures: self.failures,
            last_renewal: self.last_renewal,
            last_error: opt_text(self.last_error),
        }
    }
}

impl LeaseMonitor {
    /// A fresh lease. The heartbeat interval is the server's.
    pub fn new(
        mount_id: MountId,
        expiry: Timestamp,
        interval_secs: u64,
        policy: LeasePolicy,
    ) -> (res: LeaseMonitor)
        ensures
            res@ == (LeaseView {
                mount_id: mount_id@,
                policy,
                expiry,
                interval_secs,
                failures: 0,
                last_renewal: None,
                last_error: None,
            }),
    {
        LeaseMonitor {
            mount_id,
            policy,
            expiry,
            interval_secs,
            failures: 0,
            last_renewal: None,
            last_error: None,
        }
    }

    pub fn mount_id(&self) -> (res: &MountId)
        ensures
            res@ == self@.mount_id,
    {
        &self.mount_id
    }

    /// Seconds between heartbeats.
    pub fn interval(&self) -> (res: u64)
        ensures
            res == self@.interval_secs,
    {
        self.interval_secs
    }

    pub fn expiry(&self) -> (res: Timestamp)
        ensures
            res == self@.expiry,
    {
        self.expiry
    }

    /// Consecutive failures so far.
    pub fn failures(&self) -> (res: u32)
        ensures
            res == self@.failures,
    {
        self.failures
    }

    /// The lease was renewed, at `now`.
    pub fn record_success(&mut self, expiry: Timestamp, now: Timestamp)
        ensures
            final(self)@ == old(self)@.renewed(expiry, now),
    {
        self.expiry = expiry;
        self.failures = 0;
        self.last_error = None;
        self.last_renewal = Some(now);
    }

    /// A renewal failed; the answer is how many have in a row.
    pub fn record_failure(&mut self, message: String) -> (res: u32)
        requires
            old(self)@.failures < u32::MAX,
        ensures
            final(self)@ == old(self)@.missed(message@),
            res == old(self)@.failures + 1,
    {
        self.failures = self.failures + 1;
        self.last_error = Some(message);
        self.failures
    }

    /// The lease's health at a time.
    pub fn health_at(&self, now: Timestamp) -> (res: LeaseHealth)
        ensures
            res.state == self@.state_at(now),
            res.consecutive_failures == self@.failures,
            res.lease_expiry == self@.expiry,
            res.last_renewal == self@.last_renewal,
            opt_text(res.last_error) == self@.last_error,
            res.heartbeat_interval_secs == self@.interval_secs,
            res.grace_deadline == self@.grace_deadline(),
    {
        let deadline: i128 = self.expiry.secs as i128 + self.policy.renewal_grace_secs as i128;
        let secs: i64 = if deadline > i64::MAX as i128 {
            i64::MAX
        } else {
            deadline as i64
        };
        let grace_deadline = Timestamp::new(secs, self.expiry.nanos);
        let state = if now.is_after(grace_deadline) {
            HealthState::Critical
        } else if self.failures >= self.policy.alert_after_failures || now.is_after(self.expiry) {
            HealthState::Warning
        } else {
            HealthState::Healthy
        };
        LeaseHealth {
            state,
            consecutive_failures: self.failures,
            lease_expiry: self.expiry,
            last_renewal: self.last_renewal,
            last_error: copy_opt_text(&self.last_error),
            heartbeat_interval_secs: self.interval_secs,
            grace_deadline,
        }
    }
}

/// A renewal makes a lease healthy until it expires, whatever came before.
pub proof fn law_a_renewal_restores_health(
    s: LeaseView,
    expiry: Timestamp,
    renewed_at: Timestamp,
    now: Timestamp,
)
    requires
        s.policy.alert_after_failures > 0,
        !now.after(expiry),
    ensures
        s.renewed(expiry, renewed_at).state_at(now) == HealthState::Healthy,
{
}

/// Time only worsens a lease that nobody renews: once it is critical it stays
/// so, and it never becomes healthy again.
pub proof fn law_health_never_recovers_by_itself(s: LeaseView, now: Timestamp, later: Timestamp)
    requires
        later == now || later.after(now),
    ensures
        s.state_at(now) == HealthState::Critical ==> s.state_at(later) == HealthState::Critical,
        s.state_at(now) != HealthState::Healthy ==> s.state_at(later) != HealthState::Healthy,
{
}

} // verus!
