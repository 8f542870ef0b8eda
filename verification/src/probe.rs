//! One probe: its target, how a connection attempt can end, and what that
//! says about the target.

use crate::addr::IpAddress;
use vstd::prelude::*;

verus! {

/// The time that one probe may take, in milliseconds, from the start of its
/// connection attempt.
pub const PROBE_DEADLINE_MS: u64 = 200;

/// A host and a port on it: the unit of work of a scan.
#[derive(Clone, Copy, Debug, PartialEq, Eq, Structural, PartialOrd, Ord, Hash)]
pub struct ProbeTarget {
    pub host: IpAddress,
    pub port: u16,
}

impl ProbeTarget {
    /// The order of a report: by host, and on one host by port.
    pub open spec fn before(self, other: ProbeTarget) -> bool {
        self.host.before(other.host) || (self.host == other.host && self.port < other.port)
    }

    /// Tells whether `self` comes before `other` in the order of a report.
    pub fn is_before(&self, other: &ProbeTarget) -> (r: bool)
        ensures
            r == self.before(*other),
    {
        self.host.is_before(&other.host) || (self.host == other.host && self.port < other.port)
    }
}

/// Whether each target of `s` comes before the next in the order of a
/// report.
pub open spec fn ascending_targets(s: Seq<ProbeTarget>) -> bool {
    forall|i: int, j: int| 0 <= i < j < s.len() ==> s[i].before(s[j])
}

/// How an attempt to connect ended, as the caller that made it saw it.
#[derive(Clone, Copy, Debug, PartialEq, Eq, Structural)]
pub enum ConnectAttempt {
    /// The connection was made before the deadline.
    Established,
    /// The attempt failed before the deadline: refused, unreachable, or
    /// the host could not be resolved.
    Failed,
    /// The deadline passed before the attempt ended either way.
    Elapsed,
}

/// What a probe found out about its target.
#[derive(Clone, Copy, Debug, PartialEq, Eq, Structural)]
pub enum ProbeOutcome {
    /// The target accepted a connection.
    Open(ProbeTarget),
    /// The target is known not to accept connections.
    Closed,
    /// The target did not answer in time.
    TimedOut,
    /// The attempt failed before the deadline.
    ConnectionError,
}

/// What an attempt on `target` that ended as `attempt` says about it.
pub open spec fn outcome_of(target: ProbeTarget, attempt: ConnectAttempt) -> ProbeOutcome {
    match attempt {
        ConnectAttempt::Established => ProbeOutcome::Open(target),
        ConnectAttempt::Failed => ProbeOutcome::ConnectionError,
        ConnectAttempt::Elapsed => ProbeOutcome::TimedOut,
    }
}

/// Turns the end of a connection attempt into the outcome of the probe:
/// `Open` with the target where the connection was made, and an ordinary
/// value, never a failure, where it was not.
pub fn probe_outcome(target: ProbeTarget, attempt: ConnectAttempt) -> (o: ProbeOutcome)
    ensures
        o == outcome_of(target, attempt),
{
    match attempt {
        ConnectAttempt::Established => ProbeOutcome::Open(target),
        ConnectAttempt::Failed => ProbeOutcome::ConnectionError,
        ConnectAttempt::Elapsed => ProbeOutcome::TimedOut,
    }
}

} // verus!
