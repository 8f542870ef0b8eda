//! The scan: which probe to launch next under a cap on probes in flight,
//! and how the outcomes are gathered into a sorted report.

use crate::addr::IpAddress;
use crate::ordered::lemma_ascending_unique;
use crate::probe::{ascending_targets, outcome_of, ConnectAttempt, ProbeOutcome, ProbeTarget};
use vstd::arithmetic::div_mod::{
    lemma_fundamental_div_mod_converse_div, lemma_fundamental_div_mod_converse_mod,
};
use vstd::prelude::*;

verus! {

/// The number of probes that a scan keeps in flight at once, where the
/// caller has no number of its own.
pub const DEFAULT_CAP: usize = 50;

/// Every host paired with every port, host by host: all ports of the first
/// host, then all ports of the second, and so on.
pub open spec fn product(hosts: Seq<IpAddress>, ports: Seq<u16>) -> Seq<ProbeTarget> {
    Seq::new(
        hosts.len() * ports.len(),
        |k: int|
            ProbeTarget {
                host: hosts[k / (ports.len() as int)],
                port: ports[k % (ports.len() as int)],
            },
    )
}

/// The open targets after one more outcome: an `Open` adds its target, any
/// other outcome adds nothing.
pub open spec fn with_outcome(open: Set<ProbeTarget>, outcome: ProbeOutcome) -> Set<ProbeTarget> {
    match outcome {
        ProbeOutcome::Open(t) => open.insert(t),
        _ => open,
    }
}

/// Target number `h * n + p` of a product over `n` ports is port `p` of
/// host `h`, and lies within the product.
proof fn lemma_cursor(h: int, p: int, m: int, n: int)
    requires
        0 <= h < m,
        0 <= p < n,
    ensures
        0 <= h * n + p < m * n,
        (h * n + p) / n == h,
        (h * n + p) % n == p,
        (h + 1) * n == h * n + n,
{
    lemma_fundamental_div_mod_converse_div(h * n + p, n, h, p);
    lemma_fundamental_div_mod_converse_mod(h * n + p, n, h, p);
    assert(0 <= h * n + p < m * n && (h + 1) * n == h * n + n) by (nonlinear_arith)
        requires
            0 <= h < m,
            0 <= p < n,
    {
    }
}

/// Puts `t` in its place in the ascending `report`, unless it is there
/// already.
pub fn insert_target(report: &mut Vec<ProbeTarget>, t: ProbeTarget)
    requires
        ascending_targets(old(report)@),
    ensures
        ascending_targets(final(report)@),
        final(report)@.to_set() == old(report)@.to_set().insert(t),
{
    let ghost before = report@;
    let mut i: usize = report.len();
    while i > 0 && t.is_before(&report[i - 1])
        invariant
            i <= report.len(),
            report@ == before,
            forall|k: int| i <= k < report.len() ==> t.before(#[trigger] report@[k]),
        decreases i,
    {
        i = i - 1;
    }
    if i > 0 && report[i - 1] == t {
        assert(before.contains(t));
        assert(before.to_set().insert(t) =~= before.to_set());
        return ;
    }
    report.insert(i, t);
    proof {
        before.insert_ensures(i as int, t);
        let after = report@;
        assert forall|x: int, y: int| 0 <= x < y < after.len() implies after[x].before(
            after[y],
        ) by {
            if x < i && y > i {
                assert(after[y] == before[y - 1]);
            } else if x < i && y == i {
                assert(before[x].before(before[i - 1]) || x == i - 1);
            } else if x == i {
                assert(after[y] == before[y - 1]);
            } else if x > i {
                assert(after[x] == before[x - 1]);
                assert(after[y] == before[y - 1]);
            }
        }
        assert forall|x: ProbeTarget| after.to_set().contains(x) <==> before.to_set().insert(
            t,
        ).contains(x) by {
            if after.contains(x) {
                let k = choose|k: int| 0 <= k < after.len() && after[k] == x;
                if k < i {
                    assert(before[k] == x);
                } else if k > i {
                    assert(before[k - 1] == x);
                }
            }
            if before.contains(x) {
                let k = choose|k: int| 0 <= k < before.len() && before[k] == x;
                if k < i {
                    assert(after[k] == x);
                } else {
                    assert(after[k + 1] == x);
                }
            }
            if x == t {
                assert(after[i as int] == x);
            }
        }
        assert(after.to_set() =~= before.to_set().insert(t));
    }
}

/// A scan in progress: the targets still to launch, the number of probes
/// in flight, and the open targets reported so far.
///
/// The caller launches probes with `launch` until it gives none, waits for
/// one probe to end, hands its outcome to `complete`, and goes on so until
/// `is_done`.
pub struct Scan {
    hosts: Vec<IpAddress>,
    ports: Vec<u16>,
    cap: usize,
    host_idx: usize,
    port_idx: usize,
    in_flight: usize,
    open: Vec<ProbeTarget>,
}

impl Scan {
    /// The scan is consistent: no more probes are in flight than the cap
    /// allows, the next target is one of the product or its end, and the
    /// report is ascending.
    pub closed spec fn wf(&self) -> bool {
        &&& self.cap >= 1
        &&& self.in_flight <= self.cap
        &&& self.in_flight <= self.launched()
        &&& self.host_idx <= self.hosts.len()
        &&& self.host_idx < self.hosts.len() ==> self.port_idx < self.ports.len()
        &&& self.host_idx == self.hosts.len() ==> self.port_idx == 0
        &&& ascending_targets(self.open@)
    }

    /// The targets of the scan, in the order in which they are launched.
    pub closed spec fn targets(&self) -> Seq<ProbeTarget> {
        product(self.hosts@, self.ports@)
    }

    /// The most probes that may be in flight at once.
    pub closed spec fn cap(&self) -> nat {
        self.cap as nat
    }

    /// How many targets have been launched: the first so many of `targets`.
    pub closed spec fn launched(&self) -> nat {
        (self.host_idx * self.ports.len() + self.port_idx) as nat
    }

    /// How many probes were launched and have not completed.
    pub closed spec fn in_flight(&self) -> nat {
        self.in_flight as nat
    }

    /// The open targets reported so far, in the order of a report.
    pub closed spec fn report(&self) -> Seq<ProbeTarget> {
        self.open@
    }

    /// Whether a probe can be launched now: the cap leaves room and a
    /// target is left.
    pub open spec fn can_launch(&self) -> bool {
        self.in_flight() < self.cap() && self.launched() < self.targets().len()
    }

    /// Whether every target was launched and every probe has completed.
    pub open spec fn done(&self) -> bool {
        self.launched() == self.targets().len() && self.in_flight() == 0
    }

    /// In a consistent scan the probes in flight stay within the cap and
    /// within what was launched, what was launched within the targets, and
    /// the report is ascending.
    pub proof fn lemma_bounds(&self)
        requires
            self.wf(),
        ensures
            1 <= self.cap(),
            self.in_flight() <= self.cap(),
            self.in_flight() <= self.launched() <= self.targets().len(),
            ascending_targets(self.report()),
    {
        let m = self.hosts.len() as int;
        let n = self.ports.len() as int;
        if self.host_idx < self.hosts.len() {
            lemma_cursor(self.host_idx as int, self.port_idx as int, m, n);
        }
    }

    /// A scan of every port of `ports` on every host of `hosts`, with at
    /// most `cap` probes in flight at once. Nothing is launched yet.
    pub fn new(hosts: Vec<IpAddress>, ports: Vec<u16>, cap: usize) -> (s: Scan)
        requires
            cap >= 1,
        ensures
            s.wf(),
            s.targets() == product(hosts@, ports@),
            s.cap() == cap,
            s.launched() == 0,
            s.in_flight() == 0,
            s.report() == Seq::<ProbeTarget>::empty(),
    {
        let host_idx = if ports.len() == 0 {
            hosts.len()
        } else {
            0
        };
        assert(host_idx * ports.len() == 0) by (nonlinear_arith)
            requires
                host_idx == 0 || ports.len() == 0,
        {
        }
        Scan { hosts, ports, cap, host_idx, port_idx: 0, in_flight: 0, open: Vec::new() }
    }

    /// Hands out the next target to probe, and counts it as in flight;
    /// `None` where the cap is reached or no target is left.
    pub fn launch(&mut self) -> (t: Option<ProbeTarget>)
        requires
            old(self).wf(),
        ensures
            final(self).wf(),
            final(self).targets() == old(self).targets(),
            final(self).cap() == old(self).cap(),
            final(self).report() == old(self).report(),
            old(self).can_launch() ==> t == Some(old(self).targets()[old(self).launched() as int])
                && final(self).launched() == old(self).launched() + 1 && final(self).in_flight()
                == old(self).in_flight() + 1,
            !old(self).can_launch() ==> t is None && final(self).launched() == old(self).launched() && final(self).in_flight() == old(self).in_flight(),
    {
        let ghost m = self.hosts.len() as int;
        let ghost n = self.ports.len() as int;
        if self.in_flight >= self.cap || self.host_idx >= self.hosts.len() {
            return None;
        }
        proof {
            lemma_cursor(self.host_idx as int, self.port_idx as int, m, n);
        }
        let t = ProbeTarget { host: self.hosts[self.host_idx], port: self.ports[self.port_idx] };
        self.port_idx = self.port_idx + 1;
        if self.port_idx == self.ports.len() {
            self.port_idx = 0;
            self.host_idx = self.host_idx + 1;
        }
        self.in_flight = self.in_flight + 1;
        Some(t)
    }

    /// Takes the outcome of one probe that was in flight: an `Open` target
    /// enters the report, any other outcome is dropped. Gives `false`, and
    /// changes nothing, where no probe is in flight.
    pub fn complete(&mut self, outcome: ProbeOutcome) -> (accepted: bool)
        requires
            old(self).wf(),
        ensures
            final(self).wf(),
            final(self).targets() == old(self).targets(),
            final(self).cap() == old(self).cap(),
            final(self).launched() == old(self).launched(),
            accepted == (old(self).in_flight() > 0),
            accepted ==> final(self).in_flight() == old(self).in_flight() - 1 && final(self).report().to_set() == with_outcome(old(self).report().to_set(), outcome),
            !accepted ==> final(self).in_flight() == old(self).in_flight(),
            !accepted || !(outcome is Open) ==> final(self).report() == old(self).report(),
            ascending_targets(final(self).report()),
    {
        if self.in_flight == 0 {
            return false;
        }
        self.in_flight = self.in_flight - 1;
        match outcome {
            ProbeOutcome::Open(t) => {
                insert_target(&mut self.open, t);
            },
            _ => {},
        }
        true
    }

    /// Tells whether the scan is over: every target was launched and every
    /// probe has completed.
    pub fn is_done(&self) -> (b: bool)
        requires
            self.wf(),
        ensures
            b == self.done(),
    {
        proof {
            if self.host_idx < self.hosts.len() {
                lemma_cursor(
                    self.host_idx as int,
                    self.port_idx as int,
                    self.hosts.len() as int,
                    self.ports.len() as int,
                );
            }
        }
        self.host_idx >= self.hosts.len() && self.in_flight == 0
    }

    /// The report of a scan that is over: its open targets, sorted by host
    /// and then by port, each once. `None` while the scan is not over.
    pub fn into_report(self) -> (r: Option<Vec<ProbeTarget>>)
        requires
            self.wf(),
        ensures
            r is Some <==> self.done(),
            r matches Some(v) ==> v@ == self.report() && ascending_targets(v@),
    {
        if self.is_done() {
            Some(self.open)
        } else {
            None
        }
    }
}

/// Only a connection that was made puts a target into the report: a probe
/// that timed out or failed leaves the open targets as they were.
pub proof fn lemma_only_established_reports(
    open: Set<ProbeTarget>,
    target: ProbeTarget,
    attempt: ConnectAttempt,
)
    ensures
        with_outcome(open, outcome_of(target, attempt)) == if attempt is Established {
            open.insert(target)
        } else {
            open
        },
{
}

/// Whether probing one of the first `n` targets may have found `x` open.
pub open spec fn reported_open<F: Fn(ProbeTarget) -> ProbeOutcome>(
    probe: F,
    targets: Seq<ProbeTarget>,
    n: int,
    x: ProbeTarget,
) -> bool {
    exists|k: int| 0 <= k < n && #[trigger] probe.ensures((targets[k],), ProbeOutcome::Open(x))
}

/// Whether `t` was probed and its outcome taken into `report`: some
/// outcome that the probe may give for `t` is either not `Open`, or names a
/// target of the report.
pub open spec fn accounted<F: Fn(ProbeTarget) -> ProbeOutcome>(
    probe: F,
    t: ProbeTarget,
    report: Seq<ProbeTarget>,
) -> bool {
    exists|o: ProbeOutcome| #[trigger]
        probe.ensures((t,), o) && (o matches ProbeOutcome::Open(x) ==> report.contains(x))
}

/// Whether `report` is what probing the first `n` targets gives: it is
/// ascending, holds only targets that a probe found open, and none of the
/// `n` probes was dropped.
pub open spec fn covers<F: Fn(ProbeTarget) -> ProbeOutcome>(
    probe: F,
    targets: Seq<ProbeTarget>,
    n: int,
    report: Seq<ProbeTarget>,
) -> bool {
    &&& ascending_targets(report)
    &&& forall|x: ProbeTarget| #[trigger]
        report.contains(x) ==> reported_open(probe, targets, n, x)
    &&& forall|k: int| 0 <= k < n ==> accounted(probe, #[trigger] targets[k], report)
}

/// Whether `report` is the report of a scan of `targets` with `probe`.
pub open spec fn is_report_of<F: Fn(ProbeTarget) -> ProbeOutcome>(
    probe: F,
    targets: Seq<ProbeTarget>,
    report: Seq<ProbeTarget>,
) -> bool {
    covers(probe, targets, targets.len() as int, report)
}

/// Scans every port of `ports` on every host of `hosts`: probes each
/// target once with `probe`, never more than `cap` targets in one wave, and
/// reports the targets found open, sorted by host and then by port.
///
/// What the report holds does not depend on `cap`.
pub fn scan<F: Fn(ProbeTarget) -> ProbeOutcome>(
    hosts: Vec<IpAddress>,
    ports: Vec<u16>,
    cap: usize,
    probe: F,
) -> (report: Vec<ProbeTarget>)
    requires
        cap >= 1,
        forall|t: ProbeTarget| probe.requires((t,)),
    ensures
        is_report_of(probe, product(hosts@, ports@), report@),
{
    let ghost targets = product(hosts@, ports@);
    let mut s = Scan::new(hosts, ports, cap);
    loop
        invariant_except_break
            s.wf(),
            s.targets() == targets,
            s.cap() == cap,
            s.in_flight() == 0,
            forall|t: ProbeTarget| probe.requires((t,)),
            covers(probe, targets, s.launched() as int, s.report()),
        ensures
            s.wf(),
            s.done(),
            s.targets() == targets,
            covers(probe, targets, targets.len() as int, s.report()),
        decreases targets.len() - s.launched(),
    {
        let ghost start = s.launched() as int;
        let ghost gathered = s.report();
        let mut wave: Vec<ProbeTarget> = Vec::new();
        proof {
            s.lemma_bounds();
        }
        loop
            invariant_except_break
                s.wf(),
                s.targets() == targets,
                s.cap() == cap,
                s.report() == gathered,
                start <= s.launched() <= targets.len(),
                wave@.len() == s.launched() - start,
                s.in_flight() == wave@.len(),
                forall|k: int| 0 <= k < wave@.len() ==> wave@[k] == targets[start + k],
            ensures
                s.wf(),
                s.targets() == targets,
                s.cap() == cap,
                s.report() == gathered,
                start <= s.launched() <= targets.len(),
                wave@.len() == s.launched() - start,
                s.in_flight() == wave@.len(),
                forall|k: int| 0 <= k < wave@.len() ==> wave@[k] == targets[start + k],
                !s.can_launch(),
            decreases targets.len() - s.launched(),
        {
            match s.launch() {
                Some(t) => {
                    wave.push(t);
                },
                None => {
                    break ;
                },
            }
        }
        if wave.len() == 0 {
            break ;
        }
        let mut i: usize = 0;
        while i < wave.len()
            invariant
                i <= wave.len(),
                s.wf(),
                s.targets() == targets,
                s.cap() == cap,
                s.launched() == start + wave@.len(),
                s.launched() <= targets.len(),
                s.in_flight() == wave@.len() - i,
                forall|k: int| 0 <= k < wave@.len() ==> wave@[k] == targets[start + k],
                forall|t: ProbeTarget| probe.requires((t,)),
                covers(probe, targets, start + i, s.report()),
            decreases wave.len() - i,
        {
            let ghost before = s.report();
            let outcome = probe(wave[i]);
            s.complete(outcome);
            proof {
                let after = s.report();
                let n = start + i;
                assert(wave@[i as int] == targets[n]);
                assert forall|x: ProbeTarget| #[trigger] after.contains(x) implies reported_open(
                    probe,
                    targets,
                    n + 1,
                    x,
                ) by {
                    assert(after.to_set().contains(x));
                    if before.to_set().contains(x) {
                        assert(before.contains(x));
                        let k = choose|k: int|
                            0 <= k < n && #[trigger] probe.ensures(
                                (targets[k],),
                                ProbeOutcome::Open(x),
                            );
                        assert(probe.ensures((targets[k],), ProbeOutcome::Open(x)));
                    } else {
                        assert(outcome == ProbeOutcome::Open(x));
                        assert(probe.ensures((targets[n],), ProbeOutcome::Open(x)));
                    }
                }
                assert forall|k: int| 0 <= k < n + 1 implies accounted(
                    probe,
                    #[trigger] targets[k],
                    after,
                ) by {
                    if k < n {
                        assert(accounted(probe, targets[k], before));
                        let o = choose|o: ProbeOutcome| #[trigger]
                            probe.ensures((targets[k],), o) && (o matches ProbeOutcome::Open(x)
                                ==> before.contains(x));
                        if let ProbeOutcome::Open(x) = o {
                            assert(before.to_set().contains(x));
                            assert(after.to_set().contains(x));
                        }
                        assert(probe.ensures((targets[k],), o));
                    } else {
                        if let ProbeOutcome::Open(x) = outcome {
                            assert(after.to_set().contains(x));
                        }
                        assert(probe.ensures((targets[k],), outcome));
                    }
                }
            }
            i = i + 1;
        }
    }
    s.into_report().unwrap()
}

/// The order of a report lets no two targets precede each other, so an
/// ascending report is fixed by the targets it holds.
pub proof fn lemma_report_unique(a: Seq<ProbeTarget>, b: Seq<ProbeTarget>)
    requires
        ascending_targets(a),
        ascending_targets(b),
        a.to_set() == b.to_set(),
    ensures
        a == b,
{
    assert forall|x: ProbeTarget| a.contains(x) <==> b.contains(x) by {
        assert(a.to_set().contains(x) == a.contains(x));
        assert(b.to_set().contains(x) == b.contains(x));
    }
    lemma_ascending_unique(a, b, |x: ProbeTarget, y: ProbeTarget| x.before(y));
}

/// Against a network that answers each target in one way only, a scan has
/// one possible report: whatever the cap, and in whatever order the probes
/// complete, two reports of the same targets are equal.
pub proof fn lemma_report_is_determined<F: Fn(ProbeTarget) -> ProbeOutcome>(
    probe: F,
    targets: Seq<ProbeTarget>,
    r1: Seq<ProbeTarget>,
    r2: Seq<ProbeTarget>,
)
    requires
        is_report_of(probe, targets, r1),
        is_report_of(probe, targets, r2),
        forall|t: ProbeTarget, o1: ProbeOutcome, o2: ProbeOutcome|
            probe.ensures((t,), o1) && probe.ensures((t,), o2) ==> o1 == o2,
    ensures
        r1 == r2,
{
    lemma_report_covers(probe, targets, r1, r2);
    lemma_report_covers(probe, targets, r2, r1);
    assert(r1.to_set() =~= r2.to_set());
    lemma_report_unique(r1, r2);
}

/// Against a network that answers each target in one way only, what one
/// report of a scan holds, every report of it holds.
proof fn lemma_report_covers<F: Fn(ProbeTarget) -> ProbeOutcome>(
    probe: F,
    targets: Seq<ProbeTarget>,
    r1: Seq<ProbeTarget>,
    r2: Seq<ProbeTarget>,
)
    requires
        is_report_of(probe, targets, r1),
        is_report_of(probe, targets, r2),
        forall|t: ProbeTarget, o1: ProbeOutcome, o2: ProbeOutcome|
            probe.ensures((t,), o1) && probe.ensures((t,), o2) ==> o1 == o2,
    ensures
        forall|x: ProbeTarget| r1.contains(x) ==> r2.contains(x),
{
    assert forall|x: ProbeTarget| r1.contains(x) implies r2.contains(x) by {
        assert(reported_open(probe, targets, targets.len() as int, x));
        let k = choose|k: int|
            0 <= k < targets.len() && #[trigger] probe.ensures(
                (targets[k],),
                ProbeOutcome::Open(x),
            );
        assert(accounted(probe, targets[k], r2));
    }
}

/// Against a network on which a target is either open or not, and whose
/// every `Open` names the target that was probed, the report of a scan
/// holds exactly the targets that are open.
pub proof fn lemma_report_of_responder<F: Fn(ProbeTarget) -> ProbeOutcome>(
    probe: F,
    targets: Seq<ProbeTarget>,
    report: Seq<ProbeTarget>,
    open: spec_fn(ProbeTarget) -> bool,
)
    requires
        is_report_of(probe, targets, report),
        forall|t: ProbeTarget, o: ProbeOutcome| #[trigger]
            probe.ensures((t,), o) ==> (if open(t) {
                o == ProbeOutcome::Open(t)
            } else {
                !(o is Open)
            }),
    ensures
        forall|x: ProbeTarget| report.contains(x) <==> targets.contains(x) && open(x),
{
    assert forall|x: ProbeTarget| report.contains(x) <==> targets.contains(x) && open(x) by {
        if report.contains(x) {
            assert(reported_open(probe, targets, targets.len() as int, x));
            let k = choose|k: int|
                0 <= k < targets.len() && #[trigger] probe.ensures(
                    (targets[k],),
                    ProbeOutcome::Open(x),
                );
            assert(targets[k] == x);
        }
        if targets.contains(x) && open(x) {
            let k = choose|k: int| 0 <= k < targets.len() && targets[k] == x;
            assert(accounted(probe, targets[k], report));
        }
    }
}

} // verus!
