use rnetmap::scan::insert_target;
use rnetmap::{
    parse_ips, parse_ports, probe_outcome, scan, ConnectAttempt, IpAddress, ProbeOutcome,
    ProbeTarget, Scan,
};

fn v4(a: u8, b: u8, c: u8, d: u8) -> IpAddress {
    IpAddress::V4(u32::from_be_bytes([a, b, c, d]))
}

fn target(host: IpAddress, port: u16) -> ProbeTarget {
    ProbeTarget { host, port }
}

fn answer(t: ProbeTarget, open: &[ProbeTarget]) -> ProbeOutcome {
    if open.contains(&t) {
        ProbeOutcome::Open(t)
    } else {
        ProbeOutcome::Closed
    }
}

#[test]
fn listener_on_two_of_three_ports() {
    let hosts = parse_ips("127.0.0.1").unwrap();
    let ports = parse_ports("80,443,9999").unwrap();
    let home = v4(127, 0, 0, 1);
    let report = scan(hosts, ports, 50, |t: ProbeTarget| {
        if t.host == home && (t.port == 80 || t.port == 443) {
            ProbeOutcome::Open(t)
        } else {
            ProbeOutcome::ConnectionError
        }
    });
    assert_eq!(report, vec![target(home, 80), target(home, 443)]);
}

#[test]
fn report_is_the_same_for_every_cap() {
    let hosts = parse_ips("10.0.0.0/29,::1").unwrap();
    let ports = parse_ports("20-25,80,443").unwrap();
    let open = vec![
        target(IpAddress::V6(1), 22),
        target(v4(10, 0, 0, 6), 443),
        target(v4(10, 0, 0, 2), 80),
        target(v4(10, 0, 0, 2), 21),
        target(v4(10, 0, 0, 1), 25),
        target(v4(10, 0, 0, 9), 80),
        target(v4(10, 0, 0, 3), 81),
    ];
    let expected = vec![
        target(v4(10, 0, 0, 1), 25),
        target(v4(10, 0, 0, 2), 21),
        target(v4(10, 0, 0, 2), 80),
        target(v4(10, 0, 0, 6), 443),
        target(IpAddress::V6(1), 22),
    ];
    for cap in [1usize, 2, 3, 7, 8, 55, 56, 57, 1000, usize::MAX] {
        let report = scan(hosts.clone(), ports.clone(), cap, |t| answer(t, &open));
        assert_eq!(report, expected, "cap {}", cap);
    }
}

#[test]
fn timed_out_target_is_not_reported() {
    let hosts = vec![v4(10, 0, 0, 1)];
    let ports = vec![1, 2, 3];
    let report = scan(hosts, ports, 2, |t: ProbeTarget| match t.port {
        1 => ProbeOutcome::TimedOut,
        2 => ProbeOutcome::Open(t),
        _ => ProbeOutcome::ConnectionError,
    });
    assert_eq!(report, vec![target(v4(10, 0, 0, 1), 2)]);
}

#[test]
fn scan_without_open_targets_gives_an_empty_report() {
    let report = scan(vec![v4(10, 0, 0, 1), v4(10, 0, 0, 2)], vec![22, 80], 3, |_| {
        ProbeOutcome::Closed
    });
    assert_eq!(report, Vec::<ProbeTarget>::new());
    assert_eq!(scan(Vec::new(), vec![22, 80], 3, ProbeOutcome::Open), Vec::<ProbeTarget>::new());
    assert_eq!(scan(vec![v4(10, 0, 0, 1)], Vec::new(), 3, ProbeOutcome::Open), Vec::<ProbeTarget>::new());
}

#[test]
fn every_target_is_probed_once_in_host_major_order() {
    let hosts = vec![v4(10, 0, 0, 2), v4(10, 0, 0, 1)];
    let ports = vec![443, 80, 22];
    let seen = std::cell::RefCell::new(Vec::new());
    let report = scan(hosts.clone(), ports.clone(), 4, |t: ProbeTarget| {
        seen.borrow_mut().push(t);
        ProbeOutcome::Open(t)
    });
    let mut launched = Vec::new();
    for h in &hosts {
        for p in &ports {
            launched.push(target(*h, *p));
        }
    }
    assert_eq!(*seen.borrow(), launched);
    let mut sorted = launched.clone();
    sorted.sort();
    assert_eq!(report, sorted);
}

#[test]
fn unsorted_input_with_duplicates_gives_a_sorted_report_without_them() {
    let hosts = vec![v4(10, 0, 0, 2), v4(10, 0, 0, 1), v4(10, 0, 0, 2)];
    let ports = vec![80, 22, 80];
    let report = scan(hosts, ports, 2, ProbeOutcome::Open);
    assert_eq!(
        report,
        vec![
            target(v4(10, 0, 0, 1), 22),
            target(v4(10, 0, 0, 1), 80),
            target(v4(10, 0, 0, 2), 22),
            target(v4(10, 0, 0, 2), 80)
        ]
    );
}

#[test]
fn launch_respects_the_cap() {
    let a = v4(10, 0, 0, 1);
    let b = v4(10, 0, 0, 2);
    let mut s = Scan::new(vec![a, b], vec![22, 80], 3);
    assert!(!s.is_done());
    assert_eq!(s.launch(), Some(target(a, 22)));
    assert_eq!(s.launch(), Some(target(a, 80)));
    assert_eq!(s.launch(), Some(target(b, 22)));
    assert_eq!(s.launch(), None);
    assert_eq!(s.launch(), None);
    assert!(s.complete(ProbeOutcome::Open(target(b, 22))));
    assert_eq!(s.launch(), Some(target(b, 80)));
    assert_eq!(s.launch(), None);
    assert!(!s.is_done());
    assert!(s.complete(ProbeOutcome::TimedOut));
    assert!(s.complete(ProbeOutcome::Open(target(a, 22))));
    assert_eq!(s.launch(), None);
    assert!(!s.is_done());
    assert!(s.complete(ProbeOutcome::ConnectionError));
    assert!(s.is_done());
    assert!(!s.complete(ProbeOutcome::Open(target(a, 80))));
    assert_eq!(s.into_report(), Some(vec![target(a, 22), target(b, 22)]));
}

#[test]
fn report_is_withheld_until_the_scan_is_over() {
    let a = v4(10, 0, 0, 1);
    let mut s = Scan::new(vec![a], vec![22, 80], 1);
    assert_eq!(s.launch(), Some(target(a, 22)));
    assert_eq!(s.into_report(), None);
    let mut s = Scan::new(vec![a], vec![22, 80], 1);
    assert_eq!(s.launch(), Some(target(a, 22)));
    assert!(s.complete(ProbeOutcome::Closed));
    assert_eq!(s.into_report(), None);
    let s = Scan::new(Vec::new(), vec![22, 80], 1);
    assert!(s.is_done());
    assert_eq!(s.into_report(), Some(Vec::new()));
    let s = Scan::new(vec![a], Vec::new(), 1);
    assert!(s.is_done());
}

#[test]
fn outcome_of_a_connection_attempt() {
    let t = target(v4(192, 168, 1, 1), 1024);
    assert_eq!(probe_outcome(t, ConnectAttempt::Established), ProbeOutcome::Open(t));
    assert_eq!(probe_outcome(t, ConnectAttempt::Failed), ProbeOutcome::ConnectionError);
    assert_eq!(probe_outcome(t, ConnectAttempt::Elapsed), ProbeOutcome::TimedOut);
}

#[test]
fn targets_are_ordered_by_host_then_port() {
    let a = v4(10, 0, 0, 1);
    let b = v4(10, 0, 0, 2);
    assert!(target(a, 443).is_before(&target(b, 22)));
    assert!(target(a, 22).is_before(&target(a, 443)));
    assert!(!target(a, 22).is_before(&target(a, 22)));
    assert!(!target(b, 22).is_before(&target(a, 443)));
    assert!(target(b, 65535).is_before(&target(IpAddress::V6(0), 1)));
}

#[test]
fn insert_target_keeps_the_report_sorted() {
    let a = v4(10, 0, 0, 1);
    let b = v4(10, 0, 0, 2);
    let mut report = Vec::new();
    for t in [target(b, 80), target(a, 443), target(b, 22), target(a, 443), target(a, 1), target(b, 80)] {
        insert_target(&mut report, t);
    }
    assert_eq!(report, vec![target(a, 1), target(a, 443), target(b, 22), target(b, 80)]);
}

#[test]
fn reference_values_of_deadline_and_cap() {
    assert_eq!(rnetmap::PROBE_DEADLINE_MS, 200);
    assert_eq!(rnetmap::DEFAULT_CAP, 50);
}
