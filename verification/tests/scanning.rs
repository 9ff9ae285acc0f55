use asphyxia::net::Ipv4;
use asphyxia::scanner::address::{classify_address_probe, scan_range_given, scan_subnet_given, sort_addresses};
use asphyxia::scanner::port::{classify_port_probe, liveness_verdict, scan_ports_given, sort_ports};
use asphyxia::scanner::{ProbeOutcome, ResultSet};
use asphyxia::target::{ProbeUnit, Subnet, TargetSpace};

fn ip(s: &str) -> Ipv4 {
    asphyxia::parse_ipv4(s).unwrap()
}

#[test]
fn classify_port_probe_outcomes() {
    assert_eq!(classify_port_probe(443, true), ProbeOutcome::Open { port: 443 });
    assert_eq!(classify_port_probe(443, false), ProbeOutcome::Unreachable);
}

#[test]
fn classify_address_probe_outcomes() {
    let a = ip("192.168.1.1");
    assert_eq!(classify_address_probe(a, true), ProbeOutcome::Reachable { address: a });
    assert_eq!(classify_address_probe(a, false), ProbeOutcome::Unreachable);
}

#[test]
fn liveness_verdict_falls_back_to_resolution() {
    assert!(liveness_verdict(true, false));
    assert!(liveness_verdict(false, true));
    assert!(liveness_verdict(true, true));
    assert!(!liveness_verdict(false, false));
}

#[test]
fn port_list_scan_keeps_only_open() {
    // PortList [22, 80, 443] against a host with only 443 open
    let ports = vec![22, 80, 443];
    let open = vec![false, false, true];
    assert_eq!(scan_ports_given(&ports, &open), vec![443]);
}

#[test]
fn port_range_scan_finds_the_open_port() {
    // PortRange {79, 81} against a host with only port 80 open
    let space = TargetSpace::PortRange { start: 79, end: 81 };
    let mut ports: Vec<u16> = Vec::new();
    let mut i: u64 = 0;
    while i < space.unit_count() {
        match space.unit_at(i) {
            ProbeUnit::Port { port } => ports.push(port),
            _ => panic!("a port range enumerates ports"),
        }
        i += 1;
    }
    let open: Vec<bool> = ports.iter().map(|p| *p == 80).collect();
    assert_eq!(scan_ports_given(&ports, &open), vec![80]);
}

#[test]
fn subnet_scan_with_nothing_reachable_is_empty() {
    // Subnet 192.168.1.0/30: four addresses, none reachable
    let subnet = Subnet { network: ip("192.168.1.0"), prefix: 30 };
    let reachable = vec![false, false, false, false];
    assert_eq!(scan_subnet_given(&subnet, &reachable), Vec::<Ipv4>::new());
}

#[test]
fn subnet_scan_collects_reachable_hosts() {
    let subnet = Subnet { network: ip("10.0.0.0"), prefix: 30 };
    let reachable = vec![false, true, false, true];
    assert_eq!(scan_subnet_given(&subnet, &reachable), vec![ip("10.0.0.1"), ip("10.0.0.3")]);
}

#[test]
fn single_address_range_scan() {
    // HostRange {192.168.1.1, 192.168.1.1}, reachable
    let start = ip("192.168.1.1");
    let reachable = vec![true];
    assert_eq!(scan_range_given(start, start, &reachable), vec![ip("192.168.1.1")]);
}

#[test]
fn test_scan_empty_range() {
    // start numerically above end: an empty result, not an error
    let start = ip("127.0.0.10");
    let end = ip("127.0.0.1");
    let reachable: Vec<bool> = Vec::new();
    assert!(scan_range_given(start, end, &reachable).is_empty());
}

#[test]
fn scanning_twice_gives_the_same_result() {
    // unreachable targets: empty both times
    let subnet = Subnet { network: ip("192.168.1.0"), prefix: 30 };
    let nothing = vec![false, false, false, false];
    let first = scan_subnet_given(&subnet, &nothing);
    let second = scan_subnet_given(&subnet, &nothing);
    assert_eq!(first, second);
    assert!(first.is_empty());

    // an always-reachable endpoint: the same singleton both times
    let ports = vec![80];
    let open = vec![true];
    let first = scan_ports_given(&ports, &open);
    let second = scan_ports_given(&ports, &open);
    assert_eq!(first, second);
    assert_eq!(first, vec![80]);
}

#[test]
fn finalize_sorts_ports_whatever_the_completion_order() {
    let mut one = ResultSet::<u16>::new();
    one.record(443);
    one.record(22);
    one.record(80);
    let mut other = ResultSet::<u16>::new();
    other.record(80);
    other.record(443);
    other.record(22);
    let first = one.finalize();
    let second = other.finalize();
    assert_eq!(first, vec![22, 80, 443]);
    assert_eq!(first, second);
}

#[test]
fn finalize_sorts_addresses_ascending() {
    let mut rs = ResultSet::<Ipv4>::new();
    rs.record(ip("192.168.1.20"));
    rs.record(ip("192.168.1.3"));
    rs.record(ip("10.0.0.9"));
    assert_eq!(rs.finalize(), vec![ip("10.0.0.9"), ip("192.168.1.3"), ip("192.168.1.20")]);
}

#[test]
fn result_set_counts_records() {
    let mut rs = ResultSet::<u16>::new();
    assert_eq!(rs.len(), 0);
    rs.record(8080);
    rs.record(8080);
    assert_eq!(rs.len(), 2);
    assert_eq!(rs.finalize(), vec![8080, 8080]);
}

#[test]
fn sorting_keeps_duplicates() {
    assert_eq!(sort_ports(vec![5, 3, 5, 1]), vec![1, 3, 5, 5]);
    let sorted = sort_addresses(vec![ip("2.2.2.2"), ip("1.1.1.1"), ip("2.2.2.2")]);
    assert_eq!(sorted, vec![ip("1.1.1.1"), ip("2.2.2.2"), ip("2.2.2.2")]);
}
