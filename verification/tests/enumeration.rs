use asphyxia::net::Ipv4;
use asphyxia::parse_subnet;
use asphyxia::target::{ProbeUnit, Subnet, TargetSpace};

fn ip(s: &str) -> Ipv4 {
    asphyxia::parse_ipv4(s).unwrap()
}

#[test]
fn port_range_enumerates_ascending() {
    let t = TargetSpace::PortRange { start: 79, end: 81 };
    assert_eq!(t.unit_count(), 3);
    assert_eq!(t.unit_at(0), ProbeUnit::Port { port: 79 });
    assert_eq!(t.unit_at(1), ProbeUnit::Port { port: 80 });
    assert_eq!(t.unit_at(2), ProbeUnit::Port { port: 81 });
}

#[test]
fn inverted_port_range_is_empty() {
    let t = TargetSpace::PortRange { start: 81, end: 79 };
    assert_eq!(t.unit_count(), 0);
}

#[test]
fn full_port_range_counts_every_port() {
    let t = TargetSpace::PortRange { start: 0, end: 65535 };
    assert_eq!(t.unit_count(), 65536);
    assert_eq!(t.unit_at(65535), ProbeUnit::Port { port: 65535 });
}

#[test]
fn port_list_keeps_order_and_duplicates() {
    let t = TargetSpace::PortList { ports: vec![443, 22, 22, 80] };
    assert_eq!(t.unit_count(), 4);
    assert_eq!(t.unit_at(0), ProbeUnit::Port { port: 443 });
    assert_eq!(t.unit_at(1), ProbeUnit::Port { port: 22 });
    assert_eq!(t.unit_at(2), ProbeUnit::Port { port: 22 });
    assert_eq!(t.unit_at(3), ProbeUnit::Port { port: 80 });
}

#[test]
fn single_host_is_one_unit() {
    let t = TargetSpace::SingleHost { address: ip("192.168.1.1") };
    assert_eq!(t.unit_count(), 1);
    assert_eq!(t.unit_at(0), ProbeUnit::Host { address: ip("192.168.1.1") });
}

#[test]
fn host_range_single_address() {
    let t = TargetSpace::HostRange { start: ip("192.168.1.1"), end: ip("192.168.1.1") };
    assert_eq!(t.unit_count(), 1);
    assert_eq!(t.unit_at(0), ProbeUnit::Host { address: ip("192.168.1.1") });
}

#[test]
fn inverted_host_range_is_empty() {
    let t = TargetSpace::HostRange { start: ip("127.0.0.10"), end: ip("127.0.0.1") };
    assert_eq!(t.unit_count(), 0);
}

#[test]
fn host_range_enumerates_ascending() {
    let t = TargetSpace::HostRange { start: ip("127.0.0.1"), end: ip("127.0.0.3") };
    assert_eq!(t.unit_count(), 3);
    assert_eq!(t.unit_at(0), ProbeUnit::Host { address: ip("127.0.0.1") });
    assert_eq!(t.unit_at(2), ProbeUnit::Host { address: ip("127.0.0.3") });
}

#[test]
fn subnet_30_includes_network_and_broadcast() {
    let sn = parse_subnet("192.168.1.0/30").unwrap();
    let t = TargetSpace::Subnet { subnet: sn };
    assert_eq!(t.unit_count(), 4);
    assert_eq!(t.unit_at(0), ProbeUnit::Host { address: ip("192.168.1.0") });
    assert_eq!(t.unit_at(1), ProbeUnit::Host { address: ip("192.168.1.1") });
    assert_eq!(t.unit_at(2), ProbeUnit::Host { address: ip("192.168.1.2") });
    assert_eq!(t.unit_at(3), ProbeUnit::Host { address: ip("192.168.1.3") });
}

#[test]
fn subnet_masks_unaligned_address() {
    let t = TargetSpace::Subnet {
        subnet: Subnet { network: ip("192.168.1.77"), prefix: 30 },
    };
    assert_eq!(t.unit_count(), 4);
    assert_eq!(t.unit_at(0), ProbeUnit::Host { address: ip("192.168.1.76") });
    assert_eq!(t.unit_at(3), ProbeUnit::Host { address: ip("192.168.1.79") });
}

#[test]
fn subnet_32_is_one_host() {
    let sn = parse_subnet("10.0.0.7/32").unwrap();
    let t = TargetSpace::Subnet { subnet: sn };
    assert_eq!(t.unit_count(), 1);
    assert_eq!(t.unit_at(0), ProbeUnit::Host { address: ip("10.0.0.7") });
}

#[test]
fn subnet_0_covers_the_whole_space() {
    let sn = parse_subnet("0.0.0.0/0").unwrap();
    let t = TargetSpace::Subnet { subnet: sn };
    assert_eq!(t.unit_count(), 1u64 << 32);
    assert_eq!(t.unit_at(0), ProbeUnit::Host { address: Ipv4 { bits: 0 } });
    assert_eq!(t.unit_at((1u64 << 32) - 1), ProbeUnit::Host { address: Ipv4 { bits: 0xffff_ffff } });
}
