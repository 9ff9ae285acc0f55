use asphyxia::net::Ipv4;
use asphyxia::utils::ScanError;
use asphyxia::{parse_ipv4, parse_ports, parse_subnet};

#[test]
fn parse_ports_basic() {
    assert_eq!(parse_ports("22,80,443"), Ok(vec![22, 80, 443]));
    assert_eq!(parse_ports("80"), Ok(vec![80]));
}

#[test]
fn parse_ports_rejects_non_numbers() {
    assert_eq!(parse_ports("22,abc,443"), Err(ScanError::InvalidPort));
    assert_eq!(parse_ports(""), Err(ScanError::InvalidPort));
    assert_eq!(parse_ports("22,,443"), Err(ScanError::InvalidPort));
    assert_eq!(parse_ports("-1"), Err(ScanError::InvalidPort));
}

#[test]
fn parse_ports_std_grammar() {
    // std's u16 parser takes an optional leading `+` and leading zeros
    assert_eq!(parse_ports("+80,007"), Ok(vec![80, 7]));
    assert_eq!(parse_ports("0000000080"), Ok(vec![80]));
}

#[test]
fn parse_ports_range_bounds() {
    assert_eq!(parse_ports("65535"), Ok(vec![65535]));
    assert_eq!(parse_ports("65536"), Err(ScanError::InvalidPort));
    assert_eq!(parse_ports("0"), Ok(vec![0]));
}

#[test]
fn parse_ports_keeps_order_and_duplicates() {
    assert_eq!(parse_ports("443,22,22,80"), Ok(vec![443, 22, 22, 80]));
}

#[test]
fn parse_ipv4_valid() {
    assert_eq!(parse_ipv4("192.168.1.1"), Ok(Ipv4 { bits: 0xc0a8_0101 }));
    assert_eq!(parse_ipv4("0.0.0.0"), Ok(Ipv4 { bits: 0 }));
    assert_eq!(parse_ipv4("255.255.255.255"), Ok(Ipv4 { bits: 0xffff_ffff }));
}

#[test]
fn parse_ipv4_invalid() {
    assert_eq!(parse_ipv4("256.168.1.1"), Err(ScanError::InvalidIpv4));
    assert_eq!(parse_ipv4("1.2.3"), Err(ScanError::InvalidIpv4));
    assert_eq!(parse_ipv4("1.2.3.4.5"), Err(ScanError::InvalidIpv4));
    assert_eq!(parse_ipv4("01.2.3.4"), Err(ScanError::InvalidIpv4));
    assert_eq!(parse_ipv4("+1.2.3.4"), Err(ScanError::InvalidIpv4));
    assert_eq!(parse_ipv4(""), Err(ScanError::InvalidIpv4));
    assert_eq!(parse_ipv4("a.b.c.d"), Err(ScanError::InvalidIpv4));
}

#[test]
fn parse_ipv4_matches_from_octets() {
    let parsed = parse_ipv4("10.20.30.40").unwrap();
    assert_eq!(parsed, Ipv4::from_octets(10, 20, 30, 40));
    assert_eq!(parsed.octets(), (10, 20, 30, 40));
}

#[test]
fn parse_subnet_cidr() {
    let sn = parse_subnet("192.168.1.0/24").unwrap();
    assert_eq!(sn.network, Ipv4 { bits: 0xc0a8_0100 });
    assert_eq!(sn.prefix, 24);
}

#[test]
fn parse_subnet_keeps_host_bits() {
    // the held address is as written; masking happens at enumeration
    let sn = parse_subnet("10.1.9.32/16").unwrap();
    assert_eq!(sn.network, Ipv4 { bits: 0x0a01_0920 });
    assert_eq!(sn.prefix, 16);
}

#[test]
fn parse_subnet_netmask_form() {
    let sn = parse_subnet("10.0.0.0/255.255.255.0").unwrap();
    assert_eq!(sn.network, Ipv4 { bits: 0x0a00_0000 });
    assert_eq!(sn.prefix, 24);
}

#[test]
fn parse_subnet_bare_address_is_one_host() {
    let sn = parse_subnet("10.1.2.3").unwrap();
    assert_eq!(sn.network, Ipv4 { bits: 0x0a01_0203 });
    assert_eq!(sn.prefix, 32);
}

#[test]
fn parse_subnet_rejects_bad_prefix() {
    assert_eq!(parse_subnet("192.168.1.0/33"), Err(ScanError::InvalidCidr));
    assert_eq!(parse_subnet("192.168.1.0/24/8"), Err(ScanError::InvalidCidr));
    assert_eq!(parse_subnet("192.168.1.0/"), Err(ScanError::InvalidCidr));
    assert_eq!(parse_subnet("foo"), Err(ScanError::InvalidCidr));
}

#[test]
fn parse_subnet_rejects_ipv6() {
    // a valid IPv6 network is refused before any probe is dispatched
    assert_eq!(parse_subnet("2001:db8::/32"), Err(ScanError::UnsupportedFamily));
}

#[test]
fn scan_error_messages() {
    assert_eq!(ScanError::InvalidPort.message(), "Invalid port number");
    assert_eq!(ScanError::InvalidIpv4.message(), "Invalid IPv4 address");
    assert_eq!(ScanError::InvalidCidr.message(), "Invalid subnet format");
    assert_eq!(ScanError::UnsupportedFamily.message(), "Only IPv4 subnets are supported");
}
