//! Parsing and validation of scan inputs.
//!
//! Targets arrive as text: comma-separated port lists, dotted-decimal IPv4
//! literals, and CIDR subnets. The grammars are stated as spec functions over
//! sequences of characters, and each parser's contract says exactly which
//! strings it accepts and what value it reads from them. Malformed input is
//! the only error the scanner ever raises; it is reported before any probe is
//! dispatched.

use vstd::prelude::*;
use vstd::string::StrSliceExecFns;
use vstd::arithmetic::power2::pow2;
use crate::net::Ipv4;
use crate::target::Subnet;

verus! {

/// A validation failure: the scan never starts on such an input.
#[derive(Clone, Copy, Debug, PartialEq, Eq, Structural)]
pub enum ScanError {
    /// A port was not a decimal number between 0 and 65535.
    InvalidPort,
    /// An address was not a dotted-decimal IPv4 literal.
    InvalidIpv4,
    /// A subnet was not in CIDR notation.
    InvalidCidr,
    /// A subnet was well-formed but not IPv4.
    UnsupportedFamily,
}

impl ScanError {
    /// A human-readable reason for the failure.
    pub fn message(&self) -> (r: &'static str)
        ensures
            *self == ScanError::InvalidPort ==> r@ == "Invalid port number"@,
            *self == ScanError::InvalidIpv4 ==> r@ == "Invalid IPv4 address"@,
            *self == ScanError::InvalidCidr ==> r@ == "Invalid subnet format"@,
            *self == ScanError::UnsupportedFamily ==> r@ == "Only IPv4 subnets are supported"@,
    {
        match self {
            ScanError::InvalidPort => "Invalid port number",
            ScanError::InvalidIpv4 => "Invalid IPv4 address",
            ScanError::InvalidCidr => "Invalid subnet format",
            ScanError::UnsupportedFamily => "Only IPv4 subnets are supported",
        }
    }
}

/// An ASCII decimal digit.
pub open spec fn is_digit_char(c: char) -> bool {
    48 <= c as u32 <= 57
}

/// The numeric value of a decimal digit.
pub open spec fn digit_val(c: char) -> int
    recommends
        is_digit_char(c),
{
    c as u32 - 48
}

/// Every character of `s` is a decimal digit.
pub open spec fn all_digits(s: Seq<char>) -> bool {
    forall|i: int| 0 <= i < s.len() ==> is_digit_char(#[trigger] s[i])
}

/// The value of `s` read as a decimal numeral, most significant digit first.
pub open spec fn dec_val(s: Seq<char>) -> int
    recommends
        all_digits(s),
    decreases s.len(),
{
    if s.len() == 0 {
        0
    } else {
        dec_val(s.drop_last()) * 10 + digit_val(s.last())
    }
}

proof fn lemma_all_digits_prefix(s: Seq<char>, k: int)
    requires
        all_digits(s),
        0 <= k <= s.len(),
    ensures
        all_digits(s.subrange(0, k)),
{
    assert forall|i: int| 0 <= i < k implies is_digit_char(#[trigger] s.subrange(0, k)[i]) by {
        assert(s.subrange(0, k)[i] == s[i]);
    }
}

proof fn lemma_dec_val_nonneg(s: Seq<char>)
    requires
        all_digits(s),
    ensures
        dec_val(s) >= 0,
    decreases s.len(),
{
    if s.len() > 0 {
        lemma_all_digits_prefix(s, s.len() - 1);
        lemma_dec_val_nonneg(s.drop_last());
    }
}

/// A longer digit string never reads as a smaller value than any of its
/// prefixes.
proof fn lemma_dec_val_prefix_le(s: Seq<char>, k: int)
    requires
        all_digits(s),
        0 <= k <= s.len(),
    ensures
        dec_val(s.subrange(0, k)) <= dec_val(s),
    decreases s.len() - k,
{
    if k == s.len() {
        assert(s.subrange(0, k) =~= s);
    } else {
        let shorter = s.subrange(0, k);
        let longer = s.subrange(0, k + 1);
        assert(longer.drop_last() =~= shorter);
        lemma_all_digits_prefix(s, k);
        lemma_dec_val_nonneg(shorter);
        assert(dec_val(longer) == dec_val(shorter) * 10 + digit_val(s[k]));
        lemma_dec_val_prefix_le(s, k + 1);
    }
}

/// Read `s` as a decimal number of at most `max`. Returns the value exactly
/// when `s` is nonempty, all digits, and in bounds.
fn parse_number(s: &str, max: u32) -> (r: Option<u32>)
    requires
        max <= 0xffff,
    ensures
        r is Some <==> (s@.len() > 0 && all_digits(s@) && dec_val(s@) <= max),
        r matches Some(v) ==> v == dec_val(s@),
{
    let n = s.unicode_len();
    if n == 0 {
        return None;
    }
    let mut i: usize = 0;
    let mut acc: u32 = 0;
    while i < n
        invariant
            0 <= i <= n,
            n == s@.len(),
            max <= 0xffff,
            all_digits(s@.subrange(0, i as int)),
            acc == dec_val(s@.subrange(0, i as int)),
            acc <= max,
        decreases n - i,
    {
        let c = s.get_char(i);
        let d = c as u32;
        if d < 48 || d > 57 {
            assert(!is_digit_char(s@[i as int]));
            return None;
        }
        let ghost pre = s@.subrange(0, i as int);
        let ghost post = s@.subrange(0, i as int + 1);
        proof {
            assert(post.drop_last() =~= pre);
            assert forall|j: int| 0 <= j < post.len() implies is_digit_char(#[trigger] post[j]) by {
                if j < i as int {
                    assert(post[j] == pre[j]);
                } else {
                    assert(post[j] == s@[i as int]);
                }
            }
            assert(dec_val(post) == dec_val(pre) * 10 + digit_val(s@[i as int]));
        }
        let next = acc * 10 + (d - 48);
        if next > max {
            proof {
                if all_digits(s@) && dec_val(s@) <= max {
                    lemma_dec_val_prefix_le(s@, i as int + 1);
                }
            }
            return None;
        }
        acc = next;
        i = i + 1;
    }
    proof {
        assert(s@.subrange(0, n as int) =~= s@);
    }
    Some(acc)
}

/// The index of the first `sep` in `s`, or `s.len()` when there is none.
pub open spec fn first_sep(s: Seq<char>, sep: char) -> int
    decreases s.len(),
{
    if s.len() == 0 {
        0
    } else if s[0] == sep {
        0
    } else {
        1 + first_sep(s.subrange(1, s.len() as int), sep)
    }
}

/// `first_sep` is pinned by any witness position: no separator before `j`,
/// and either `j` is the end of the string or a separator stands there.
proof fn lemma_first_sep_at(s: Seq<char>, sep: char, j: int)
    requires
        0 <= j <= s.len(),
        forall|k: int| 0 <= k < j ==> s[k] != sep,
        j == s.len() || s[j] == sep,
    ensures
        first_sep(s, sep) == j,
    decreases s.len(),
{
    if s.len() == 0 {
    } else if s[0] == sep {
        assert(j == 0);
    } else {
        assert(j >= 1);
        let t = s.subrange(1, s.len() as int);
        assert forall|k: int| 0 <= k < j - 1 implies t[k] != sep by {
            assert(t[k] == s[k + 1]);
        }
        if j < s.len() {
            assert(t[j - 1] == s[j]);
        }
        lemma_first_sep_at(t, sep, j - 1);
    }
}

/// The fields of `s` between occurrences of `sep`: splitting on every
/// separator, keeping empty fields, so there is always one more field than
/// there are separators.
pub open spec fn split_on(s: Seq<char>, sep: char) -> Seq<Seq<char>>
    decreases s.len(),
{
    let i = first_sep(s, sep);
    if 0 <= i < s.len() {
        seq![s.subrange(0, i)] + split_on(s.subrange(i + 1, s.len() as int), sep)
    } else {
        seq![s]
    }
}

/// The views of a vector of borrowed string fields.
pub open spec fn views_of(q: Seq<&str>) -> Seq<Seq<char>> {
    q.map_values(|t: &str| t@)
}

/// Split `s` on every occurrence of `sep`, keeping empty fields.
fn split_str<'a>(s: &'a str, sep: char) -> (r: Vec<&'a str>)
    ensures
        views_of(r@) == split_on(s@, sep),
{
    let n = s.unicode_len();
    let mut r: Vec<&'a str> = Vec::new();
    proof {
        assert(s@.subrange(0, n as int) =~= s@);
        assert(views_of(r@) + split_on(s@, sep) =~~= split_on(s@, sep));
    }
    let mut start: usize = 0;
    let mut i: usize = 0;
    while i < n
        invariant
            0 <= start <= i <= n,
            n == s@.len(),
            forall|k: int| start <= k < i ==> s@[k] != sep,
            split_on(s@, sep) =~~= views_of(r@) + split_on(
                s@.subrange(start as int, n as int),
                sep,
            ),
        decreases n - i,
    {
        let c = s.get_char(i);
        if c == sep {
            let seg = s.substring_char(start, i);
            proof {
                let t = s@.subrange(start as int, n as int);
                assert forall|k: int| 0 <= k < i - start implies t[k] != sep by {
                    assert(t[k] == s@[start + k]);
                }
                assert(t[i - start] == s@[i as int]);
                lemma_first_sep_at(t, sep, i - start);
                assert(t.subrange(0, i - start) =~= seg@);
                assert(t.subrange(i - start + 1, t.len() as int) =~= s@.subrange(
                    i + 1,
                    n as int,
                ));
                assert(views_of(r@.push(seg)) =~~= views_of(r@) + seq![seg@]);
                assert(views_of(r@) + (seq![seg@] + split_on(s@.subrange(i + 1, n as int), sep))
                    =~~= views_of(r@.push(seg)) + split_on(s@.subrange(i + 1, n as int), sep));
            }
            r.push(seg);
            start = i + 1;
        }
        i = i + 1;
    }
    let seg = s.substring_char(start, n);
    proof {
        let t = s@.subrange(start as int, n as int);
        assert forall|k: int| 0 <= k < t.len() implies t[k] != sep by {
            assert(t[k] == s@[start + k]);
        }
        lemma_first_sep_at(t, sep, t.len() as int);
        assert(split_on(t, sep) =~~= seq![t]);
        assert(views_of(r@.push(seg)) =~~= views_of(r@) + seq![seg@]);
        assert(seg@ == t);
    }
    r.push(seg);
    r
}

/// The digits of an unsigned numeral: an optional leading `+` is stripped, as
/// std's unsigned parsers accept one.
pub open spec fn digits_part(s: Seq<char>) -> Seq<char> {
    if s.len() > 0 && s[0] == '+' {
        s.drop_first()
    } else {
        s
    }
}

/// `s` parses as an unsigned decimal of at most `max`: an optional `+`, then
/// one or more digits, in bounds.
pub open spec fn is_uint_str(s: Seq<char>, max: int) -> bool {
    let d = digits_part(s);
    d.len() > 0 && all_digits(d) && dec_val(d) <= max
}

/// Read `s` as an unsigned decimal of at most `max`, with std's optional
/// leading `+`.
fn parse_uint(s: &str, max: u32) -> (r: Option<u32>)
    requires
        max <= 0xffff,
    ensures
        r is Some <==> is_uint_str(s@, max as int),
        r matches Some(v) ==> v == dec_val(digits_part(s@)),
{
    let n = s.unicode_len();
    if n > 0 && s.get_char(0) == '+' {
        let rest = s.substring_char(1, n);
        proof {
            assert(rest@ =~= s@.drop_first());
        }
        parse_number(rest, max)
    } else {
        parse_number(s, max)
    }
}

/// Every comma-separated field of `s` is a port number (a decimal of at most
/// 65535, with std's optional leading `+`).
pub open spec fn is_port_list_str(s: Seq<char>) -> bool {
    forall|i: int|
        0 <= i < split_on(s, ',').len() ==> is_uint_str(#[trigger] split_on(s, ',')[i], 0xffff)
}

/// The ports listed in `s`, in the order given, duplicates kept.
pub open spec fn ports_of(s: Seq<char>) -> Seq<u16> {
    split_on(s, ',').map_values(|f: Seq<char>| dec_val(digits_part(f)) as u16)
}

/// Parse a comma-separated list of port numbers.
///
/// Succeeds exactly when every field is a decimal port; the list keeps the
/// given order and any duplicates, which only cause redundant re-probing.
pub fn parse_ports(s: &str) -> (r: Result<Vec<u16>, ScanError>)
    ensures
        r is Ok <==> is_port_list_str(s@),
        r matches Ok(v) ==> v@ == ports_of(s@),
        r matches Err(e) ==> e == ScanError::InvalidPort,
{
    let fields = split_str(s, ',');
    let mut out: Vec<u16> = Vec::new();
    let mut j: usize = 0;
    while j < fields.len()
        invariant
            0 <= j <= fields@.len(),
            views_of(fields@) == split_on(s@, ','),
            out@.len() == j,
            forall|k: int| 0 <= k < j ==> is_uint_str(#[trigger] split_on(s@, ',')[k], 0xffff),
            forall|k: int|
                0 <= k < j ==> out@[k] == dec_val(digits_part(#[trigger] split_on(s@, ',')[k]))
                    as u16,
        decreases fields@.len() - j,
    {
        proof {
            assert(views_of(fields@)[j as int] == fields@[j as int]@);
        }
        match parse_uint(fields[j], 0xffff) {
            Some(v) => out.push(v as u16),
            None => {
                return Err(ScanError::InvalidPort);
            },
        }
        j = j + 1;
    }
    proof {
        assert(out@ =~= ports_of(s@));
    }
    Ok(out)
}

/// A dotted-decimal octet: one to three digits, no leading zero, at most 255,
/// as std reads the fields of an IPv4 literal.
pub open spec fn is_octet_str(s: Seq<char>) -> bool {
    s.len() > 0 && all_digits(s) && dec_val(s) <= 255 && (s.len() > 1 ==> s[0] != '0')
}

/// `s` is a dotted-decimal IPv4 literal: four octets separated by dots.
pub open spec fn is_ipv4_str(s: Seq<char>) -> bool {
    let f = split_on(s, '.');
    f.len() == 4 && is_octet_str(f[0]) && is_octet_str(f[1]) && is_octet_str(f[2]) && is_octet_str(
        f[3],
    )
}

/// The 32-bit value of the IPv4 literal `s`.
pub open spec fn ipv4_val(s: Seq<char>) -> int {
    let f = split_on(s, '.');
    dec_val(f[0]) * 0x100_0000 + dec_val(f[1]) * 0x1_0000 + dec_val(f[2]) * 0x100 + dec_val(f[3])
}

/// Read one dotted-decimal octet.
fn parse_octet(s: &str) -> (r: Option<u32>)
    ensures
        r is Some <==> is_octet_str(s@),
        r matches Some(v) ==> v == dec_val(s@),
{
    let n = s.unicode_len();
    if n > 1 && s.get_char(0) == '0' {
        return None;
    }
    parse_number(s, 255)
}

/// Parse a dotted-decimal IPv4 literal.
///
/// Succeeds exactly when `s` is four dot-separated octets, each one to three
/// digits without a leading zero and at most 255.
pub fn parse_ipv4(s: &str) -> (r: Result<Ipv4, ScanError>)
    ensures
        r is Ok <==> is_ipv4_str(s@),
        r matches Ok(a) ==> a.bits == ipv4_val(s@),
        r matches Err(e) ==> e == ScanError::InvalidIpv4,
{
    let fields = split_str(s, '.');
    proof {
        assert(views_of(fields@).len() == fields@.len());
    }
    if fields.len() != 4 {
        return Err(ScanError::InvalidIpv4);
    }
    proof {
        assert forall|k: int| 0 <= k < 4 implies views_of(fields@)[k] == #[trigger] fields@[k]@
            by {}
    }
    let a = match parse_octet(fields[0]) {
        Some(v) => v,
        None => {
            return Err(ScanError::InvalidIpv4);
        },
    };
    let b = match parse_octet(fields[1]) {
        Some(v) => v,
        None => {
            return Err(ScanError::InvalidIpv4);
        },
    };
    let c = match parse_octet(fields[2]) {
        Some(v) => v,
        None => {
            return Err(ScanError::InvalidIpv4);
        },
    };
    let d = match parse_octet(fields[3]) {
        Some(v) => v,
        None => {
            return Err(ScanError::InvalidIpv4);
        },
    };
    Ok(Ipv4 { bits: a * 0x100_0000 + b * 0x1_0000 + c * 0x100 + d })
}

/// The 32-bit value of the netmask with `p` leading one bits.
pub open spec fn prefix_mask(p: int) -> int
    recommends
        0 <= p <= 32,
{
    0x1_0000_0000 - pow2((32 - p) as nat)
}

/// `m` is a contiguous netmask: some run of ones, then zeros.
pub open spec fn is_netmask_val(m: int) -> bool {
    exists|p: int| 0 <= p <= 32 && m == #[trigger] prefix_mask(p)
}

/// The prefix length a contiguous netmask stands for.
pub open spec fn netmask_prefix(m: int) -> int
    recommends
        is_netmask_val(m),
{
    choose|p: int| 0 <= p <= 32 && m == #[trigger] prefix_mask(p)
}

/// `s` names an IPv4 network: an IPv4 literal, optionally followed by one
/// `/` and either a decimal prefix of at most 32 or a contiguous netmask in
/// IPv4 notation.
pub open spec fn is_cidr_v4_str(s: Seq<char>) -> bool {
    let f = split_on(s, '/');
    if f.len() == 1 {
        is_ipv4_str(s)
    } else if f.len() == 2 {
        is_ipv4_str(f[0]) && ((is_ipv4_str(f[1]) && is_netmask_val(ipv4_val(f[1]))) || (
        !is_ipv4_str(f[1]) && is_uint_str(f[1], 32)))
    } else {
        false
    }
}

/// The address half of the network string, as written (not masked).
pub open spec fn cidr_v4_addr(s: Seq<char>) -> int {
    let f = split_on(s, '/');
    if f.len() == 1 {
        ipv4_val(s)
    } else {
        ipv4_val(f[0])
    }
}

/// The prefix length of the network string; a missing slash means a single
/// host, prefix 32.
pub open spec fn cidr_v4_prefix(s: Seq<char>) -> int {
    let f = split_on(s, '/');
    if f.len() == 1 {
        32
    } else if is_ipv4_str(f[1]) {
        netmask_prefix(ipv4_val(f[1]))
    } else {
        dec_val(digits_part(f[1]))
    }
}

/// How the network parser of the `ipnetwork` crate reads a string: an IPv4
/// network, an IPv6 network, or nothing.
#[derive(Clone, Copy, Debug, PartialEq, Eq, Structural)]
pub enum NetworkClass {
    V4 { addr: u32, prefix: u8 },
    V6,
    Invalid,
}

// What the IPv6 network parser of the `ipnetwork` crate accepts. The result
// depends on the string alone; stating the IPv6 grammar would take pages, so
// it is only named, and the contracts below speak of the name.
pub uninterp spec fn is_ipv6_network_str(s: Seq<char>) -> bool;

/// Relies on `ipnetwork::IpNetwork::from_str`: the string is split at its
/// single `/`; the address part goes through std's dotted-decimal IPv4
/// grammar; the part after the slash is either a contiguous netmask in the
/// same grammar or a decimal prefix of at most 32 in std's u8 grammar; a
/// missing slash means prefix 32. A string the IPv4 parser rejects is tried
/// against the IPv6 grammar, named `is_ipv6_network_str` here. `ip()`
/// returns the address as written, `prefix()` the prefix.
#[verifier::external_body]
fn classify_network_str(s: &str) -> (r: NetworkClass)
    ensures
        (r is V4) <==> is_cidr_v4_str(s@),
        r matches NetworkClass::V4 { addr, prefix } ==> addr == cidr_v4_addr(s@) && prefix
            == cidr_v4_prefix(s@) && prefix <= 32,
        (r is V6) <==> (!is_cidr_v4_str(s@) && is_ipv6_network_str(s@)),
{
    match s.parse::<ipnetwork::IpNetwork>() {
        Ok(ipnetwork::IpNetwork::V4(n)) => NetworkClass::V4 {
            addr: u32::from(n.ip()),
            prefix: n.prefix(),
        },
        Ok(ipnetwork::IpNetwork::V6(_)) => NetworkClass::V6,
        Err(_) => NetworkClass::Invalid,
    }
}

/// Parse an IPv4 subnet: CIDR notation ("192.168.1.0/24"), a netmask form
/// ("192.168.1.0/255.255.255.0"), or a bare address standing for one host.
///
/// Succeeds exactly on IPv4 network strings; a well-formed IPv6 network is
/// refused as unsupported, anything else as malformed. The scan never starts
/// on a refused input.
pub fn parse_subnet(s: &str) -> (r: Result<Subnet, ScanError>)
    ensures
        (r is Ok) <==> is_cidr_v4_str(s@),
        r matches Ok(sn) ==> sn.network.bits == cidr_v4_addr(s@) && sn.prefix == cidr_v4_prefix(
            s@,
        ) && sn.wf(),
        r matches Err(e) ==> e == ScanError::InvalidCidr || e == ScanError::UnsupportedFamily,
        r matches Err(e) ==> (e == ScanError::UnsupportedFamily <==> (!is_cidr_v4_str(s@)
            && is_ipv6_network_str(s@))),
{
    match classify_network_str(s) {
        NetworkClass::V4 { addr, prefix } => Ok(Subnet { network: Ipv4 { bits: addr }, prefix }),
        NetworkClass::V6 => Err(ScanError::UnsupportedFamily),
        NetworkClass::Invalid => Err(ScanError::InvalidCidr),
    }
}

} // verus!
