//! Target spaces and their enumeration into probe units.
//!
//! A scan request names a space of endpoints: a port range or list on one
//! host, a single address, an inclusive address range, or a subnet. The
//! enumerator expands the space into a finite ordered sequence of probe
//! units, purely from the bounds, so enumeration is deterministic and
//! restartable. An inverted range is an empty space, not an error.

use vstd::prelude::*;
use vstd::arithmetic::power2::{pow2, lemma_pow2_pos, lemma_pow2_adds, lemma_pow2_strictly_increases, lemma2_to64};
use vstd::arithmetic::div_mod::{lemma_fundamental_div_mod, lemma_mod_bound};
use vstd::bits::lemma_u64_shl_is_mul;
use crate::net::Ipv4;

verus! {

/// One concrete endpoint to probe: a port on the scan's host, or an address
/// probed on its liveness port.
#[derive(Clone, Copy, Debug, PartialEq, Eq, Structural)]
pub enum ProbeUnit {
    Port { port: u16 },
    Host { address: Ipv4 },
}

/// An IPv4 subnet: an address inside it and the prefix length. The network
/// and broadcast addresses are derived, so the held address need not be
/// masked.
#[derive(Clone, Copy, Debug, PartialEq, Eq, Structural)]
pub struct Subnet {
    pub network: Ipv4,
    pub prefix: u8,
}

impl Subnet {
    /// Only prefix lengths up to 32 describe an IPv4 subnet.
    pub open spec fn wf(self) -> bool {
        self.prefix <= 32
    }
}

/// The number of addresses in a subnet of the given prefix length.
pub open spec fn subnet_size(prefix: int) -> int
    recommends
        0 <= prefix <= 32,
{
    pow2((32 - prefix) as nat) as int
}

/// The network address of the subnet holding `addr`: `addr` rounded down to a
/// multiple of the subnet size.
pub open spec fn subnet_base(addr: u32, prefix: int) -> int
    recommends
        0 <= prefix <= 32,
{
    addr - (addr as int % subnet_size(prefix))
}

/// The broadcast address of the subnet holding `addr`: the last address of
/// the block.
pub open spec fn subnet_broadcast(addr: u32, prefix: int) -> int
    recommends
        0 <= prefix <= 32,
{
    subnet_base(addr, prefix) + subnet_size(prefix) - 1
}

/// The subnet block around any address stays within the 32-bit address
/// space and contains the address.
pub proof fn lemma_subnet_bounds(addr: u32, prefix: int)
    requires
        0 <= prefix <= 32,
    ensures
        1 <= subnet_size(prefix) <= 0x1_0000_0000,
        0 <= subnet_base(addr, prefix) <= addr,
        addr <= subnet_broadcast(addr, prefix) <= 0xffff_ffff,
{
    let k = (32 - prefix) as nat;
    let size = subnet_size(prefix);
    lemma_pow2_pos(k);
    lemma_pow2_adds(k, prefix as nat);
    lemma2_to64();
    assert(pow2(k) * pow2(prefix as nat) == 0x1_0000_0000);
    assert(size <= 0x1_0000_0000) by (nonlinear_arith)
        requires
            size * pow2(prefix as nat) == 0x1_0000_0000,
            size >= 1,
            pow2(prefix as nat) >= 1,
    ;
    lemma_fundamental_div_mod(addr as int, size);
    lemma_mod_bound(addr as int, size);
    let q = addr as int / size;
    let r = addr as int % size;
    let p2p = pow2(prefix as nat) as int;
    assert(q >= 0) by (nonlinear_arith)
        requires
            addr as int == size * q + r,
            addr >= 0,
            0 <= r < size,
            size >= 1,
    ;
    assert(q < p2p) by (nonlinear_arith)
        requires
            size * q + r == addr as int,
            addr < 0x1_0000_0000,
            size * p2p == 0x1_0000_0000,
            0 <= r < size,
            size >= 1,
            q >= 0,
    ;
    assert(size * (q + 1) <= size * p2p) by (nonlinear_arith)
        requires
            q + 1 <= p2p,
            size >= 1,
    ;
    assert(size * (q + 1) == size * q + size) by (nonlinear_arith);
    assert(subnet_base(addr, prefix) == size * q);
}

/// The ports of an inclusive range, ascending; empty when inverted.
pub open spec fn port_range_seq(start: u16, end: u16) -> Seq<u16> {
    if start > end {
        Seq::empty()
    } else {
        Seq::new((end - start + 1) as nat, |i: int| (start + i) as u16)
    }
}

/// The addresses of an inclusive range, ascending by numeric value; empty
/// when inverted.
pub open spec fn range_addr_seq(start: Ipv4, end: Ipv4) -> Seq<Ipv4> {
    if start.bits > end.bits {
        Seq::empty()
    } else {
        Seq::new((end.bits - start.bits + 1) as nat, |i: int| Ipv4 { bits: (start.bits + i) as u32 })
    }
}

/// Every address of the subnet around `network`, ascending, from the network
/// address to the broadcast address inclusive.
pub open spec fn subnet_addr_seq(network: Ipv4, prefix: int) -> Seq<Ipv4>
    recommends
        0 <= prefix <= 32,
{
    Seq::new(
        subnet_size(prefix) as nat,
        |i: int| Ipv4 { bits: (subnet_base(network.bits, prefix) + i) as u32 },
    )
}

/// A space of endpoints to scan, one variant per request shape.
#[derive(Debug)]
#[allow(inconsistent_fields)]
pub enum TargetSpace {
    /// Every port from `start` to `end` inclusive on the scan's host.
    PortRange { start: u16, end: u16 },
    /// The listed ports, order and duplicates kept.
    PortList { ports: Vec<u16> },
    /// One address.
    SingleHost { address: Ipv4 },
    /// Every address from `start` to `end` inclusive.
    HostRange { start: Ipv4, end: Ipv4 },
    /// Every address of a subnet, network and broadcast addresses included.
    Subnet { subnet: Subnet },
}

impl TargetSpace {
    /// The one constraint a target space carries: a subnet prefix fits IPv4.
    pub open spec fn wf(self) -> bool {
        match self {
            TargetSpace::Subnet { subnet } => subnet.wf(),
            _ => true,
        }
    }

    /// The ordered sequence of probe units this space stands for.
    pub open spec fn unit_seq(self) -> Seq<ProbeUnit>
        recommends
            self.wf(),
    {
        match self {
            TargetSpace::PortRange { start, end } => port_range_seq(start, end).map_values(
                |p: u16| ProbeUnit::Port { port: p },
            ),
            TargetSpace::PortList { ports } => ports@.map_values(
                |p: u16| ProbeUnit::Port { port: p },
            ),
            TargetSpace::SingleHost { address } => seq![ProbeUnit::Host { address }],
            TargetSpace::HostRange { start, end } => range_addr_seq(start, end).map_values(
                |a: Ipv4| ProbeUnit::Host { address: a },
            ),
            TargetSpace::Subnet { subnet } => subnet_addr_seq(
                subnet.network,
                subnet.prefix as int,
            ).map_values(|a: Ipv4| ProbeUnit::Host { address: a }),
        }
    }

    /// How many probe units the space enumerates.
    pub fn unit_count(&self) -> (r: u64)
        requires
            self.wf(),
        ensures
            r == self.unit_seq().len(),
    {
        match self {
            TargetSpace::PortRange { start, end } => {
                if *start > *end {
                    0
                } else {
                    (*end - *start) as u64 + 1
                }
            },
            TargetSpace::PortList { ports } => ports.len() as u64,
            TargetSpace::SingleHost { address: _ } => 1,
            TargetSpace::HostRange { start, end } => {
                if start.bits > end.bits {
                    0
                } else {
                    (end.bits - start.bits) as u64 + 1
                }
            },
            TargetSpace::Subnet { subnet } => {
                let shift: u64 = (32 - subnet.prefix) as u64;
                proof {
                    lemma2_to64();
                    if shift < 32 {
                        lemma_pow2_strictly_increases(shift as nat, 32);
                    }
                    lemma_u64_shl_is_mul(1u64, shift);
                }
                1u64 << shift
            },
        }
    }

    /// The `i`-th probe unit of the space.
    pub fn unit_at(&self, i: u64) -> (r: ProbeUnit)
        requires
            self.wf(),
            i < self.unit_seq().len(),
        ensures
            r == self.unit_seq()[i as int],
    {
        match self {
            TargetSpace::PortRange { start, end } => {
                proof {
                    assert(port_range_seq(*start, *end)[i as int] == (*start + i) as u16);
                    assert(self.unit_seq()[i as int] == (ProbeUnit::Port {
                        port: port_range_seq(*start, *end)[i as int],
                    }));
                }
                ProbeUnit::Port { port: ((*start as u32) + (i as u32)) as u16 }
            },
            TargetSpace::PortList { ports } => {
                let m: usize = ports.len();
                proof {
                    assert(i < m);
                    assert(self.unit_seq()[i as int] == (ProbeUnit::Port {
                        port: ports@[i as int],
                    }));
                }
                ProbeUnit::Port { port: ports[i as usize] }
            },
            TargetSpace::SingleHost { address } => {
                proof {
                    assert(self.unit_seq()[0] == (ProbeUnit::Host { address: *address }));
                }
                ProbeUnit::Host { address: *address }
            },
            TargetSpace::HostRange { start, end } => {
                proof {
                    assert(range_addr_seq(*start, *end)[i as int] == (Ipv4 {
                        bits: (start.bits + i) as u32,
                    }));
                    assert(self.unit_seq()[i as int] == (ProbeUnit::Host {
                        address: range_addr_seq(*start, *end)[i as int],
                    }));
                }
                let bits: u64 = start.bits as u64 + i;
                ProbeUnit::Host { address: Ipv4 { bits: bits as u32 } }
            },
            TargetSpace::Subnet { subnet } => {
                let shift: u64 = (32 - subnet.prefix) as u64;
                proof {
                    lemma2_to64();
                    if shift < 32 {
                        lemma_pow2_strictly_increases(shift as nat, 32);
                    }
                    lemma_u64_shl_is_mul(1u64, shift);
                    lemma_subnet_bounds(subnet.network.bits, subnet.prefix as int);
                    assert(subnet_addr_seq(subnet.network, subnet.prefix as int)[i as int]
                        == (Ipv4 {
                        bits: (subnet_base(subnet.network.bits, subnet.prefix as int) + i) as u32,
                    }));
                    assert(self.unit_seq()[i as int] == (ProbeUnit::Host {
                        address: subnet_addr_seq(subnet.network, subnet.prefix as int)[i as int],
                    }));
                }
                let size: u64 = 1u64 << shift;
                let addr: u64 = subnet.network.bits as u64;
                let base: u64 = addr - addr % size;
                ProbeUnit::Host { address: Ipv4 { bits: (base + i) as u32 } }
            },
        }
    }
}

/// An inverted port range enumerates nothing.
pub proof fn lemma_port_range_empty(start: u16, end: u16)
    requires
        start > end,
    ensures
        (TargetSpace::PortRange { start, end }).unit_seq().len() == 0,
{
}

/// A proper port range enumerates exactly `end - start + 1` ports, strictly
/// ascending, covering every port of `[start, end]`.
pub proof fn lemma_port_range_enumeration(start: u16, end: u16)
    requires
        start <= end,
    ensures
        (TargetSpace::PortRange { start, end }).unit_seq().len() == end - start + 1,
        forall|i: int|
            0 <= i <= end - start ==> (TargetSpace::PortRange { start, end }).unit_seq()[i]
                == (ProbeUnit::Port { port: (start + i) as u16 }),
        forall|i: int, j: int|
            0 <= i < j <= end - start ==> (TargetSpace::PortRange { start, end }).unit_seq()[i]->port
                < (TargetSpace::PortRange { start, end }).unit_seq()[j]->port,
        forall|p: u16|
            start <= p <= end ==> (TargetSpace::PortRange { start, end }).unit_seq().contains(
                ProbeUnit::Port { port: p },
            ),
{
    let s = (TargetSpace::PortRange { start, end }).unit_seq();
    assert forall|p: u16| start <= p <= end implies s.contains(ProbeUnit::Port { port: p }) by {
        assert(s[p - start] == ProbeUnit::Port { port: p });
    }
}

/// An inverted address range enumerates nothing; it is an empty space, not an
/// error.
pub proof fn lemma_host_range_empty(start: Ipv4, end: Ipv4)
    requires
        start.bits > end.bits,
    ensures
        (TargetSpace::HostRange { start, end }).unit_seq().len() == 0,
{
}

/// A proper address range enumerates every address of `[start, end]` in
/// ascending numeric order.
pub proof fn lemma_host_range_enumeration(start: Ipv4, end: Ipv4)
    requires
        start.bits <= end.bits,
    ensures
        (TargetSpace::HostRange { start, end }).unit_seq().len() == end.bits - start.bits + 1,
        forall|i: int|
            0 <= i <= end.bits - start.bits ==> (TargetSpace::HostRange { start, end }).unit_seq()[i]
                == (ProbeUnit::Host { address: Ipv4 { bits: (start.bits + i) as u32 } }),
{
}

/// A subnet enumerates exactly `2^(32 - prefix)` addresses, ascending, the
/// first being the network address and the last the broadcast address.
pub proof fn lemma_subnet_enumeration(network: Ipv4, prefix: u8)
    requires
        prefix <= 32,
    ensures
        (TargetSpace::Subnet { subnet: Subnet { network, prefix } }).unit_seq().len() == pow2(
            (32 - prefix) as nat,
        ),
        forall|i: int|
            0 <= i < subnet_size(prefix as int) ==> (TargetSpace::Subnet {
                subnet: Subnet { network, prefix },
            }).unit_seq()[i] == (ProbeUnit::Host {
                address: Ipv4 { bits: (subnet_base(network.bits, prefix as int) + i) as u32 },
            }),
        (TargetSpace::Subnet { subnet: Subnet { network, prefix } }).unit_seq()[0]
            == (ProbeUnit::Host {
                address: Ipv4 { bits: subnet_base(network.bits, prefix as int) as u32 },
            }),
        (TargetSpace::Subnet { subnet: Subnet { network, prefix } }).unit_seq()[subnet_size(
            prefix as int,
        ) - 1] == (ProbeUnit::Host {
            address: Ipv4 { bits: subnet_broadcast(network.bits, prefix as int) as u32 },
        }),
{
    lemma_subnet_bounds(network.bits, prefix as int);
}

} // verus!
