//! The address scanner's verified decisions: probe classification and
//! aggregation of reachable addresses for range and subnet scans.

use vstd::prelude::*;
use vstd::relations::{sorted_by, total_ordering};
use vstd::seq_lib::lemma_sorted_unique;
use vstd::arithmetic::power2::{lemma_pow2_strictly_increases, lemma2_to64};
use vstd::bits::lemma_u64_shl_is_mul;
use crate::net::Ipv4;
use crate::scanner::{
    ProbeOutcome, ResultSet, selected, lemma_selected_push, lemma_insert_to_multiset,
};
use crate::target::{Subnet, range_addr_seq, subnet_addr_seq, lemma_subnet_bounds};

verus! {

/// Addresses compare by their 32-bit value: the ascending order of finalized
/// results.
pub open spec fn addr_order() -> spec_fn(Ipv4, Ipv4) -> bool {
    |a: Ipv4, b: Ipv4| a.bits <= b.bits
}

pub proof fn lemma_addr_order_total()
    ensures
        total_ordering(addr_order()),
{
    let leq = addr_order();
    assert forall|x: Ipv4| #[trigger] leq(x, x) by {}
    assert forall|x: Ipv4, y: Ipv4| #[trigger] leq(x, y) && #[trigger] leq(y, x) implies x == y
        by {}
    assert forall|x: Ipv4, y: Ipv4, z: Ipv4|
        #[trigger] leq(x, y) && #[trigger] leq(y, z) implies leq(x, z) by {}
    assert forall|x: Ipv4, y: Ipv4| #[trigger] leq(x, y) || #[trigger] leq(y, x) by {}
}

/// Classify one address probe: a completed TCP handshake on the liveness
/// port means the address is reachable; any failure means `Unreachable`.
pub fn classify_address_probe(address: Ipv4, connected: bool) -> (r: ProbeOutcome)
    ensures
        connected ==> r == (ProbeOutcome::Reachable { address }),
        !connected ==> r == ProbeOutcome::Unreachable,
{
    if connected {
        ProbeOutcome::Reachable { address }
    } else {
        ProbeOutcome::Unreachable
    }
}

/// Sort addresses ascending by numeric value: the unique sorted permutation
/// of the input.
#[verifier::loop_isolation(false)]
pub fn sort_addresses(v: Vec<Ipv4>) -> (r: Vec<Ipv4>)
    ensures
        r@ == v@.sort_by(addr_order()),
        sorted_by(r@, addr_order()),
        r@.to_multiset() == v@.to_multiset(),
{
    broadcast use vstd::seq_lib::group_to_multiset_ensures;

    let mut out: Vec<Ipv4> = Vec::new();
    proof {
        assert(v@.subrange(0, 0) =~= Seq::<Ipv4>::empty());
    }
    let mut i: usize = 0;
    while i < v.len()
        invariant
            i <= v@.len(),
            sorted_by(out@, addr_order()),
            out@.to_multiset() == v@.subrange(0, i as int).to_multiset(),
        decreases v@.len() - i,
    {
        let x = v[i];
        let mut k: usize = 0;
        while k < out.len() && out[k].bits <= x.bits
            invariant
                k <= out@.len(),
                forall|j: int| 0 <= j < k ==> out@[j].bits <= x.bits,
            decreases out@.len() - k,
        {
            k = k + 1;
        }
        let ghost o = out@;
        out.insert(k, x);
        proof {
            o.insert_ensures(k as int, x);
            lemma_insert_to_multiset(o, k as int, x);
            assert forall|p: int, q: int|
                0 <= p < q < out@.len() implies addr_order()(out@[p], out@[q]) by {
                if q < k {
                    assert(out@[p] == o[p] && out@[q] == o[q]);
                } else if q == k {
                    assert(out@[p] == o[p] && out@[q] == x);
                } else if p < k {
                    assert(out@[p] == o[p] && out@[q] == o[q - 1] && q - 1 >= k);
                    if q - 1 > k {
                        assert(addr_order()(o[k as int], o[q - 1]));
                    }
                } else if p == k {
                    assert(out@[p] == x && out@[q] == o[q - 1] && q - 1 >= k);
                    if q - 1 > k {
                        assert(addr_order()(o[k as int], o[q - 1]));
                    }
                } else {
                    assert(out@[p] == o[p - 1] && out@[q] == o[q - 1]);
                }
            }
            assert(v@.subrange(0, i as int + 1) =~= v@.subrange(0, i as int).push(x));
        }
        i = i + 1;
    }
    proof {
        assert(v@.subrange(0, v@.len() as int) =~= v@);
        lemma_addr_order_total();
        v@.lemma_sort_by_ensures(addr_order());
        lemma_sorted_unique(out@, v@.sort_by(addr_order()), addr_order());
    }
    out
}

impl ResultSet<Ipv4> {
    /// Finalize an address scan: the recorded reachable addresses, ascending.
    pub fn finalize(self) -> (r: Vec<Ipv4>)
        ensures
            r@ == self@.sort_by(addr_order()),
            sorted_by(r@, addr_order()),
            r@.to_multiset() == self@.to_multiset(),
    {
        sort_addresses(self.into_values())
    }
}

/// The address-range pipeline's decision core: given each address of the
/// inclusive range and whether its probe completed, classify every outcome,
/// aggregate the reachable addresses, and finalize them in ascending order.
/// An inverted range has no addresses and yields an empty result, not an
/// error. The result is a function of the inputs alone, so repeating a scan
/// with the same outcomes repeats the result.
#[verifier::loop_isolation(false)]
pub fn scan_range_given(start: Ipv4, end: Ipv4, reachable: &Vec<bool>) -> (r: Vec<Ipv4>)
    requires
        reachable@.len() == range_addr_seq(start, end).len(),
    ensures
        r@ == selected(range_addr_seq(start, end), reachable@).sort_by(addr_order()),
        sorted_by(r@, addr_order()),
        r@.to_multiset() == selected(range_addr_seq(start, end), reachable@).to_multiset(),
{
    let ghost addrs = range_addr_seq(start, end);
    let mut results = ResultSet::<Ipv4>::new();
    proof {
        assert(addrs.subrange(0, 0) =~= Seq::<Ipv4>::empty());
        assert(reachable@.subrange(0, 0) =~= Seq::<bool>::empty());
    }
    let n = reachable.len();
    let mut i: usize = 0;
    while i < n
        invariant
            i <= n,
            results@ == selected(addrs.subrange(0, i as int), reachable@.subrange(0, i as int)),
        decreases n - i,
    {
        proof {
            assert(start.bits <= end.bits);
        }
        let addr = Ipv4 { bits: start.bits + (i as u32) };
        match classify_address_probe(addr, reachable[i]) {
            ProbeOutcome::Reachable { address } => results.record(address),
            _ => {},
        }
        proof {
            assert(addrs[i as int] == addr);
            lemma_selected_push(
                addrs.subrange(0, i as int),
                reachable@.subrange(0, i as int),
                addr,
                reachable@[i as int],
            );
            assert(addrs.subrange(0, i as int + 1) =~= addrs.subrange(0, i as int).push(addr));
            assert(reachable@.subrange(0, i as int + 1) =~= reachable@.subrange(0, i as int).push(
                reachable@[i as int],
            ));
        }
        i = i + 1;
    }
    proof {
        assert(addrs.subrange(0, addrs.len() as int) =~= addrs);
        assert(reachable@.subrange(0, reachable@.len() as int) =~= reachable@);
    }
    results.finalize()
}

/// An inverted address range scans to an empty result, not an error: it
/// enumerates no addresses, so whatever the workers did, finalization hands
/// back the empty sequence.
pub proof fn lemma_inverted_range_scans_empty(start: Ipv4, end: Ipv4, r: Seq<Ipv4>)
    requires
        start.bits > end.bits,
        r == selected(range_addr_seq(start, end), Seq::<bool>::empty()).sort_by(addr_order()),
    ensures
        r == Seq::<Ipv4>::empty(),
{
    broadcast use vstd::seq_lib::group_to_multiset_ensures;

    let s = selected(range_addr_seq(start, end), Seq::<bool>::empty());
    assert(s =~= Seq::<Ipv4>::empty());
    lemma_addr_order_total();
    s.lemma_sort_by_ensures(addr_order());
    assert(s.sort_by(addr_order()).to_multiset().len() == 0);
    assert(r =~= Seq::<Ipv4>::empty());
}

/// The subnet pipeline's decision core: given each address of the subnet,
/// network and broadcast addresses included, and whether its probe
/// completed, aggregate the reachable addresses in ascending order. The
/// result is a function of the inputs alone.
#[verifier::loop_isolation(false)]
pub fn scan_subnet_given(subnet: &Subnet, reachable: &Vec<bool>) -> (r: Vec<Ipv4>)
    requires
        subnet.wf(),
        reachable@.len() == subnet_addr_seq(subnet.network, subnet.prefix as int).len(),
    ensures
        r@ == selected(
            subnet_addr_seq(subnet.network, subnet.prefix as int),
            reachable@,
        ).sort_by(addr_order()),
        sorted_by(r@, addr_order()),
        r@.to_multiset() == selected(
            subnet_addr_seq(subnet.network, subnet.prefix as int),
            reachable@,
        ).to_multiset(),
{
    let ghost addrs = subnet_addr_seq(subnet.network, subnet.prefix as int);
    let shift: u64 = (32 - subnet.prefix) as u64;
    proof {
        lemma2_to64();
        if shift < 32 {
            lemma_pow2_strictly_increases(shift as nat, 32);
        }
        lemma_u64_shl_is_mul(1u64, shift);
        lemma_subnet_bounds(subnet.network.bits, subnet.prefix as int);
    }
    let size: u64 = 1u64 << shift;
    let addr64: u64 = subnet.network.bits as u64;
    let base: u64 = addr64 - addr64 % size;
    let mut results = ResultSet::<Ipv4>::new();
    proof {
        assert(addrs.subrange(0, 0) =~= Seq::<Ipv4>::empty());
        assert(reachable@.subrange(0, 0) =~= Seq::<bool>::empty());
    }
    let n = reachable.len();
    let mut i: usize = 0;
    while i < n
        invariant
            i <= n,
            results@ == selected(addrs.subrange(0, i as int), reachable@.subrange(0, i as int)),
        decreases n - i,
    {
        let addr = Ipv4 { bits: (base + i as u64) as u32 };
        match classify_address_probe(addr, reachable[i]) {
            ProbeOutcome::Reachable { address } => results.record(address),
            _ => {},
        }
        proof {
            assert(addrs[i as int] == addr);
            lemma_selected_push(
                addrs.subrange(0, i as int),
                reachable@.subrange(0, i as int),
                addr,
                reachable@[i as int],
            );
            assert(addrs.subrange(0, i as int + 1) =~= addrs.subrange(0, i as int).push(addr));
            assert(reachable@.subrange(0, i as int + 1) =~= reachable@.subrange(0, i as int).push(
                reachable@[i as int],
            ));
        }
        i = i + 1;
    }
    proof {
        assert(addrs.subrange(0, addrs.len() as int) =~= addrs);
        assert(reachable@.subrange(0, reachable@.len() as int) =~= reachable@);
    }
    results.finalize()
}

} // verus!
