//! The port scanner's verified decisions: probe classification, the liveness
//! verdict for the scanned host, and aggregation of open ports.
//!
//! The TCP connection attempts themselves are I/O and live with the caller;
//! every function here takes the bare fact of whether a connection completed
//! and decides the rest.

use vstd::prelude::*;
use vstd::relations::{sorted_by, total_ordering};
use vstd::seq_lib::lemma_sorted_unique;
use crate::scanner::{
    ProbeOutcome, ResultSet, selected, lemma_selected_push, lemma_insert_to_multiset,
};

verus! {

/// Ports compare by their number: the ascending order of finalized results.
pub open spec fn port_order() -> spec_fn(u16, u16) -> bool {
    |a: u16, b: u16| a <= b
}

pub proof fn lemma_port_order_total()
    ensures
        total_ordering(port_order()),
{
    let leq = port_order();
    assert forall|x: u16| #[trigger] leq(x, x) by {}
    assert forall|x: u16, y: u16| #[trigger] leq(x, y) && #[trigger] leq(y, x) implies x == y by {}
    assert forall|x: u16, y: u16, z: u16| #[trigger] leq(x, y) && #[trigger] leq(y, z) implies leq(
        x,
        z,
    ) by {}
    assert forall|x: u16, y: u16| #[trigger] leq(x, y) || #[trigger] leq(y, x) by {}
}

/// Classify one port probe: a completed TCP handshake means the port is
/// open; refusal, timeout and resolution failure all mean `Unreachable`.
pub fn classify_port_probe(port: u16, connected: bool) -> (r: ProbeOutcome)
    ensures
        connected ==> r == (ProbeOutcome::Open { port }),
        !connected ==> r == ProbeOutcome::Unreachable,
{
    if connected {
        ProbeOutcome::Open { port }
    } else {
        ProbeOutcome::Unreachable
    }
}

/// The host-liveness verdict taken before a port scan: a host counts as
/// online when the TCP probe of its port 80 completed or, failing that, when
/// its name resolved to at least one address. The fallback can call a host
/// online that no probe can reach; that reading is deliberate.
pub fn liveness_verdict(connected: bool, resolves: bool) -> (r: bool)
    ensures
        r == (connected || resolves),
{
    connected || resolves
}

/// Sort ports ascending: the unique sorted permutation of the input.
#[verifier::loop_isolation(false)]
pub fn sort_ports(v: Vec<u16>) -> (r: Vec<u16>)
    ensures
        r@ == v@.sort_by(port_order()),
        sorted_by(r@, port_order()),
        r@.to_multiset() == v@.to_multiset(),
{
    broadcast use vstd::seq_lib::group_to_multiset_ensures;

    let mut out: Vec<u16> = Vec::new();
    proof {
        assert(v@.subrange(0, 0) =~= Seq::<u16>::empty());
    }
    let mut i: usize = 0;
    while i < v.len()
        invariant
            i <= v@.len(),
            sorted_by(out@, port_order()),
            out@.to_multiset() == v@.subrange(0, i as int).to_multiset(),
        decreases v@.len() - i,
    {
        let x = v[i];
        let mut k: usize = 0;
        while k < out.len() && out[k] <= x
            invariant
                k <= out@.len(),
                forall|j: int| 0 <= j < k ==> out@[j] <= x,
            decreases out@.len() - k,
        {
            k = k + 1;
        }
        let ghost o = out@;
        out.insert(k, x);
        proof {
            o.insert_ensures(k as int, x);
            lemma_insert_to_multiset(o, k as int, x);
            assert forall|p: int, q: int|
                0 <= p < q < out@.len() implies port_order()(out@[p], out@[q]) by {
                if q < k {
                    assert(out@[p] == o[p] && out@[q] == o[q]);
                } else if q == k {
                    assert(out@[p] == o[p] && out@[q] == x);
                } else if p < k {
                    assert(out@[p] == o[p] && out@[q] == o[q - 1] && q - 1 >= k);
                    if q - 1 > k {
                        assert(port_order()(o[k as int], o[q - 1]));
                    }
                } else if p == k {
                    assert(out@[p] == x && out@[q] == o[q - 1] && q - 1 >= k);
                    if q - 1 > k {
                        assert(port_order()(o[k as int], o[q - 1]));
                    }
                } else {
                    assert(out@[p] == o[p - 1] && out@[q] == o[q - 1]);
                }
            }
            assert(v@.subrange(0, i as int + 1) =~= v@.subrange(0, i as int).push(x));
        }
        i = i + 1;
    }
    proof {
        assert(v@.subrange(0, v@.len() as int) =~= v@);
        lemma_port_order_total();
        v@.lemma_sort_by_ensures(port_order());
        lemma_sorted_unique(out@, v@.sort_by(port_order()), port_order());
    }
    out
}

impl ResultSet<u16> {
    /// Finalize a port scan: the recorded open ports, ascending.
    pub fn finalize(self) -> (r: Vec<u16>)
        ensures
            r@ == self@.sort_by(port_order()),
            sorted_by(r@, port_order()),
            r@.to_multiset() == self@.to_multiset(),
    {
        sort_ports(self.into_values())
    }
}

/// The port-scan pipeline's decision core: given each enumerated port and
/// whether its probe completed, classify every outcome, aggregate the open
/// ports, and finalize them in ascending order. The result is a function of
/// the inputs alone, so repeating a scan with the same outcomes repeats the
/// result.
#[verifier::loop_isolation(false)]
pub fn scan_ports_given(ports: &Vec<u16>, open: &Vec<bool>) -> (r: Vec<u16>)
    requires
        open@.len() == ports@.len(),
    ensures
        r@ == selected(ports@, open@).sort_by(port_order()),
        sorted_by(r@, port_order()),
        r@.to_multiset() == selected(ports@, open@).to_multiset(),
{
    let mut results = ResultSet::<u16>::new();
    proof {
        assert(ports@.subrange(0, 0) =~= Seq::<u16>::empty());
        assert(open@.subrange(0, 0) =~= Seq::<bool>::empty());
    }
    let mut i: usize = 0;
    while i < ports.len()
        invariant
            i <= ports@.len(),
            results@ == selected(ports@.subrange(0, i as int), open@.subrange(0, i as int)),
        decreases ports@.len() - i,
    {
        let outcome = classify_port_probe(ports[i], open[i]);
        match outcome {
            ProbeOutcome::Open { port } => results.record(port),
            _ => {},
        }
        proof {
            lemma_selected_push(
                ports@.subrange(0, i as int),
                open@.subrange(0, i as int),
                ports@[i as int],
                open@[i as int],
            );
            assert(ports@.subrange(0, i as int + 1) =~= ports@.subrange(0, i as int).push(
                ports@[i as int],
            ));
            assert(open@.subrange(0, i as int + 1) =~= open@.subrange(0, i as int).push(
                open@[i as int],
            ));
        }
        i = i + 1;
    }
    proof {
        assert(ports@.subrange(0, ports@.len() as int) =~= ports@);
        assert(open@.subrange(0, open@.len() as int) =~= open@);
    }
    results.finalize()
}

} // verus!
