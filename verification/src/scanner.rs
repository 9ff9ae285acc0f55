//! Probe outcomes and the result aggregator shared by the two scanners.
//!
//! Workers probe independent endpoints and push each success into a shared
//! `ResultSet`; once every probe has completed, the set is finalized into a
//! sequence sorted in ascending natural order. Completion order is arbitrary,
//! so the one guarantee that matters is proved here: finalizing collections
//! that recorded the same outcomes, in any order, gives the same result.

pub mod address;
pub mod port;

use vstd::prelude::*;
use vstd::relations::total_ordering;
use vstd::seq_lib::{lemma_sorted_unique, lemma_multiset_commutative};
use crate::net::Ipv4;

verus! {

/// The classified result of one probe: a completed TCP handshake on a port, a
/// reachable address, or any failure (refusal, timeout, resolution failure),
/// which all collapse into `Unreachable`.
#[derive(Clone, Copy, Debug, PartialEq, Eq, Structural)]
pub enum ProbeOutcome {
    Open { port: u16 },
    Reachable { address: Ipv4 },
    Unreachable,
}

/// The values whose probes succeeded, in enumeration order: `vals[i]` is kept
/// exactly when `keep[i]` holds.
pub open spec fn selected<T>(vals: Seq<T>, keep: Seq<bool>) -> Seq<T>
    recommends
        vals.len() == keep.len(),
    decreases vals.len(),
{
    if vals.len() == 0 || keep.len() == 0 {
        Seq::empty()
    } else if keep.last() {
        selected(vals.drop_last(), keep.drop_last()).push(vals.last())
    } else {
        selected(vals.drop_last(), keep.drop_last())
    }
}

pub proof fn lemma_selected_push<T>(vals: Seq<T>, keep: Seq<bool>, v: T, b: bool)
    requires
        vals.len() == keep.len(),
    ensures
        b ==> selected(vals.push(v), keep.push(b)) == selected(vals, keep).push(v),
        !b ==> selected(vals.push(v), keep.push(b)) == selected(vals, keep),
{
    assert(vals.push(v).drop_last() =~= vals);
    assert(keep.push(b).drop_last() =~= keep);
}

/// Inserting anywhere in a sequence adds exactly one copy of the element to
/// its multiset.
pub proof fn lemma_insert_to_multiset<T>(s: Seq<T>, k: int, x: T)
    requires
        0 <= k <= s.len(),
    ensures
        s.insert(k, x).to_multiset() == s.to_multiset().insert(x),
{
    broadcast use vstd::seq_lib::group_to_multiset_ensures;
    broadcast use vstd::multiset::group_multiset_axioms;

    let front = s.subrange(0, k);
    let back = s.subrange(k, s.len() as int);
    assert(s.insert(k, x) =~= front.push(x) + back);
    lemma_multiset_commutative(front.push(x), back);
    assert(s =~= front + back);
    lemma_multiset_commutative(front, back);
    assert(s.insert(k, x).to_multiset() =~= s.to_multiset().insert(x));
}

/// The shared collection of one scan's successful probe values. Workers
/// record into it (under mutual exclusion, which the caller provides) while
/// probes run; after the last probe it is finalized into a sorted sequence
/// and never reused.
pub struct ResultSet<T> {
    values: Vec<T>,
}

impl<T> View for ResultSet<T> {
    type V = Seq<T>;

    closed spec fn view(&self) -> Seq<T> {
        self.values@
    }
}

impl<T> ResultSet<T> {
    /// The empty collection a scan starts from.
    pub fn new() -> (r: ResultSet<T>)
        ensures
            r@ == Seq::<T>::empty(),
    {
        ResultSet { values: Vec::new() }
    }

    /// Record the carried value of one successful probe.
    pub fn record(&mut self, value: T)
        ensures
            final(self)@ == old(self)@.push(value),
    {
        self.values.push(value);
    }

    /// How many successes have been recorded so far.
    pub fn len(&self) -> (r: usize)
        ensures
            r == self@.len(),
    {
        self.values.len()
    }

    /// Hand the recorded values over for finalization.
    pub fn into_values(self) -> (r: Vec<T>)
        ensures
            r@ == self@,
    {
        self.values
    }
}

/// Scanning is idempotent: the pipeline's result is pinned to a function of
/// the enumerated values and the probe outcomes alone, so two runs against
/// the same targets with the same outcomes finalize to the same sequence —
/// both empty when nothing was reachable, both the same singleton for one
/// reachable endpoint.
pub proof fn lemma_scan_deterministic<T>(
    vals: Seq<T>,
    keep: Seq<bool>,
    leq: spec_fn(T, T) -> bool,
    r1: Seq<T>,
    r2: Seq<T>,
)
    requires
        r1 == selected(vals, keep).sort_by(leq),
        r2 == selected(vals, keep).sort_by(leq),
    ensures
        r1 == r2,
{
}

/// Finalized results do not depend on the order in which workers completed:
/// any two recording orders of the same outcomes sort to the same sequence.
pub proof fn lemma_finalize_order_insensitive<T>(a: Seq<T>, b: Seq<T>, leq: spec_fn(T, T) -> bool)
    requires
        total_ordering(leq),
        a.to_multiset() == b.to_multiset(),
    ensures
        a.sort_by(leq) == b.sort_by(leq),
{
    a.lemma_sort_by_ensures(leq);
    b.lemma_sort_by_ensures(leq);
    lemma_sorted_unique(a.sort_by(leq), b.sort_by(leq), leq);
}

} // verus!
