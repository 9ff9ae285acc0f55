//! The library's model of an IPv4 address: its 32-bit numeric value.
//!
//! Addresses are ordered and enumerated by this value, so the scanner's
//! contracts all speak of `bits` directly.

use vstd::prelude::*;

verus! {

/// An IPv4 address, held as the 32-bit integer whose big-endian bytes are the
/// four octets of the dotted-decimal form.
#[derive(Clone, Copy, Debug, PartialEq, Eq, Structural)]
pub struct Ipv4 {
    pub bits: u32,
}

/// The numeric value of the four octets `a.b.c.d`.
pub open spec fn bits_of_octets(a: u8, b: u8, c: u8, d: u8) -> u32 {
    (a * 0x100_0000 + b * 0x1_0000 + c * 0x100 + d) as u32
}

impl Ipv4 {
    /// Build an address from its four dotted-decimal octets.
    pub fn from_octets(a: u8, b: u8, c: u8, d: u8) -> (r: Ipv4)
        ensures
            r.bits == bits_of_octets(a, b, c, d),
    {
        Ipv4 { bits: a as u32 * 0x100_0000 + b as u32 * 0x1_0000 + c as u32 * 0x100 + d as u32 }
    }

    /// The four dotted-decimal octets of the address, most significant first.
    pub fn octets(&self) -> (r: (u8, u8, u8, u8))
        ensures
            self.bits == bits_of_octets(r.0, r.1, r.2, r.3),
    {
        let a = (self.bits >> 24) as u8;
        let b = ((self.bits >> 16) & 0xff) as u8;
        let c = ((self.bits >> 8) & 0xff) as u8;
        let d = (self.bits & 0xff) as u8;
        proof {
            let n = self.bits;
            assert(n == ((n >> 24) as u8) * 0x100_0000 + (((n >> 16) & 0xff) as u8) * 0x1_0000
                + (((n >> 8) & 0xff) as u8) * 0x100 + ((n & 0xff) as u8)) by (bit_vector);
        }
        (a, b, c, d)
    }
}

} // verus!
