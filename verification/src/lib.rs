//! A network reachability scanner core.
//!
//! The library expands a target specification (a port range or list, a single
//! host, a host range, or an IPv4 subnet) into an ordered sequence of probe
//! units, classifies the outcome of each probe, and aggregates the successful
//! probes into a deterministic, sorted result. The probing itself (TCP
//! connections with a bounded timeout) is I/O and lives outside the library;
//! every decision the scanner makes about its data is verified here.

pub mod net;
pub mod scanner;
pub mod target;
pub mod utils;

pub use utils::{parse_ipv4, parse_ports, parse_subnet};
