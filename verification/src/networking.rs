//! Addresses and well-known ports of the node.

use vstd::prelude::*;

verus! {

/// A peer's IP address as a number: an IPv6 address as it stands, an IPv4
/// address mapped into IPv6.
pub type PeerAddr = u128;

/// The multicast group that discovery queries are sent to.
pub const ANNOUNCE_MULTICAST: &'static str = "224.0.1.0";

/// Port of the discovery listener and of the block server.
pub const BASE_PORT: u16 = 8888;

/// Port of the ping echo server.
pub const PING_PORT: u16 = BASE_PORT + 1;

/// Largest datagram that either end handles.
pub const MAX_DATAGRAM: usize = 1_048_576;

/// How long a requester collects replies, in milliseconds.
pub const COLLECT_MILLIS: u64 = 1000;

/// Deadline of a ping probe's read, in milliseconds.
pub const PING_TIMEOUT_MILLIS: u64 = 5000;

} // verus!
