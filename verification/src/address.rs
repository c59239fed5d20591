//! Addresses of hosts and of TCP endpoints, as plain numbers.

use vstd::prelude::*;

verus! {

/// An IP address, version 4 or 6.
///
/// A version 4 address holds its four octets and a version 6 address its
/// eight 16-bit segments, each in the order in which the address is
/// written.
#[derive(Clone, Copy, Debug, PartialEq, Eq, Hash, Structural)]
pub enum IpAddress {
    V4(u8, u8, u8, u8),
    V6(u16, u16, u16, u16, u16, u16, u16, u16),
}

/// One TCP endpoint: a host and a port on it.
#[derive(Clone, Copy, Debug, PartialEq, Eq, Hash, Structural)]
pub struct Endpoint {
    pub address: IpAddress,
    pub port: u16,
}

} // verus!
