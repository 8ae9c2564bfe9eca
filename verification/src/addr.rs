use vstd::prelude::*;

verus! {

/// A socket address as the overlay sees it: four IPv4 octets and a port.
///
/// The transport layer works with its own address type; at this crate's
/// boundary every address is carried as this plain value, so that contracts
/// can speak about addresses directly.
#[derive(Clone, Copy, Debug, PartialEq, Eq, Hash, Structural)]
pub struct Address {
    pub ip0: u8,
    pub ip1: u8,
    pub ip2: u8,
    pub ip3: u8,
    pub port: u16,
}

} // verus!
