use vstd::prelude::*;

verus! {

/// An IPv4 address as its four big-endian octets.
///
/// The codec works on plain bytes, so addresses are held as plain values
/// rather than as a platform address type; callers at the network edge
/// convert as needed.
#[derive(Clone, Copy, Debug, PartialEq, Eq, Structural)]
pub struct Ipv4Addr {
    pub o0: u8,
    pub o1: u8,
    pub o2: u8,
    pub o3: u8,
}

impl Ipv4Addr {
    pub fn new(o0: u8, o1: u8, o2: u8, o3: u8) -> (r: Ipv4Addr)
        ensures
            r == (Ipv4Addr { o0, o1, o2, o3 }),
    {
        Ipv4Addr { o0, o1, o2, o3 }
    }
}

/// An IPv6 address as its eight big-endian 16-bit groups.
#[derive(Clone, Copy, Debug, PartialEq, Eq, Structural)]
pub struct Ipv6Addr {
    pub g0: u16,
    pub g1: u16,
    pub g2: u16,
    pub g3: u16,
    pub g4: u16,
    pub g5: u16,
    pub g6: u16,
    pub g7: u16,
}

impl Ipv6Addr {
    pub fn new(g0: u16, g1: u16, g2: u16, g3: u16, g4: u16, g5: u16, g6: u16, g7: u16) -> (r:
        Ipv6Addr)
        ensures
            r == (Ipv6Addr { g0, g1, g2, g3, g4, g5, g6, g7 }),
    {
        Ipv6Addr { g0, g1, g2, g3, g4, g5, g6, g7 }
    }
}

} // verus!
