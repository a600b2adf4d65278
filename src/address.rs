//! Hardware and network addresses as plain values.
use vstd::prelude::*;

verus! {

/// A 6-byte hardware (MAC) address.
#[derive(Clone, Copy, PartialEq, Eq, Structural, Debug, Hash)]
pub struct MacAddr(pub u8, pub u8, pub u8, pub u8, pub u8, pub u8);

/// The IP part of a remote endpoint.
#[derive(Clone, Copy, PartialEq, Eq, Structural, Debug, Hash)]
pub enum IpAddress {
    /// An IPv4 address, most significant octet first.
    V4(u32),
    /// An IPv6 address, most significant octet first.
    V6(u128),
}

/// A remote UDP endpoint: an IP address and a port.
#[derive(Clone, Copy, PartialEq, Eq, Structural, Debug, Hash)]
pub struct Endpoint {
    pub ip: IpAddress,
    pub port: u16,
}

/// Whether `m` is the all-ones broadcast address.
pub open spec fn is_broadcast_spec(m: MacAddr) -> bool {
    m == MacAddr(0xff, 0xff, 0xff, 0xff, 0xff, 0xff)
}

/// Relies on pnet's `MacAddr::is_broadcast`: true exactly when every octet is 0xff.
#[verifier::external_body]
fn pnet_is_broadcast(m: MacAddr) -> (r: bool)
    ensures
        r == is_broadcast_spec(m),
{
    pnet::util::MacAddr::new(m.0, m.1, m.2, m.3, m.4, m.5).is_broadcast()
}

impl MacAddr {
    /// The broadcast address `ff:ff:ff:ff:ff:ff`.
    pub fn broadcast() -> (r: MacAddr)
        ensures
            is_broadcast_spec(r),
    {
        MacAddr(0xff, 0xff, 0xff, 0xff, 0xff, 0xff)
    }

    /// Whether this is the broadcast address.
    pub fn is_broadcast(&self) -> (r: bool)
        ensures
            r == is_broadcast_spec(*self),
    {
        pnet_is_broadcast(*self)
    }

    /// The six octets, in transmission order.
    pub fn octets(&self) -> (r: [u8; 6])
        ensures
            r@ == seq![self.0, self.1, self.2, self.3, self.4, self.5],
    {
        [self.0, self.1, self.2, self.3, self.4, self.5]
    }
}

impl Endpoint {
    /// An IPv4 endpoint from its four octets and a port.
    pub fn v4(a: u8, b: u8, c: u8, d: u8, port: u16) -> (r: Endpoint)
        ensures
            r.ip == IpAddress::V4((a * 0x100_0000 + b * 0x1_0000 + c * 0x100 + d) as u32),
            r.port == port,
    {
        proof {
            assert(a * 0x100_0000 + b * 0x1_0000 + c * 0x100 + d <= 0xffff_ffff) by (nonlinear_arith)
                requires a <= 0xff, b <= 0xff, c <= 0xff, d <= 0xff;
        }
        let ip: u32 = a as u32 * 0x100_0000 + b as u32 * 0x1_0000 + c as u32 * 0x100 + d as u32;
        Endpoint { ip: IpAddress::V4(ip), port }
    }
}

} // verus!
