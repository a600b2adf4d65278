//! Ethernet frames and the events that carry them to the engine.
use vstd::prelude::*;
use pnet::packet::ethernet::EthernetPacket;
use crate::address::{Endpoint, MacAddr};

verus! {

/// Length of the fixed Ethernet header: destination, source and EtherType.
pub const HEADER_LEN: usize = 14;

/// Whether `b` is long enough to hold an Ethernet header.
pub open spec fn well_formed(b: Seq<u8>) -> bool {
    b.len() >= HEADER_LEN
}

/// The hardware address written in the six bytes of `b` from `k` on.
pub open spec fn mac_at(b: Seq<u8>, k: int) -> MacAddr {
    MacAddr(b[k], b[k + 1], b[k + 2], b[k + 3], b[k + 4], b[k + 5])
}

/// The destination address of a well-formed frame.
pub open spec fn destination_of(b: Seq<u8>) -> MacAddr {
    mac_at(b, 0)
}

/// The source address of a well-formed frame.
pub open spec fn source_of(b: Seq<u8>) -> MacAddr {
    mac_at(b, 6)
}

/// Relies on pnet's `EthernetPacket::new`, `get_destination` and `get_source`:
/// a packet exists exactly when the buffer holds the 14-byte header, and its
/// addresses are bytes 0..6 and 6..12.
#[verifier::external_body]
fn ethernet_addresses(b: &[u8]) -> (r: Option<(MacAddr, MacAddr)>)
    ensures
        r.is_some() <==> well_formed(b@),
        r.is_some() ==> r.unwrap().0 == destination_of(b@) && r.unwrap().1 == source_of(b@),
{
    match EthernetPacket::new(b) {
        Some(p) => {
            let d = p.get_destination();
            let s = p.get_source();
            Some((MacAddr(d.0, d.1, d.2, d.3, d.4, d.5), MacAddr(s.0, s.1, s.2, s.3, s.4, s.5)))
        },
        None => None,
    }
}

/// A well-formed Ethernet frame: its bytes, unchanged, and its two addresses.
pub struct Frame {
    bytes: Vec<u8>,
    destination: MacAddr,
    source: MacAddr,
}

impl View for Frame {
    type V = Seq<u8>;

    closed spec fn view(&self) -> Seq<u8> {
        self.bytes@
    }
}

impl Frame {
    #[verifier::type_invariant]
    spec fn inv(&self) -> bool {
        &&& well_formed(self.bytes@)
        &&& self.destination == destination_of(self.bytes@)
        &&& self.source == source_of(self.bytes@)
    }

    /// Checks that `bytes` hold an Ethernet header; `None` if they are too short.
    pub fn parse(bytes: Vec<u8>) -> (r: Option<Frame>)
        ensures
            r.is_some() <==> well_formed(bytes@),
            r.is_some() ==> r.unwrap()@ == bytes@,
    {
        match ethernet_addresses(bytes.as_slice()) {
            Some((destination, source)) => Some(Frame { bytes, destination, source }),
            None => None,
        }
    }

    /// The frame's bytes, as received.
    pub fn bytes(&self) -> (r: &[u8])
        ensures
            r@ == self@,
    {
        self.bytes.as_slice()
    }

    /// The destination address.
    pub fn destination(&self) -> (r: MacAddr)
        ensures
            r == destination_of(self@),
    {
        proof {
            use_type_invariant(self);
        }
        self.destination
    }

    /// The source address.
    pub fn source(&self) -> (r: MacAddr)
        ensures
            r == source_of(self@),
    {
        proof {
            use_type_invariant(self);
        }
        self.source
    }
}

/// Which ingress a fault came from.
#[derive(Clone, Copy, PartialEq, Eq, Structural, Debug)]
pub enum Side {
    Local,
    Remote,
}

/// What went wrong at an ingress.
#[derive(Clone, Copy, PartialEq, Eq, Structural, Debug)]
pub enum Cause {
    /// The read itself failed.
    ReadFailed,
    /// The data read was too short to be an Ethernet frame.
    Malformed,
}

/// What an ingress hands to the engine.
pub enum Event {
    /// A frame read from the local link.
    LocalFrame(Frame),
    /// A frame received from a remote endpoint.
    RemoteFrame(Frame, Endpoint),
    /// A recoverable failure at one of the two ingresses.
    IngressError(Side, Cause),
}

/// An event seen as plain values.
pub enum EventView {
    Local(Seq<u8>),
    Remote(Seq<u8>, Endpoint),
    Fault(Side, Cause),
}

impl View for Event {
    type V = EventView;

    open spec fn view(&self) -> EventView {
        match self {
            Event::LocalFrame(f) => EventView::Local(f@),
            Event::RemoteFrame(f, e) => EventView::Remote(f@, *e),
            Event::IngressError(s, c) => EventView::Fault(*s, *c),
        }
    }
}

/// The event that data read from the local link becomes.
pub open spec fn local_event_spec(b: Seq<u8>) -> EventView {
    if well_formed(b) {
        EventView::Local(b)
    } else {
        EventView::Fault(Side::Local, Cause::Malformed)
    }
}

/// The event that a datagram received from `from` becomes.
pub open spec fn remote_event_spec(b: Seq<u8>, from: Endpoint) -> EventView {
    if well_formed(b) {
        EventView::Remote(b, from)
    } else {
        EventView::Fault(Side::Remote, Cause::Malformed)
    }
}

/// Turns data read from the local link into an event.
pub fn local_event(bytes: Vec<u8>) -> (r: Event)
    ensures
        r@ == local_event_spec(bytes@),
{
    match Frame::parse(bytes) {
        Some(f) => Event::LocalFrame(f),
        None => Event::IngressError(Side::Local, Cause::Malformed),
    }
}

/// Turns a datagram received from `from` into an event.
pub fn remote_event(bytes: Vec<u8>, from: Endpoint) -> (r: Event)
    ensures
        r@ == remote_event_spec(bytes@, from),
{
    match Frame::parse(bytes) {
        Some(f) => Event::RemoteFrame(f, from),
        None => Event::IngressError(Side::Remote, Cause::Malformed),
    }
}

/// The event for a read that failed at `side`.
pub fn read_failure(side: Side) -> (r: Event)
    ensures
        r@ == EventView::Fault(side, Cause::ReadFailed),
{
    Event::IngressError(side, Cause::ReadFailed)
}

} // verus!
