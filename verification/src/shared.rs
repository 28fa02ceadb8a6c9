//! What an association and its endpoint hand to one another.

use bytes::Bytes;
use vstd::prelude::*;

use crate::chunk::payload::Instant;
use crate::packet::PartialDecode;

verus! {

/// The number by which an endpoint tells its associations apart.
pub type AssociationId = u32;

/// Whether an association was opened or accepted here.
#[derive(Debug, Clone, Copy, PartialEq, Eq, Structural)]
pub enum Side {
    /// The initiator of an association
    Client,
    /// The acceptor of an association
    Server,
}

impl Default for Side {
    fn default() -> (r: Self)
        ensures
            r == Side::Client,
    {
        Side::Client
    }
}

impl Side {
    /// Whether this is the initiator.
    pub fn is_client(&self) -> (r: bool)
        ensures
            r == (*self is Client),
    {
        *self == Side::Client
    }
}

/// An IP address as a number.
#[derive(Debug, Clone, Copy, PartialEq, Eq, Structural)]
pub enum IpAddr {
    V4(u32),
    V6(u128),
}

/// An IP address with a port.
#[derive(Debug, Clone, Copy, PartialEq, Eq, Structural)]
pub struct SocketAddr {
    pub ip: IpAddr,
    pub port: u16,
    /// The flow information of an IPv6 address; zero for IPv4.
    pub flowinfo: u32,
    /// The scope of an IPv6 address; zero for IPv4.
    pub scope_id: u32,
}

/// What a datagram holds.
#[derive(Debug)]
pub enum Payload {
    /// A packet that was received.
    PartialDecode(PartialDecode),
    /// Packets to be sent.
    RawEncode(Vec<Bytes>),
}

/// Explicit congestion notification codepoint
#[derive(Debug, Clone, Copy, PartialEq, Eq, Structural)]
pub enum EcnCodepoint {
    Ect0,
    Ect1,
    Ce,
}

/// Datagrams with the addresses between which they travel.
#[derive(Debug)]
pub struct Transmit {
    /// When the datagrams are received or sent.
    pub now: Instant,
    /// The socket this datagram should be sent to
    pub remote: SocketAddr,
    /// Explicit congestion notification bits to set on the packet
    pub ecn: Option<EcnCodepoint>,
    /// Optional local IP address for the datagram
    pub local_ip: Option<IpAddr>,
    /// Payload of the datagram
    pub payload: Payload,
}

/// An event that an endpoint hands to an association.
#[derive(Debug)]
pub struct AssociationEvent(pub AssociationEventInner);

/// The kinds of an [`AssociationEvent`].
#[derive(Debug)]
pub enum AssociationEventInner {
    /// A datagram has been received for the association
    Datagram(Transmit),
}

/// An event that an association hands to its endpoint.
#[derive(Debug, Clone, Copy, PartialEq, Eq, Structural)]
pub struct EndpointEvent(pub EndpointEventInner);

/// The kinds of an [`EndpointEvent`].
#[derive(Debug, Clone, Copy, PartialEq, Eq, Structural)]
pub enum EndpointEventInner {
    /// The association has been drained
    Drained,
}

impl EndpointEvent {
    /// Whether the association needs nothing more of its endpoint.
    pub fn is_drained(&self) -> (r: bool)
        ensures
            r == (self.0 is Drained),
    {
        self.0 == EndpointEventInner::Drained
    }
}

} // verus!
