//! What the codec reports when it cannot frame a packet.

use vstd::prelude::*;

verus! {

#[derive(Debug, Clone, Copy, PartialEq, Eq, Structural)]
pub enum Error {
    /// The peer announced a packet longer than the incoming limit.
    IncomingPacketTooLarge { pkt_size: usize, max: usize },
    /// The packet to send is longer than the outgoing limit.
    OutgoingPacketTooLarge { pkt_size: usize, max: usize },
    /// The first byte names a packet type this layer does not carry.
    InvalidPacketType(u8),
    /// The quality-of-service bits hold a value that is none of the three.
    InvalidQoS(u8),
    /// A publish that asks for acknowledgment carries the identifier 0.
    PacketIdZero,
    /// The topic or the whole packet is longer than the format can express.
    PayloadTooLong,
    /// The length field runs on beyond its four bytes.
    MalformedRemainingLength,
    /// The frame is complete but its content does not follow the layout.
    MalformedPacket,
}

} // verus!
