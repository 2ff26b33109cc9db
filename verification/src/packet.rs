//! The packets this layer carries.

use vstd::prelude::*;
use vstd::slice::slice_to_vec;
use vstd::string::StringSliceAdditionalSpecFns;

verus! {

/// Delivery guarantee of a publish.
#[derive(Debug, Clone, Copy, PartialEq, Eq, Structural)]
pub enum QoS {
    AtMostOnce,
    AtLeastOnce,
    ExactlyOnce,
}

/// A publish packet. The topic is kept as the bytes that travel on the
/// wire. The properties are the bytes of the property section, which this
/// layer carries and does not read; `None` is an empty section.
#[derive(Debug, Clone, PartialEq, Eq)]
pub struct Publish {
    pub dup: bool,
    pub qos: QoS,
    pub retain: bool,
    pub topic: Vec<u8>,
    pub pkid: u16,
    pub payload: Vec<u8>,
    pub properties: Option<Vec<u8>>,
}

/// What a publish holds, as plain values.
pub struct PublishView {
    pub dup: bool,
    pub qos: QoS,
    pub retain: bool,
    pub topic: Seq<u8>,
    pub pkid: u16,
    pub payload: Seq<u8>,
    pub properties: Option<Seq<u8>>,
}

/// The bytes of an optional byte vector.
pub open spec fn bytes_view(bytes: Option<Vec<u8>>) -> Option<Seq<u8>> {
    match bytes {
        Some(v) => Some(v@),
        None => None,
    }
}

impl View for Publish {
    type V = PublishView;

    open spec fn view(&self) -> PublishView {
        PublishView {
            dup: self.dup,
            qos: self.qos,
            retain: self.retain,
            topic: self.topic@,
            pkid: self.pkid,
            payload: self.payload@,
            properties: bytes_view(self.properties),
        }
    }
}

impl Publish {
    /// A fresh publish: not a duplicate, not retained, packet identifier 0.
    pub fn new(topic: &str, qos: QoS, payload: Vec<u8>, properties: Option<Vec<u8>>) -> (p:
        Publish)
        ensures
            p@ == (PublishView {
                dup: false,
                qos,
                retain: false,
                topic: topic.spec_bytes(),
                pkid: 0,
                payload: payload@,
                properties: bytes_view(properties),
            }),
    {
        let topic = slice_to_vec(topic.as_bytes());
        Publish { dup: false, qos, retain: false, topic, pkid: 0, payload, properties }
    }
}

/// A control packet.
#[derive(Debug, Clone, PartialEq, Eq)]
pub enum Packet {
    Publish(Publish),
    PingReq,
    PingResp,
}

/// What a packet holds, as plain values.
pub enum PacketView {
    Publish(PublishView),
    PingReq,
    PingResp,
}

impl View for Packet {
    type V = PacketView;

    open spec fn view(&self) -> PacketView {
        match self {
            Packet::Publish(p) => PacketView::Publish(p@),
            Packet::PingReq => PacketView::PingReq,
            Packet::PingResp => PacketView::PingResp,
        }
    }
}

} // verus!
