//! The byte layout of a packet: one byte of type and flags, the length of
//! what follows in one to four bytes of seven bits each, then the body.

use vstd::prelude::*;
use vstd::slice::slice_subrange;
use crate::error::Error;
use crate::packet::{Packet, PacketView, Publish, PublishView, QoS};

verus! {

/// The longest body that the length field can announce.
pub const MAX_REMAINING_LEN: usize = 268_435_455;

/// The longest topic that its two length bytes can announce.
pub const MAX_TOPIC_LEN: usize = 65_535;

/// How many bytes the length field takes for a body of `n` bytes.
pub open spec fn len_len(n: int) -> int {
    if n < 128 {
        1
    } else if n < 16_384 {
        2
    } else if n < 2_097_152 {
        3
    } else {
        4
    }
}

/// The length field for a body of `n` bytes: seven bits a byte, lowest
/// first, the top bit raised on every byte but the last.
pub open spec fn length_bytes(n: int) -> Seq<u8>
    recommends
        0 <= n <= MAX_REMAINING_LEN,
{
    if n < 128 {
        seq![n as u8]
    } else if n < 16_384 {
        seq![(n % 128 + 128) as u8, (n / 128) as u8]
    } else if n < 2_097_152 {
        seq![(n % 128 + 128) as u8, (n / 128 % 128 + 128) as u8, (n / 16_384) as u8]
    } else {
        seq![
            (n % 128 + 128) as u8,
            (n / 128 % 128 + 128) as u8,
            (n / 16_384 % 128 + 128) as u8,
            (n / 2_097_152) as u8,
        ]
    }
}

/// A number below 65536 in two bytes, high byte first.
pub open spec fn be16(n: int) -> Seq<u8> {
    seq![(n / 256) as u8, (n % 256) as u8]
}

pub open spec fn qos_bits(qos: QoS) -> int {
    match qos {
        QoS::AtMostOnce => 0,
        QoS::AtLeastOnce => 1,
        QoS::ExactlyOnce => 2,
    }
}

/// The first byte of a publish: type 3 in the high half, then the duplicate
/// flag, two bits of quality of service and the retain flag.
pub open spec fn publish_first_byte(p: PublishView) -> u8 {
    (48 + (if p.dup { 8int } else { 0 }) + 2 * qos_bits(p.qos) + (if p.retain { 1int } else { 0 })) as u8
}

/// The number of bytes in the property section itself.
pub open spec fn section_len(p: PublishView) -> int {
    match p.properties {
        None => 0,
        Some(section) => section.len() as int,
    }
}

/// The length of the property section with its length field.
pub open spec fn properties_len(p: PublishView) -> int {
    match p.properties {
        None => 1,
        Some(section) => len_len(section.len() as int) + section.len(),
    }
}

/// The property section behind its length field; without properties the
/// field says 0 and nothing follows.
pub open spec fn properties_bytes(p: PublishView) -> Seq<u8> {
    match p.properties {
        None => seq![0u8],
        Some(section) => length_bytes(section.len() as int) + section,
    }
}

/// The length of a publish's body. The identifier counts where the publish
/// asks for acknowledgment and carries one.
pub open spec fn publish_body_len(p: PublishView) -> int {
    2 + p.topic.len() + (if p.qos != QoS::AtMostOnce && p.pkid != 0 { 2int } else { 0 })
        + properties_len(p) + p.payload.len()
}

/// The body of a publish: the topic behind its length, the identifier
/// where the publish asks for acknowledgment, the property section, and the
/// payload.
pub open spec fn publish_body(p: PublishView) -> Seq<u8> {
    be16(p.topic.len() as int) + p.topic + (if p.qos != QoS::AtMostOnce {
        be16(p.pkid as int)
    } else {
        Seq::<u8>::empty()
    }) + properties_bytes(p) + p.payload
}

/// The number of bytes a packet takes on the wire.
pub open spec fn encoded_size(p: PacketView) -> int {
    match p {
        PacketView::Publish(publish) => 1 + len_len(publish_body_len(publish)) + publish_body_len(
            publish,
        ),
        PacketView::PingReq => 2,
        PacketView::PingResp => 2,
    }
}

/// Whether the layout can express the packet.
pub open spec fn well_formed(p: PacketView) -> bool {
    match p {
        PacketView::Publish(publish) => {
            &&& publish.topic.len() <= MAX_TOPIC_LEN
            &&& publish_body_len(publish) <= MAX_REMAINING_LEN
            &&& (publish.qos != QoS::AtMostOnce ==> publish.pkid != 0)
        },
        PacketView::PingReq => true,
        PacketView::PingResp => true,
    }
}

/// Why the layout cannot express a packet that is not well formed.
pub open spec fn layout_error(p: PacketView) -> Error {
    match p {
        PacketView::Publish(publish) => if publish.topic.len() > MAX_TOPIC_LEN
            || publish_body_len(publish) > MAX_REMAINING_LEN {
            Error::PayloadTooLong
        } else {
            Error::PacketIdZero
        },
        PacketView::PingReq => Error::MalformedPacket,
        PacketView::PingResp => Error::MalformedPacket,
    }
}

/// The bytes of a well-formed packet.
pub open spec fn wire(p: PacketView) -> Seq<u8>
    recommends
        well_formed(p),
{
    match p {
        PacketView::Publish(publish) => seq![publish_first_byte(publish)] + length_bytes(
            publish_body_len(publish),
        ) + publish_body(publish),
        PacketView::PingReq => seq![192u8, 0u8],
        PacketView::PingResp => seq![208u8, 0u8],
    }
}

/// What the first bytes of a buffer say of the frame that starts there.
#[derive(Debug, Clone, Copy, PartialEq, Eq, Structural)]
pub enum Framing {
    /// The length field is not all there yet.
    Incomplete,
    /// The length field runs on beyond its four bytes.
    Malformed,
    /// The frame has `header_len` bytes of type and length, then
    /// `remaining_len` bytes of body.
    Frame { header_len: usize, remaining_len: usize },
}

/// Reads the length field that follows the first byte.
pub open spec fn framing(b: Seq<u8>) -> Framing {
    if b.len() < 2 {
        Framing::Incomplete
    } else if b[1] < 128 {
        Framing::Frame { header_len: 2, remaining_len: b[1] as usize }
    } else if b.len() < 3 {
        Framing::Incomplete
    } else if b[2] < 128 {
        Framing::Frame { header_len: 3, remaining_len: (b[1] - 128 + 128 * b[2]) as usize }
    } else if b.len() < 4 {
        Framing::Incomplete
    } else if b[3] < 128 {
        Framing::Frame {
            header_len: 4,
            remaining_len: (b[1] - 128 + 128 * (b[2] - 128) + 16_384 * b[3]) as usize,
        }
    } else if b.len() < 5 {
        Framing::Incomplete
    } else if b[4] < 128 {
        Framing::Frame {
            header_len: 5,
            remaining_len: (b[1] - 128 + 128 * (b[2] - 128) + 16_384 * (b[3] - 128) + 2_097_152
                * b[4]) as usize,
        }
    } else {
        Framing::Malformed
    }
}

/// Reads a publish from the low half of the first byte and the body. The
/// length field of the property section is read as that of a frame is, from
/// the byte before it on.
pub open spec fn parse_publish(flags: int, body: Seq<u8>) -> Result<PublishView, Error> {
    let q = flags / 2 % 4;
    let n = body.len() as int;
    if q == 3 {
        Err(Error::InvalidQoS(3))
    } else if n < 2 {
        Err(Error::MalformedPacket)
    } else {
        let topic_len = body[0] as int * 256 + body[1] as int;
        let props_at = 2 + topic_len + (if q == 0 { 0int } else { 2 });
        if n < props_at + 1 {
            Err(Error::MalformedPacket)
        } else {
            let pkid = if q == 0 {
                0
            } else {
                body[2 + topic_len] as int * 256 + body[3 + topic_len] as int
            };
            if q != 0 && pkid == 0 {
                Err(Error::PacketIdZero)
            } else {
                match framing(body.subrange(props_at - 1, n)) {
                    Framing::Frame { header_len, remaining_len } => {
                        let section_at = props_at + header_len - 1;
                        let payload_at = section_at + remaining_len;
                        if n < payload_at {
                            Err(Error::MalformedPacket)
                        } else {
                            Ok(
                                PublishView {
                                    dup: flags / 8 == 1,
                                    qos: if q == 0 {
                                        QoS::AtMostOnce
                                    } else if q == 1 {
                                        QoS::AtLeastOnce
                                    } else {
                                        QoS::ExactlyOnce
                                    },
                                    retain: flags % 2 == 1,
                                    topic: body.subrange(2, 2 + topic_len),
                                    pkid: pkid as u16,
                                    payload: body.subrange(payload_at, n),
                                    properties: if remaining_len == 0 {
                                        None
                                    } else {
                                        Some(body.subrange(section_at, payload_at))
                                    },
                                },
                            )
                        }
                    },
                    _ => Err(Error::MalformedPacket),
                }
            }
        }
    }
}

/// Reads a packet from the first byte and the body of a complete frame.
pub open spec fn parse_body(first: u8, body: Seq<u8>) -> Result<PacketView, Error> {
    let kind = first / 16;
    if kind == 3 {
        match parse_publish(first as int % 16, body) {
            Ok(publish) => Ok(PacketView::Publish(publish)),
            Err(e) => Err(e),
        }
    } else if kind == 12 || kind == 13 {
        if body.len() != 0 {
            Err(Error::MalformedPacket)
        } else if kind == 12 {
            Ok(PacketView::PingReq)
        } else {
            Ok(PacketView::PingResp)
        }
    } else {
        Err(Error::InvalidPacketType(kind))
    }
}

/// What a decode finds at the start of a buffer.
pub enum Decoded {
    /// No complete frame yet; nothing is taken from the buffer.
    NeedMore,
    /// The frame is refused; `consumed` bytes leave the buffer.
    Failed { error: Error, consumed: nat },
    /// A packet, read from the first `consumed` bytes.
    Packet { packet: PacketView, consumed: nat },
}

/// The outcome of decoding the buffer `b` under the incoming limit `max`.
/// An announced body longer than the limit is refused before any byte is
/// taken; a complete frame whose content is refused leaves with its bytes.
pub open spec fn decode_spec(b: Seq<u8>, max: Option<usize>) -> Decoded {
    match framing(b) {
        Framing::Incomplete => Decoded::NeedMore,
        Framing::Malformed => Decoded::Failed {
            error: Error::MalformedRemainingLength,
            consumed: 0,
        },
        Framing::Frame { header_len, remaining_len } => {
            if max is Some && remaining_len > max->Some_0 {
                Decoded::Failed {
                    error: Error::IncomingPacketTooLarge {
                        pkt_size: remaining_len,
                        max: max->Some_0,
                    },
                    consumed: 0,
                }
            } else if b.len() < header_len + remaining_len {
                Decoded::NeedMore
            } else {
                let end = (header_len + remaining_len) as nat;
                match parse_body(b[0], b.subrange(header_len as int, end as int)) {
                    Ok(packet) => Decoded::Packet { packet, consumed: end },
                    Err(error) => Decoded::Failed { error, consumed: end },
                }
            }
        },
    }
}


/// How many bytes the length field takes for a body of `n` bytes.
pub fn length_field_len(n: usize) -> (k: usize)
    ensures
        k == len_len(n as int),
{
    if n < 128 {
        1
    } else if n < 16_384 {
        2
    } else if n < 2_097_152 {
        3
    } else {
        4
    }
}

/// Whether the number of bytes the packet takes on the wire is one that
/// `usize` can hold.
pub fn size_fits(p: &Packet) -> (fits: bool)
    ensures
        fits == (encoded_size(p@) <= usize::MAX),
{
    match p {
        Packet::Publish(publish) => {
            let topic_len = publish.topic.len();
            let payload_len = publish.payload.len();
            if payload_len > usize::MAX - topic_len {
                return false;
            }
            let both: usize = topic_len + payload_len;
            let section_len: usize = match &publish.properties {
                None => 0,
                Some(section) => section.len(),
            };
            if section_len > usize::MAX - both {
                return false;
            }
            let all: usize = both + section_len;
            let id_len: usize = if publish.qos != QoS::AtMostOnce && publish.pkid != 0 {
                2
            } else {
                0
            };
            let field_len: usize = match &publish.properties {
                None => 1,
                Some(section) => length_field_len(section.len()),
            };
            all < 2_097_152 || all <= usize::MAX - 7 - id_len - field_len
        },
        Packet::PingReq => true,
        Packet::PingResp => true,
    }
}

/// The number of bytes the packet takes on the wire.
pub fn packet_size(p: &Packet) -> (n: usize)
    requires
        encoded_size(p@) <= usize::MAX,
    ensures
        n == encoded_size(p@),
{
    match p {
        Packet::Publish(publish) => {
            let id_len: usize = if publish.qos != QoS::AtMostOnce && publish.pkid != 0 {
                2
            } else {
                0
            };
            let props_len: usize = match &publish.properties {
                None => 1,
                Some(section) => length_field_len(section.len()) + section.len(),
            };
            let body_len: usize = 2 + publish.topic.len() + id_len + props_len
                + publish.payload.len();
            1 + length_field_len(body_len) + body_len
        },
        Packet::PingReq => 2,
        Packet::PingResp => 2,
    }
}

/// Whether the layout can express the packet, and if not, why.
pub fn check_layout(p: &Packet) -> (r: Result<(), Error>)
    ensures
        well_formed(p@) ==> r is Ok,
        !well_formed(p@) ==> r == Err::<(), Error>(layout_error(p@)),
{
    match p {
        Packet::Publish(publish) => {
            if publish.topic.len() > MAX_TOPIC_LEN || publish.payload.len() > MAX_REMAINING_LEN {
                return Err(Error::PayloadTooLong);
            }
            let props_len: usize = match &publish.properties {
                None => 1,
                Some(section) => {
                    if section.len() > MAX_REMAINING_LEN {
                        return Err(Error::PayloadTooLong);
                    }
                    length_field_len(section.len()) + section.len()
                },
            };
            let id_len: usize = if publish.qos != QoS::AtMostOnce && publish.pkid != 0 {
                2
            } else {
                0
            };
            let body_len: usize = 2 + publish.topic.len() + id_len + props_len
                + publish.payload.len();
            if body_len > MAX_REMAINING_LEN {
                Err(Error::PayloadTooLong)
            } else if publish.qos != QoS::AtMostOnce && publish.pkid == 0 {
                Err(Error::PacketIdZero)
            } else {
                Ok(())
            }
        },
        Packet::PingReq => Ok(()),
        Packet::PingResp => Ok(()),
    }
}

/// Appends the bytes of `src` to `out`.
fn append(out: &mut Vec<u8>, src: &Vec<u8>)
    ensures
        final(out)@ == old(out)@ + src@,
{
    let mut i: usize = 0;
    while i < src.len()
        invariant
            i <= src@.len(),
            out@ == old(out)@ + src@.subrange(0, i as int),
        decreases src@.len() - i,
    {
        out.push(src[i]);
        i += 1;
        assert(out@ =~= old(out)@ + src@.subrange(0, i as int));
    }
    assert(src@.subrange(0, i as int) =~= src@);
}

/// Appends the length field for a body of `n` bytes.
fn write_length(out: &mut Vec<u8>, n: usize)
    requires
        n <= MAX_REMAINING_LEN,
    ensures
        final(out)@ == old(out)@ + length_bytes(n as int),
{
    if n < 128 {
        out.push(n as u8);
    } else if n < 16_384 {
        out.push((n % 128 + 128) as u8);
        out.push((n / 128) as u8);
    } else if n < 2_097_152 {
        out.push((n % 128 + 128) as u8);
        out.push((n / 128 % 128 + 128) as u8);
        out.push((n / 16_384) as u8);
    } else {
        out.push((n % 128 + 128) as u8);
        out.push((n / 128 % 128 + 128) as u8);
        out.push((n / 16_384 % 128 + 128) as u8);
        out.push((n / 2_097_152) as u8);
    }
    assert(out@ =~= old(out)@ + length_bytes(n as int));
}

/// Appends a number in two bytes, high byte first.
fn write_be16(out: &mut Vec<u8>, n: u16)
    ensures
        final(out)@ == old(out)@ + be16(n as int),
{
    out.push((n / 256) as u8);
    out.push((n % 256) as u8);
    assert(out@ =~= old(out)@ + be16(n as int));
}

/// Appends the property section behind its length field.
fn write_properties(publish: &Publish, out: &mut Vec<u8>)
    requires
        properties_len(publish@) <= MAX_REMAINING_LEN,
    ensures
        final(out)@ == old(out)@ + properties_bytes(publish@),
{
    match &publish.properties {
        None => {
            out.push(0);
        },
        Some(section) => {
            write_length(out, section.len());
            append(out, section);
        },
    }
    assert(out@ =~= old(out)@ + properties_bytes(publish@));
}

/// Appends the body of a well-formed publish.
fn write_body(publish: &Publish, out: &mut Vec<u8>)
    requires
        well_formed(PacketView::Publish(publish@)),
    ensures
        final(out)@ == old(out)@ + publish_body(publish@),
{
    write_be16(out, publish.topic.len() as u16);
    append(out, &publish.topic);
    if publish.qos != QoS::AtMostOnce {
        write_be16(out, publish.pkid);
    }
    write_properties(publish, out);
    append(out, &publish.payload);
    assert(out@ =~= old(out)@ + publish_body(publish@));
}

/// Appends the bytes of a well-formed packet to `out`.
pub fn write_packet(p: &Packet, out: &mut Vec<u8>)
    requires
        well_formed(p@),
    ensures
        final(out)@ == old(out)@ + wire(p@),
{
    match p {
        Packet::Publish(publish) => {
            let id_len: usize = if publish.qos != QoS::AtMostOnce {
                2
            } else {
                0
            };
            let props_len: usize = match &publish.properties {
                None => 1,
                Some(section) => length_field_len(section.len()) + section.len(),
            };
            let body_len: usize = 2 + publish.topic.len() + id_len + props_len
                + publish.payload.len();
            let bits: u8 = match publish.qos {
                QoS::AtMostOnce => 0,
                QoS::AtLeastOnce => 1,
                QoS::ExactlyOnce => 2,
            };
            let dup: u8 = if publish.dup { 8 } else { 0 };
            let retain: u8 = if publish.retain { 1 } else { 0 };
            out.push(48 + dup + 2 * bits + retain);
            write_length(out, body_len);
            write_body(publish, out);
            assert(out@ =~= old(out)@ + wire(p@));
        },
        Packet::PingReq => {
            out.push(192);
            out.push(0);
            assert(out@ =~= old(out)@ + wire(p@));
        },
        Packet::PingResp => {
            out.push(208);
            out.push(0);
            assert(out@ =~= old(out)@ + wire(p@));
        },
    }
}

/// Reads the length field that follows the first byte.
pub fn read_framing(b: &[u8]) -> (f: Framing)
    ensures
        f == framing(b@),
{
    let n = b.len();
    if n < 2 {
        return Framing::Incomplete;
    }
    let b1: usize = b[1] as usize;
    if b1 < 128 {
        return Framing::Frame { header_len: 2, remaining_len: b1 };
    }
    if n < 3 {
        return Framing::Incomplete;
    }
    let b2: usize = b[2] as usize;
    if b2 < 128 {
        return Framing::Frame { header_len: 3, remaining_len: b1 - 128 + 128 * b2 };
    }
    if n < 4 {
        return Framing::Incomplete;
    }
    let b3: usize = b[3] as usize;
    if b3 < 128 {
        return Framing::Frame {
            header_len: 4,
            remaining_len: b1 - 128 + 128 * (b2 - 128) + 16_384 * b3,
        };
    }
    if n < 5 {
        return Framing::Incomplete;
    }
    let b4: usize = b[4] as usize;
    if b4 < 128 {
        return Framing::Frame {
            header_len: 5,
            remaining_len: b1 - 128 + 128 * (b2 - 128) + 16_384 * (b3 - 128) + 2_097_152 * b4,
        };
    }
    Framing::Malformed
}

/// A copy of the bytes `lo..hi` of `b`.
fn copy_range(b: &[u8], lo: usize, hi: usize) -> (v: Vec<u8>)
    requires
        lo <= hi <= b@.len(),
    ensures
        v@ == b@.subrange(lo as int, hi as int),
{
    let mut v: Vec<u8> = Vec::with_capacity(hi - lo);
    let mut i: usize = lo;
    while i < hi
        invariant
            lo <= i <= hi <= b@.len(),
            v@ == b@.subrange(lo as int, i as int),
        decreases hi - i,
    {
        v.push(b[i]);
        i += 1;
        assert(v@ =~= b@.subrange(lo as int, i as int));
    }
    v
}

/// Reads a publish from the frame that fills `b[..end]` and whose body
/// starts at `start`.
fn read_publish(b: &[u8], start: usize, end: usize) -> (r: Result<Publish, Error>)
    requires
        1 <= start <= end <= b@.len(),
        b@[0] / 16 == 3,
    ensures
        match parse_publish(b@[0] as int % 16, b@.subrange(start as int, end as int)) {
            Ok(publish) => r is Ok && r->Ok_0@ == publish,
            Err(e) => r == Err::<Publish, Error>(e),
        },
{
    let ghost body = b@.subrange(start as int, end as int);
    let flags: u8 = b[0] % 16;
    let q: u8 = flags / 2 % 4;
    let n: usize = end - start;
    if q == 3 {
        return Err(Error::InvalidQoS(3));
    }
    if n < 2 {
        return Err(Error::MalformedPacket);
    }
    assert(body[0] == b@[start as int] && body[1] == b@[start + 1]);
    let topic_len: usize = b[start] as usize * 256 + b[start + 1] as usize;
    let id_len: usize = if q == 0 { 0 } else { 2 };
    let props_at: usize = 2 + topic_len + id_len;
    if n < props_at + 1 {
        return Err(Error::MalformedPacket);
    }
    let mut pkid: u16 = 0;
    if q != 0 {
        assert(body[2 + topic_len] == b@[start + 2 + topic_len]);
        assert(body[3 + topic_len] == b@[start + 3 + topic_len]);
        pkid = b[start + 2 + topic_len] as u16 * 256 + b[start + 3 + topic_len] as u16;
        if pkid == 0 {
            return Err(Error::PacketIdZero);
        }
    }
    assert(b@.subrange(start + props_at - 1, end as int) =~= body.subrange(
        props_at - 1,
        n as int,
    ));
    let (field_len, section_len) = match read_framing(
        slice_subrange(b, start + props_at - 1, end),
    ) {
        Framing::Frame { header_len, remaining_len } => (header_len, remaining_len),
        _ => { return Err(Error::MalformedPacket); },
    };
    let section_at: usize = props_at + field_len - 1;
    if n - section_at < section_len {
        return Err(Error::MalformedPacket);
    }
    let payload_at: usize = section_at + section_len;
    let topic = copy_range(b, start + 2, start + 2 + topic_len);
    let payload = copy_range(b, start + payload_at, end);
    let properties = if section_len == 0 {
        None
    } else {
        let section = copy_range(b, start + section_at, start + payload_at);
        assert(section@ =~= body.subrange(section_at as int, payload_at as int));
        Some(section)
    };
    let qos = if q == 0 {
        QoS::AtMostOnce
    } else if q == 1 {
        QoS::AtLeastOnce
    } else {
        QoS::ExactlyOnce
    };
    assert(topic@ =~= body.subrange(2, 2 + topic_len));
    assert(payload@ =~= body.subrange(payload_at as int, n as int));
    Ok(
        Publish {
            dup: flags / 8 == 1,
            qos,
            retain: flags % 2 == 1,
            topic,
            pkid,
            payload,
            properties,
        },
    )
}

/// Reads the packet at the start of `b` under the incoming limit `max`.
/// With a packet comes the number of bytes it was read from; with an error,
/// the number of bytes to drop.
pub fn read_frame(b: &[u8], max: Option<usize>) -> (r: Result<Option<(Packet, usize)>, (Error, usize)>)
    ensures
        match decode_spec(b@, max) {
            Decoded::NeedMore => r is Ok && r->Ok_0 is None,
            Decoded::Failed { error, consumed } => r == Err::<Option<(Packet, usize)>, (Error, usize)>(
                (error, consumed as usize),
            ) && consumed <= b@.len(),
            Decoded::Packet { packet, consumed } => r is Ok && r->Ok_0 is Some
                && r->Ok_0->Some_0.0@ == packet && r->Ok_0->Some_0.1 == consumed && consumed
                <= b@.len(),
        },
{
    match read_framing(b) {
        Framing::Incomplete => Ok(None),
        Framing::Malformed => Err((Error::MalformedRemainingLength, 0)),
        Framing::Frame { header_len, remaining_len } => {
            if let Some(limit) = max {
                if remaining_len > limit {
                    return Err((Error::IncomingPacketTooLarge { pkt_size: remaining_len, max: limit }, 0));
                }
            }
            if b.len() - header_len < remaining_len {
                return Ok(None);
            }
            let end: usize = header_len + remaining_len;
            let kind: u8 = b[0] / 16;
            if kind == 3 {
                match read_publish(b, header_len, end) {
                    Ok(publish) => Ok(Some((Packet::Publish(publish), end))),
                    Err(e) => Err((e, end)),
                }
            } else if kind == 12 || kind == 13 {
                if remaining_len != 0 {
                    Err((Error::MalformedPacket, end))
                } else if kind == 12 {
                    Ok(Some((Packet::PingReq, end)))
                } else {
                    Ok(Some((Packet::PingResp, end)))
                }
            } else {
                Err((Error::InvalidPacketType(kind), end))
            }
        },
    }
}

} // verus!
