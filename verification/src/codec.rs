//! Framing of packets on a byte buffer, under the size limits agreed with
//! the peer.

use vstd::prelude::*;
use bytes::BytesMut;
use crate::buffer::{buffer_advance, buffer_bytes, buffer_extend, contents};
use crate::error::Error;
use crate::packet::{Packet, PacketView, PublishView, QoS};
use crate::wire::{
    check_layout, decode_spec, encoded_size, framing, layout_error, len_len, length_bytes,
    packet_size, parse_body, parse_publish, properties_bytes, properties_len, publish_body,
    publish_body_len, publish_first_byte, qos_bits, read_frame, section_len, well_formed, wire,
    write_packet, Decoded, Framing, MAX_REMAINING_LEN, MAX_TOPIC_LEN,
};

verus! {

/// The two size limits of a connection. `None` is no limit.
#[derive(Debug, Clone)]
pub struct Codec {
    /// The longest body this side accepts from the peer.
    pub max_incoming_size: Option<usize>,
    /// The longest packet the peer accepts from this side.
    pub max_outgoing_size: Option<usize>,
}

/// The outcome of encoding `p` under the outgoing limit `max`: the bytes to
/// append, or the reason why nothing is appended. The size is held against
/// the limit before the layout is asked whether it can express the packet.
pub open spec fn encode_spec(p: PacketView, max: Option<usize>) -> Result<Seq<u8>, Error> {
    if max is Some && encoded_size(p) > max->Some_0 {
        Err(Error::OutgoingPacketTooLarge { pkt_size: encoded_size(p) as usize, max: max->Some_0 })
    } else if !well_formed(p) {
        Err(layout_error(p))
    } else {
        Ok(wire(p))
    }
}

/// The length that a packet's frame announces for its body.
pub open spec fn remaining_len(p: PacketView) -> int {
    match p {
        PacketView::Publish(publish) => publish_body_len(publish),
        PacketView::PingReq => 0,
        PacketView::PingResp => 0,
    }
}

/// Whether decoding gives back every field of the packet. A publish that
/// asks for no acknowledgment travels without its identifier, so it comes
/// back whole only where the identifier is 0; and a property section of no
/// bytes travels as no properties do.
pub open spec fn survives_wire(p: PacketView) -> bool {
    match p {
        PacketView::Publish(publish) => {
            &&& publish.qos == QoS::AtMostOnce ==> publish.pkid == 0
            &&& publish.properties is Some ==> publish.properties->Some_0.len() > 0
        },
        PacketView::PingReq => true,
        PacketView::PingResp => true,
    }
}

impl Codec {
    /// Tries to read one packet from the start of `src`.
    ///
    /// Without a complete frame the answer is `Ok(None)` and `src` keeps
    /// every byte. A frame that announces more than the incoming limit is
    /// refused with `src` untouched. A complete frame leaves `src`, whether
    /// a packet or an error came of it.
    pub fn decode(&mut self, src: &mut BytesMut) -> (r: Result<Option<Packet>, Error>)
        ensures
            *final(self) == *old(self),
            match decode_spec(contents(*old(src)), old(self).max_incoming_size) {
                Decoded::NeedMore => r is Ok && r->Ok_0 is None && contents(*final(src))
                    == contents(*old(src)),
                Decoded::Failed { error, consumed } => r == Err::<Option<Packet>, Error>(error)
                    && contents(*final(src)) == contents(*old(src)).skip(consumed as int),
                Decoded::Packet { packet, consumed } => r is Ok && r->Ok_0 is Some
                    && r->Ok_0->Some_0@ == packet && contents(*final(src)) == contents(
                    *old(src),
                ).skip(consumed as int),
            },
    {
        let found = read_frame(buffer_bytes(src), self.max_incoming_size);
        match found {
            Ok(None) => Ok(None),
            Ok(Some((packet, consumed))) => {
                buffer_advance(src, consumed);
                Ok(Some(packet))
            },
            Err((error, consumed)) => {
                buffer_advance(src, consumed);
                assert(consumed == 0 ==> contents(*old(src)).skip(0) =~= contents(*old(src)));
                Err(error)
            },
        }
    }

    /// Appends the bytes of `item` to `dst`, or fails and leaves `dst` as it
    /// was: with `OutgoingPacketTooLarge` where the packet is longer than
    /// the outgoing limit, else with the layout's reason where the layout
    /// cannot express the packet.
    pub fn encode(&mut self, item: Packet, dst: &mut BytesMut) -> (r: Result<(), Error>)
        requires
            encoded_size(item@) <= usize::MAX,
        ensures
            *final(self) == *old(self),
            match encode_spec(item@, old(self).max_outgoing_size) {
                Ok(bytes) => r is Ok && contents(*final(dst)) == contents(*old(dst)) + bytes,
                Err(error) => r == Err::<(), Error>(error) && contents(*final(dst)) == contents(
                    *old(dst),
                ),
            },
    {
        let size = packet_size(&item);
        if let Some(limit) = self.max_outgoing_size {
            if size > limit {
                return Err(Error::OutgoingPacketTooLarge { pkt_size: size, max: limit });
            }
        }
        match check_layout(&item) {
            Err(error) => Err(error),
            Ok(()) => {
                let mut scratch: Vec<u8> = Vec::with_capacity(size);
                write_packet(&item, &mut scratch);
                assert(scratch@ =~= wire(item@));
                buffer_extend(dst, scratch.as_slice());
                Ok(())
            },
        }
    }
}

/// The length field of `n`, standing behind the first byte of `b`, is read
/// back as `n`.
pub proof fn lemma_framing_reads_length(b: Seq<u8>, n: int)
    requires
        0 <= n <= MAX_REMAINING_LEN,
        b.len() >= 1 + len_len(n),
        b.subrange(1, 1 + len_len(n)) == length_bytes(n),
    ensures
        framing(b) == (Framing::Frame {
            header_len: (1 + len_len(n)) as usize,
            remaining_len: n as usize,
        }),
{
    let part = b.subrange(1, 1 + len_len(n));
    let d0 = n % 128;
    let d1 = n / 128 % 128;
    let d2 = n / 16_384 % 128;
    let d3 = n / 2_097_152;
    assert(n == d0 + 128 * d1 + 16_384 * d2 + 2_097_152 * d3 && 0 <= d3 < 128);
    if n < 128 {
        assert(b[1] == part[0]);
        assert(b[1] as int == d0);
    } else if n < 16_384 {
        assert(d1 == n / 128 && d2 == 0 && d3 == 0);
        assert(b[1] == part[0] && b[2] == part[1]);
        assert(b[1] as int == d0 + 128 && b[2] as int == d1);
    } else if n < 2_097_152 {
        assert(d2 == n / 16_384 && d3 == 0);
        assert(b[1] == part[0] && b[2] == part[1] && b[3] == part[2]);
        assert(b[1] as int == d0 + 128 && b[2] as int == d1 + 128 && b[3] as int == d2);
    } else {
        assert(b[1] == part[0] && b[2] == part[1] && b[3] == part[2] && b[4] == part[3]);
        assert(b[1] as int == d0 + 128 && b[2] as int == d1 + 128 && b[3] as int == d2 + 128
            && b[4] as int == d3);
    }
}

/// The property section of a well-formed publish is read back from the
/// bytes that start one before it.
proof fn lemma_properties_read_back(p: PublishView, before: u8, payload: Seq<u8>)
    requires
        properties_len(p) <= MAX_REMAINING_LEN,
        p.properties is Some ==> p.properties->Some_0.len() > 0,
    ensures
        properties_bytes(p).len() == properties_len(p),
        framing(seq![before] + properties_bytes(p) + payload) == (Framing::Frame {
            header_len: (1 + properties_len(p) - section_len(p)) as usize,
            remaining_len: section_len(p) as usize,
        }),
{
    let b = seq![before] + properties_bytes(p) + payload;
    match p.properties {
        None => {
            assert(b[1] == 0u8);
        },
        Some(section) => {
            let n = section.len() as int;
            assert(length_bytes(n).len() == len_len(n));
            assert(b.subrange(1, 1 + len_len(n)) =~= length_bytes(n));
            lemma_framing_reads_length(b, n);
        },
    }
}

/// Where the parts of a publish's body stand in it.
proof fn lemma_body_layout(p: PublishView)
    requires
        well_formed(PacketView::Publish(p)),
        properties_bytes(p).len() == properties_len(p),
    ensures
        publish_body(p).len() == publish_body_len(p),
        publish_body(p)[0] == (p.topic.len() / 256) as u8,
        publish_body(p)[1] == (p.topic.len() % 256) as u8,
        publish_body(p).subrange(2, 2 + p.topic.len() as int) == p.topic,
        p.qos != QoS::AtMostOnce ==> publish_body(p)[2 + p.topic.len() as int] == (p.pkid as int
            / 256) as u8 && publish_body(p)[3 + p.topic.len() as int] == (p.pkid as int % 256) as u8,
        publish_body(p).subrange(
            publish_body_len(p) - p.payload.len() - properties_len(p) - 1,
            publish_body_len(p),
        ) == seq![
            publish_body(p)[publish_body_len(p) - p.payload.len() - properties_len(p) - 1],
        ] + properties_bytes(p) + p.payload,
        publish_body(p).subrange(publish_body_len(p) - p.payload.len(), publish_body_len(p))
            == p.payload,
        p.properties is Some ==> publish_body(p).subrange(
            publish_body_len(p) - p.payload.len() - section_len(p),
            publish_body_len(p) - p.payload.len(),
        ) == p.properties->Some_0,
{
    let body = publish_body(p);
    let n = publish_body_len(p);
    let t = p.topic.len() as int;
    let at = n - p.payload.len() - properties_len(p);
    assert(body.len() == n);
    assert(body.subrange(2, 2 + t) =~= p.topic);
    assert(body.subrange(at - 1, n) =~= seq![body[at - 1]] + properties_bytes(p) + p.payload);
    assert(body.subrange(n - p.payload.len(), n) =~= p.payload);
    if p.properties is Some {
        let section = p.properties->Some_0;
        assert(properties_bytes(p) == length_bytes(section.len() as int) + section);
        assert(body.subrange(n - p.payload.len() - section.len(), n - p.payload.len())
            =~= section);
    }
}

/// A body whose parts stand where the layout puts those of `p` is read
/// as `p`.
proof fn lemma_parse_by_layout(p: PublishView, flags: int, body: Seq<u8>)
    requires
        survives_wire(PacketView::Publish(p)),
        p.qos != QoS::AtMostOnce ==> p.pkid != 0,
        p.topic.len() <= MAX_TOPIC_LEN,
        flags == (if p.dup { 8int } else { 0 }) + 2 * qos_bits(p.qos) + (if p.retain {
            1int
        } else {
            0
        }),
        body.len() == publish_body_len(p),
        body[0] as int * 256 + body[1] as int == p.topic.len(),
        body.subrange(2, 2 + p.topic.len() as int) == p.topic,
        p.qos != QoS::AtMostOnce ==> body[2 + p.topic.len() as int] as int * 256 + body[3
            + p.topic.len() as int] as int == p.pkid,
        framing(
            body.subrange(
                publish_body_len(p) - p.payload.len() - properties_len(p) - 1,
                publish_body_len(p),
            ),
        ) == (Framing::Frame {
            header_len: (1 + properties_len(p) - section_len(p)) as usize,
            remaining_len: section_len(p) as usize,
        }),
        1 <= properties_len(p) - section_len(p) <= 4,
        0 <= section_len(p) <= MAX_REMAINING_LEN,
        body.subrange(publish_body_len(p) - p.payload.len(), publish_body_len(p)) == p.payload,
        p.properties is Some ==> body.subrange(
            publish_body_len(p) - p.payload.len() - section_len(p),
            publish_body_len(p) - p.payload.len(),
        ) == p.properties->Some_0,
    ensures
        parse_publish(flags, body) == Ok::<PublishView, Error>(p),
{
    let got = parse_publish(flags, body);
    assert(flags / 2 % 4 == qos_bits(p.qos));
    assert(got is Ok);
    assert(got->Ok_0.topic == p.topic);
    assert(got->Ok_0.payload == p.payload);
    assert(got->Ok_0.properties == p.properties);
    assert(got->Ok_0.pkid == p.pkid);
    assert(got->Ok_0.qos == p.qos);
    assert(got->Ok_0.dup == p.dup);
    assert(got->Ok_0.retain == p.retain);
}

/// A well-formed publish is read back from its first byte and its body.
pub proof fn lemma_publish_reads_back(p: PublishView)
    requires
        well_formed(PacketView::Publish(p)),
        survives_wire(PacketView::Publish(p)),
    ensures
        publish_body(p).len() == publish_body_len(p),
        publish_first_byte(p) / 16 == 3,
        parse_publish(publish_first_byte(p) as int % 16, publish_body(p)) == Ok::<
            PublishView,
            Error,
        >(p),
{
    let body = publish_body(p);
    let n = publish_body_len(p);
    let at = n - p.payload.len() - properties_len(p);
    lemma_properties_read_back(p, body[at - 1], p.payload);
    lemma_body_layout(p);
    let t = p.topic.len() as int;
    assert(body[0] as int * 256 + body[1] as int == t);
    if p.qos != QoS::AtMostOnce {
        assert(body[2 + t] as int * 256 + body[3 + t] as int == p.pkid);
    }
    assert(publish_first_byte(p) / 16 == 3);
    lemma_parse_by_layout(p, publish_first_byte(p) as int % 16, body);
}

/// Where the parts of a publish stand in a buffer that starts with its
/// bytes.
proof fn lemma_publish_parts(p: PublishView, rest: Seq<u8>)
    requires
        well_formed(PacketView::Publish(p)),
        publish_body(p).len() == publish_body_len(p),
    ensures
        length_bytes(publish_body_len(p)).len() == len_len(publish_body_len(p)),
        wire(PacketView::Publish(p)).len() == 1 + len_len(publish_body_len(p)) + publish_body_len(
            p,
        ),
        (wire(PacketView::Publish(p)) + rest)[0] == publish_first_byte(p),
        (wire(PacketView::Publish(p)) + rest).subrange(1, 1 + len_len(publish_body_len(p)))
            == length_bytes(publish_body_len(p)),
        (wire(PacketView::Publish(p)) + rest).subrange(
            1 + len_len(publish_body_len(p)),
            1 + len_len(publish_body_len(p)) + publish_body_len(p),
        ) == publish_body(p),
{
    let n = publish_body_len(p);
    let h = 1 + len_len(n);
    let field = length_bytes(n);
    let body = publish_body(p);
    let b = seq![publish_first_byte(p)] + field + body + rest;
    assert(field.len() == len_len(n));
    assert(b =~= wire(PacketView::Publish(p)) + rest);
    assert(b.subrange(1, h) =~= field);
    assert(b.subrange(h, h + n) =~= body);
}

/// Round trip: the bytes that `encode` appends for a packet, followed by
/// anything, decode to that packet and to no more than those bytes, as long
/// as the incoming limit admits the packet's body.
pub proof fn lemma_round_trip(p: PacketView, max_incoming: Option<usize>, rest: Seq<u8>)
    requires
        well_formed(p),
        survives_wire(p),
        max_incoming is Some ==> remaining_len(p) <= max_incoming->Some_0,
    ensures
        wire(p).len() == encoded_size(p),
        decode_spec(wire(p) + rest, max_incoming) == (Decoded::Packet {
            packet: p,
            consumed: wire(p).len(),
        }),
{
    let b = wire(p) + rest;
    match p {
        PacketView::Publish(publish) => {
            let n = publish_body_len(publish);
            let h = 1 + len_len(n);
            lemma_publish_reads_back(publish);
            lemma_publish_parts(publish, rest);
            lemma_framing_reads_length(b, n);
            assert(parse_body(b[0], b.subrange(h, h + n)) == Ok::<PacketView, Error>(p));
        },
        PacketView::PingReq => {
            assert(b[0] == 192u8 && b[1] == 0u8);
            assert(b.subrange(2, 2) =~= Seq::<u8>::empty());
        },
        PacketView::PingResp => {
            assert(b[0] == 208u8 && b[1] == 0u8);
            assert(b.subrange(2, 2) =~= Seq::<u8>::empty());
        },
    }
}

/// A buffer that holds only the first `k` bytes of a packet, fewer than
/// all of them, decodes to "no packet yet".
pub proof fn lemma_partial_needs_more(p: PacketView, max_incoming: Option<usize>, k: int)
    requires
        well_formed(p),
        max_incoming is Some ==> remaining_len(p) <= max_incoming->Some_0,
        0 <= k < wire(p).len(),
    ensures
        decode_spec(wire(p).take(k), max_incoming) == Decoded::NeedMore,
{
    let b = wire(p).take(k);
    match p {
        PacketView::Publish(publish) => {
            let n = publish_body_len(publish);
            let h = 1 + len_len(n);
            let field = length_bytes(n);
            assert(forall|i: int| 1 <= i < h && i < k ==> #[trigger] b[i] == field[i - 1]);
            if k >= h {
                assert(b.subrange(1, h) =~= field);
                lemma_framing_reads_length(b, n);
                assert(publish_body(publish).len() == n);
            } else {
                if k >= 2 {
                    assert(b[1] == field[0]);
                }
                if k >= 3 {
                    assert(b[2] == field[1]);
                }
                if k >= 4 {
                    assert(b[3] == field[2]);
                }
            }
        },
        PacketView::PingReq => {},
        PacketView::PingResp => {},
    }
}

} // verus!
