//! The MQTT wire format as mathematical functions on byte sequences: what
//! reading a frame gives, and what writing a packet appends.
use vstd::prelude::*;
use vstd::utf8::{decode_utf8, encode_utf8, valid_utf8};

use crate::error::ProtocolError;
use crate::packet::{
    packet_type_from_byte, qos_from_level, qos_level, return_code_byte, return_code_from_byte,
    suback_byte, suback_from_byte, version_from_level, version_level, PacketType, ProtocolVersion, QoS,
    SpecPacket, SubAckReturnCode,
};
use crate::varint::{spec_decode_varint, spec_encode_varint, VARINT_MAX};

verus! {

/// A big-endian two-byte integer read at `pos`.
pub open spec fn spec_read_u16(b: Seq<u8>, pos: int) -> u16 {
    (b[pos] * 256 + b[pos + 1]) as u16
}

/// The big-endian two-byte encoding of `v`.
pub open spec fn u16_bytes(v: u16) -> Seq<u8> {
    seq![(v / 256) as u8, (v % 256) as u8]
}

/// A length-prefixed byte field at `pos`: the bytes and the position after them.
pub open spec fn spec_read_binary(b: Seq<u8>, pos: int) -> Result<(Seq<u8>, int), ProtocolError> {
    if b.len() - pos < 2 {
        Err(ProtocolError::Incomplete)
    } else {
        let len = spec_read_u16(b, pos) as int;
        if b.len() - (pos + 2) < len {
            Err(ProtocolError::Incomplete)
        } else {
            Ok((b.subrange(pos + 2, pos + 2 + len), pos + 2 + len))
        }
    }
}

/// A length-prefixed UTF-8 string at `pos`: its characters and the position after it.
pub open spec fn spec_read_string(b: Seq<u8>, pos: int) -> Result<(Seq<char>, int), ProtocolError> {
    match spec_read_binary(b, pos) {
        Err(e) => Err(e),
        Ok((raw, next)) => if valid_utf8(raw) {
            Ok((decode_utf8(raw), next))
        } else {
            Err(ProtocolError::InvalidUtf8)
        },
    }
}

/// An optional string field, present when `present` holds.
pub open spec fn spec_read_opt_string(b: Seq<u8>, pos: int, present: bool) -> Result<
    (Option<Seq<char>>, int),
    ProtocolError,
> {
    if present {
        match spec_read_string(b, pos) {
            Err(e) => Err(e),
            Ok((s, next)) => Ok((Some(s), next)),
        }
    } else {
        Ok((None, pos))
    }
}

/// An optional byte field, present when `present` holds.
pub open spec fn spec_read_opt_binary(b: Seq<u8>, pos: int, present: bool) -> Result<
    (Option<Seq<u8>>, int),
    ProtocolError,
> {
    if present {
        match spec_read_binary(b, pos) {
            Err(e) => Err(e),
            Ok((s, next)) => Ok((Some(s), next)),
        }
    } else {
        Ok((None, pos))
    }
}

/// The will topic and will payload of CONNECT, skipped when `present` holds.
pub open spec fn spec_skip_will(b: Seq<u8>, pos: int, present: bool) -> Result<int, ProtocolError> {
    if present {
        match spec_read_string(b, pos) {
            Err(e) => Err(e),
            Ok((_, p)) => match spec_read_binary(b, p) {
                Err(e) => Err(e),
                Ok((_, q)) => Ok(q),
            },
        }
    } else {
        Ok(pos)
    }
}

/// The protocol name "MQTT".
pub open spec fn mqtt_name() -> Seq<char> {
    seq!['M', 'Q', 'T', 'T']
}

/// The protocol name "MQIsdp" of MQTT 3.1.
pub open spec fn mqisdp_name() -> Seq<char> {
    seq!['M', 'Q', 'I', 's', 'd', 'p']
}

/// The payload of CONNECT from `pos` on, after its variable header.
pub open spec fn spec_parse_connect_payload(
    b: Seq<u8>,
    pos: int,
    version: ProtocolVersion,
    flags: u8,
    keep_alive: u16,
) -> Result<SpecPacket, ProtocolError> {
    match spec_read_string(b, pos) {
        Err(e) => Err(e),
        Ok((client_id, p1)) => match spec_skip_will(b, p1, (flags & 0x04) != 0) {
            Err(e) => Err(e),
            Ok(p2) => match spec_read_opt_string(b, p2, (flags & 0x80) != 0) {
                Err(e) => Err(e),
                Ok((username, p3)) => match spec_read_opt_binary(b, p3, (flags & 0x40) != 0) {
                    Err(e) => Err(e),
                    Ok((password, _)) => Ok(
                        SpecPacket::Connect {
                            protocol_version: version,
                            clean_session: (flags & 0x02) != 0,
                            keep_alive,
                            client_id,
                            username,
                            password,
                        },
                    ),
                },
            },
        },
    }
}

/// The body of a CONNECT packet.
pub open spec fn spec_parse_connect(b: Seq<u8>) -> Result<SpecPacket, ProtocolError> {
    match spec_read_string(b, 0) {
        Err(e) => Err(e),
        Ok((name, p)) => if name != mqtt_name() && name != mqisdp_name() {
            Err(ProtocolError::InvalidPacketType(0))
        } else if b.len() - p < 4 {
            Err(ProtocolError::Incomplete)
        } else {
            match version_from_level(b[p]) {
                Err(e) => Err(e),
                Ok(version) => spec_parse_connect_payload(
                    b,
                    p + 4,
                    version,
                    b[p + 1],
                    spec_read_u16(b, p + 2),
                ),
            }
        },
    }
}

/// The body of a CONNACK packet.
pub open spec fn spec_parse_connack(b: Seq<u8>) -> Result<SpecPacket, ProtocolError> {
    if b.len() < 2 {
        Err(ProtocolError::Incomplete)
    } else {
        match return_code_from_byte(b[1]) {
            Err(e) => Err(e),
            Ok(code) => Ok(
                SpecPacket::ConnAck { session_present: (b[0] & 0x01) != 0, return_code: code },
            ),
        }
    }
}

/// The QoS field (bits 1 and 2) of a PUBLISH first header byte.
pub open spec fn publish_qos_bits(first_byte: u8) -> u8 {
    ((first_byte & 0x0F) >> 1) & 0x03
}

/// The body of a PUBLISH packet whose first header byte is `first_byte`.
pub open spec fn spec_parse_publish(first_byte: u8, b: Seq<u8>) -> Result<SpecPacket, ProtocolError> {
    let flags = first_byte & 0x0F;
    match qos_from_level(publish_qos_bits(first_byte)) {
        Err(e) => Err(e),
        Ok(qos) => match spec_read_string(b, 0) {
            Err(e) => Err(e),
            Ok((topic, p)) => if qos != QoS::AtMostOnce {
                if b.len() - p < 2 {
                    Err(ProtocolError::Incomplete)
                } else {
                    Ok(
                        SpecPacket::Publish {
                            topic,
                            qos,
                            retain: (flags & 0x01) != 0,
                            dup: (flags & 0x08) != 0,
                            packet_id: Some(spec_read_u16(b, p)),
                            payload: b.subrange(p + 2, b.len() as int),
                        },
                    )
                }
            } else {
                Ok(
                    SpecPacket::Publish {
                        topic,
                        qos,
                        retain: (flags & 0x01) != 0,
                        dup: (flags & 0x08) != 0,
                        packet_id: None,
                        payload: b.subrange(p, b.len() as int),
                    },
                )
            },
        },
    }
}

/// The topic filters of a SUBSCRIBE payload from `pos` on, appended to `acc`.
pub open spec fn spec_parse_topics(b: Seq<u8>, pos: int, acc: Seq<(Seq<char>, QoS)>) -> Result<
    Seq<(Seq<char>, QoS)>,
    ProtocolError,
>
    decreases b.len() - pos,
{
    if pos < 0 || pos >= b.len() {
        Ok(acc)
    } else {
        match spec_read_string(b, pos) {
            Err(e) => Err(e),
            Ok((filter, p)) => if b.len() - p < 1 {
                Err(ProtocolError::Incomplete)
            } else {
                match qos_from_level(b[p]) {
                    Err(e) => Err(e),
                    Ok(qos) => spec_parse_topics(b, p + 1, acc.push((filter, qos))),
                }
            },
        }
    }
}

/// The body of a SUBSCRIBE packet.
pub open spec fn spec_parse_subscribe(b: Seq<u8>) -> Result<SpecPacket, ProtocolError> {
    if b.len() < 2 {
        Err(ProtocolError::Incomplete)
    } else {
        match spec_parse_topics(b, 2, seq![]) {
            Err(e) => Err(e),
            Ok(topics) => if topics.len() == 0 {
                Err(ProtocolError::Incomplete)
            } else {
                Ok(SpecPacket::Subscribe { packet_id: spec_read_u16(b, 0), topics })
            },
        }
    }
}

/// The return codes of a SUBACK payload from `pos` on, appended to `acc`.
pub open spec fn spec_parse_codes(b: Seq<u8>, pos: int, acc: Seq<SubAckReturnCode>) -> Result<
    Seq<SubAckReturnCode>,
    ProtocolError,
>
    decreases b.len() - pos,
{
    if pos < 0 || pos >= b.len() {
        Ok(acc)
    } else {
        match suback_from_byte(b[pos]) {
            Err(e) => Err(e),
            Ok(code) => spec_parse_codes(b, pos + 1, acc.push(code)),
        }
    }
}

/// The body of a SUBACK packet.
pub open spec fn spec_parse_suback(b: Seq<u8>) -> Result<SpecPacket, ProtocolError> {
    if b.len() < 2 {
        Err(ProtocolError::Incomplete)
    } else {
        match spec_parse_codes(b, 2, seq![]) {
            Err(e) => Err(e),
            Ok(codes) => Ok(SpecPacket::SubAck { packet_id: spec_read_u16(b, 0), return_codes: codes }),
        }
    }
}

/// A parsed packet, as a frame result.
pub open spec fn some_packet(r: Result<SpecPacket, ProtocolError>) -> Result<Option<SpecPacket>, ProtocolError> {
    match r {
        Ok(p) => Ok(Some(p)),
        Err(e) => Err(e),
    }
}

/// The packet that the body of a frame of type `t` holds. Types that this
/// codec does not read give `Ok(None)`.
pub open spec fn spec_parse_body(t: PacketType, first_byte: u8, body: Seq<u8>) -> Result<
    Option<SpecPacket>,
    ProtocolError,
> {
    match t {
        PacketType::Connect => some_packet(spec_parse_connect(body)),
        PacketType::ConnAck => some_packet(spec_parse_connack(body)),
        PacketType::PingReq => Ok(Some(SpecPacket::PingReq)),
        PacketType::PingResp => Ok(Some(SpecPacket::PingResp)),
        PacketType::Disconnect => Ok(Some(SpecPacket::Disconnect)),
        PacketType::Publish => some_packet(spec_parse_publish(first_byte, body)),
        PacketType::Subscribe => some_packet(spec_parse_subscribe(body)),
        PacketType::SubAck => some_packet(spec_parse_suback(body)),
        _ => Ok(None),
    }
}

/// Reading one frame from the start of `src` with a packet size limit of `max`:
/// the outcome, and how many bytes of `src` are consumed. Nothing is consumed
/// while the frame is incomplete or when its header is refused; once the whole
/// frame is there it is consumed, whatever its body holds.
pub open spec fn spec_decode_frame(max: int, src: Seq<u8>) -> (Result<Option<SpecPacket>, ProtocolError>, int) {
    if src.len() < 2 {
        (Ok(None), 0)
    } else {
        match packet_type_from_byte(src[0]) {
            Err(e) => (Err(e), 0),
            Ok(t) => match spec_decode_varint(src.subrange(1, src.len() as int)) {
                Err(e) => (Err(e), 0),
                Ok(None) => (Ok(None), 0),
                Ok(Some((len, n))) => if len > max {
                    (Err(ProtocolError::PacketTooLarge), 0)
                } else if src.len() < 1 + n + len {
                    (Ok(None), 0)
                } else {
                    (spec_parse_body(t, src[0], src.subrange(1 + n, 1 + n + len)), 1 + n + len)
                },
            },
        }
    }
}

/// The length-prefixed encoding of a string; the prefix is the byte length
/// truncated to sixteen bits.
pub open spec fn encode_str(s: Seq<char>) -> Seq<u8> {
    u16_bytes((encode_utf8(s).len() % 65536) as u16) + encode_utf8(s)
}

/// The length-prefixed encoding of a byte field; the prefix is the length
/// truncated to sixteen bits.
pub open spec fn encode_binary(b: Seq<u8>) -> Seq<u8> {
    u16_bytes((b.len() % 65536) as u16) + b
}

/// An optional string field.
pub open spec fn encode_opt_str(s: Option<Seq<char>>) -> Seq<u8> {
    match s {
        Some(v) => encode_str(v),
        None => seq![],
    }
}

/// An optional byte field.
pub open spec fn encode_opt_binary(b: Option<Seq<u8>>) -> Seq<u8> {
    match b {
        Some(v) => encode_binary(v),
        None => seq![],
    }
}

/// The connect flags byte written for CONNECT.
pub open spec fn connect_flags(clean_session: bool, has_username: bool, has_password: bool) -> u8 {
    ((if clean_session { 0x02int } else { 0 }) + (if has_username { 0x80int } else { 0 }) + (
    if has_password { 0x40int } else { 0 })) as u8
}

/// The body written for CONNECT.
pub open spec fn connect_body(
    version: ProtocolVersion,
    clean_session: bool,
    keep_alive: u16,
    client_id: Seq<char>,
    username: Option<Seq<char>>,
    password: Option<Seq<u8>>,
) -> Seq<u8> {
    encode_str(mqtt_name()) + seq![
        version_level(version),
        connect_flags(clean_session, username is Some, password is Some),
    ] + u16_bytes(keep_alive) + encode_str(client_id) + encode_opt_str(username)
        + encode_opt_binary(password)
}

/// The topic filters of a SUBSCRIBE payload.
pub open spec fn encode_topics(topics: Seq<(Seq<char>, QoS)>) -> Seq<u8>
    decreases topics.len(),
{
    if topics.len() == 0 {
        seq![]
    } else {
        encode_topics(topics.drop_last()) + encode_str(topics.last().0) + seq![
            qos_level(topics.last().1),
        ]
    }
}

/// The return codes of a SUBACK payload.
pub open spec fn encode_codes(codes: Seq<SubAckReturnCode>) -> Seq<u8> {
    codes.map_values(|c: SubAckReturnCode| suback_byte(c))
}

/// A frame: first byte, remaining length, body. The output stops after the
/// first byte when the body is longer than a variable byte integer can say.
pub open spec fn encode_frame(first_byte: u8, body: Seq<u8>) -> (Seq<u8>, Option<ProtocolError>) {
    if body.len() > VARINT_MAX {
        (seq![first_byte], Some(ProtocolError::MalformedRemainingLength))
    } else {
        (seq![first_byte] + spec_encode_varint(body.len()) + body, None)
    }
}

/// The first header byte of PUBLISH.
pub open spec fn publish_first_byte(qos: QoS, retain: bool, dup: bool) -> u8 {
    (0x30int + (if dup { 0x08int } else { 0 }) + 2 * qos_level(qos) + (if retain { 1int } else { 0 })) as u8
}

/// The remaining length of PUBLISH.
pub open spec fn publish_remaining(topic: Seq<char>, qos: QoS, payload: Seq<u8>) -> int {
    2 + encode_utf8(topic).len() + (if qos != QoS::AtMostOnce { 2int } else { 0 }) + payload.len()
}

/// What writing PUBLISH appends, and the error it stops with, if any. A QoS
/// above 0 without a packet identifier stops the output after the topic.
pub open spec fn encode_publish(
    topic: Seq<char>,
    qos: QoS,
    retain: bool,
    dup: bool,
    packet_id: Option<u16>,
    payload: Seq<u8>,
) -> (Seq<u8>, Option<ProtocolError>) {
    let first = publish_first_byte(qos, retain, dup);
    let remaining = publish_remaining(topic, qos, payload);
    if remaining > VARINT_MAX {
        (seq![first], Some(ProtocolError::MalformedRemainingLength))
    } else {
        let head = seq![first] + spec_encode_varint(remaining as nat) + encode_str(topic);
        if qos != QoS::AtMostOnce {
            match packet_id {
                None => (head, Some(ProtocolError::Incomplete)),
                Some(id) => (head + u16_bytes(id) + payload, None),
            }
        } else {
            (head + payload, None)
        }
    }
}

/// What writing a packet appends to the output, and the error it stops with, if any.
pub open spec fn spec_encode(p: SpecPacket) -> (Seq<u8>, Option<ProtocolError>) {
    match p {
        SpecPacket::Connect {
            protocol_version,
            clean_session,
            keep_alive,
            client_id,
            username,
            password,
        } => encode_frame(
            0x10,
            connect_body(protocol_version, clean_session, keep_alive, client_id, username, password),
        ),
        SpecPacket::ConnAck { session_present, return_code } => (
            seq![0x20u8, 2u8, if session_present { 1u8 } else { 0u8 }, return_code_byte(return_code)],
            None,
        ),
        SpecPacket::PingReq => (seq![0xC0u8, 0u8], None),
        SpecPacket::PingResp => (seq![0xD0u8, 0u8], None),
        SpecPacket::Disconnect => (seq![0xE0u8, 0u8], None),
        SpecPacket::Publish { topic, qos, retain, dup, packet_id, payload } => encode_publish(
            topic,
            qos,
            retain,
            dup,
            packet_id,
            payload,
        ),
        SpecPacket::Subscribe { packet_id, topics } => encode_frame(
            0x82,
            u16_bytes(packet_id) + encode_topics(topics),
        ),
        SpecPacket::SubAck { packet_id, return_codes } => encode_frame(
            0x90,
            u16_bytes(packet_id) + encode_codes(return_codes),
        ),
    }
}

} // verus!
