//! Reading and writing MQTT frames on byte buffers.
use vstd::prelude::*;
use vstd::slice::{slice_subrange, slice_to_vec};
use vstd::string::StringSliceAdditionalSpecFns;
use vstd::utf8::{decode_utf8, encode_utf8, valid_utf8};

use bytes::BytesMut;

use crate::buffer::{buffer_advance, buffer_bytes, buffer_extend, buffer_reserve, buffer_slice};
use crate::error::ProtocolError;
use crate::format::{
    encode_publish, connect_body, connect_flags, encode_codes, encode_frame, encode_topics, publish_first_byte, publish_remaining,
    spec_encode,
    encode_str, mqisdp_name, mqtt_name, spec_decode_frame, spec_parse_connack, spec_parse_connect,
    spec_parse_codes, spec_parse_publish, spec_parse_suback, spec_parse_subscribe, spec_parse_topics,
    spec_read_binary, spec_read_string, spec_read_u16, u16_bytes,
};
use crate::packet::{
    opt_bytes_view, opt_str_view, topics_view, ConnectReturnCode, Packet, PacketType, ProtocolVersion, QoS, SpecPacket,
    SubAckReturnCode, SubscribeTopic,
};
use crate::varint::{decode_varint, encode_varint, spec_decode_varint, spec_encode_varint, VARINT_MAX};

verus! {

/// The packet size limit of `MqttCodec::default`.
pub const DEFAULT_MAX_PACKET_SIZE: usize = 2 * 1024 * 1024;

/// Frames and unframes MQTT control packets.
#[derive(Debug, Clone)]
pub struct MqttCodec {
    max_packet_size: usize,
}

impl View for MqttCodec {
    /// The largest remaining length this codec accepts when reading.
    type V = nat;

    closed spec fn view(&self) -> nat {
        self.max_packet_size as nat
    }
}

impl Default for MqttCodec {
    fn default() -> (r: MqttCodec)
        ensures
            r@ == DEFAULT_MAX_PACKET_SIZE,
    {
        MqttCodec { max_packet_size: DEFAULT_MAX_PACKET_SIZE }
    }
}

/// The view of a body parse.
pub open spec fn packet_result(r: Result<Packet, ProtocolError>) -> Result<SpecPacket, ProtocolError> {
    match r {
        Ok(p) => Ok(p@),
        Err(e) => Err(e),
    }
}

/// The view of a frame read.
pub open spec fn frame_result(r: Result<Option<Packet>, ProtocolError>) -> Result<
    Option<SpecPacket>,
    ProtocolError,
> {
    match r {
        Ok(Some(p)) => Ok(Some(p@)),
        Ok(None) => Ok(None),
        Err(e) => Err(e),
    }
}

/// `std::str::from_utf8`: it succeeds exactly on valid UTF-8 input, and the
/// string it returns is made of exactly the input bytes.
#[verifier::external_body]
fn str_from_utf8(bytes: &[u8]) -> (r: Option<&str>)
    ensures
        r is Some <==> valid_utf8(bytes@),
        r matches Some(s) ==> s.spec_bytes() == bytes@,
{
    std::str::from_utf8(bytes).ok()
}

/// A big-endian two-byte integer at `pos`.
fn read_u16(buf: &[u8], pos: usize) -> (r: u16)
    requires
        pos + 2 <= buf@.len(),
    ensures
        r == spec_read_u16(buf@, pos as int),
{
    (buf[pos] as u16) * 256 + (buf[pos + 1] as u16)
}

/// Bounds of the length-prefixed byte field at `pos`.
fn read_binary(buf: &[u8], pos: usize) -> (r: Result<(usize, usize), ProtocolError>)
    requires
        pos <= buf@.len(),
    ensures
        match r {
            Ok((start, end)) => start == pos + 2 && end == start + spec_read_u16(buf@, pos as int)
                && start <= end <= buf@.len() && spec_read_binary(
                buf@,
                pos as int,
            ) == Ok::<(Seq<u8>, int), ProtocolError>((buf@.subrange(start as int, end as int), end as int)),
            Err(e) => spec_read_binary(buf@, pos as int) == Err::<(Seq<u8>, int), ProtocolError>(e) && (
            buf@.len() - pos < 2 || buf@.len() - (pos + 2) < spec_read_u16(buf@, pos as int)),
        },
{
    if buf.len() - pos < 2 {
        return Err(ProtocolError::Incomplete);
    }
    let len = read_u16(buf, pos) as usize;
    if buf.len() - (pos + 2) < len {
        return Err(ProtocolError::Incomplete);
    }
    Ok((pos + 2, pos + 2 + len))
}

/// Where reading the length-prefixed string at `pos` stops when it fails: at
/// `pos` when the two-byte length is not all there, after the length when the
/// bytes it announces are not all there, and after those bytes when they are
/// not UTF-8.
spec fn string_stop(buf: Seq<u8>, pos: int) -> int {
    if buf.len() - pos < 2 {
        pos
    } else if buf.len() - (pos + 2) < spec_read_u16(buf, pos) {
        pos + 2
    } else {
        pos + 2 + spec_read_u16(buf, pos)
    }
}

impl MqttCodec {
    /// A codec that refuses frames whose remaining length exceeds `max_packet_size`.
    pub fn new(max_packet_size: usize) -> (r: MqttCodec)
        ensures
            r@ == max_packet_size,
    {
        MqttCodec { max_packet_size }
    }

    /// Reads the length-prefixed UTF-8 string at `pos`; gives it and the
    /// position after it, or the error and the position where reading stopped
    /// (see `string_stop`).
    fn decode_string(buf: &[u8], pos: usize) -> (r: Result<(String, usize), (ProtocolError, usize)>)
        requires
            pos <= buf@.len(),
        ensures
            match r {
                Ok((s, next)) => next <= buf@.len() && spec_read_string(buf@, pos as int) == Ok::<
                    (Seq<char>, int),
                    ProtocolError,
                >((s@, next as int)),
                Err((e, at)) => spec_read_string(buf@, pos as int) == Err::<(Seq<char>, int), ProtocolError>(e)
                    && at == string_stop(buf@, pos as int),
            },
    {
        let (start, end) = match read_binary(buf, pos) {
            Ok(bounds) => bounds,
            Err(e) => {
                let at = if buf.len() - pos < 2 { pos } else { pos + 2 };
                return Err((e, at));
            },
        };
        let raw = slice_subrange(buf, start, end);
        match str_from_utf8(raw) {
            Some(s) => {
                proof {
                    vstd::utf8::encode_utf8_decode_utf8(s@);
                }
                Ok((s.to_owned(), end))
            },
            None => Err((ProtocolError::InvalidUtf8, end)),
        }
    }

    /// Appends `src` with its sixteen-bit length prefix (the byte length truncated to sixteen bits).
    fn encode_string(src: &str, dst: &mut Vec<u8>)
        ensures
            final(dst)@ == old(dst)@ + encode_str(src@),
    {
        let bytes = src.as_bytes();
        let len = bytes.len();
        let ghost start = dst@;
        push_u16((len % 65536) as u16, dst);
        push_bytes(bytes, dst);
        assert(dst@ =~= start + encode_str(src@));
    }
}

/// Appends the big-endian bytes of `v`.
fn push_u16(v: u16, dst: &mut Vec<u8>)
    ensures
        final(dst)@ == old(dst)@ + u16_bytes(v),
{
    dst.push((v / 256) as u8);
    dst.push((v % 256) as u8);
}

/// Appends the bytes of `src`.
fn push_bytes(src: &[u8], dst: &mut Vec<u8>)
    ensures
        final(dst)@ == old(dst)@ + src@,
{
    let ghost start = dst@;
    let mut i: usize = 0;
    while i < src.len()
        invariant
            i <= src@.len(),
            dst@ == start + src@.subrange(0, i as int),
        decreases src@.len() - i,
    {
        dst.push(src[i]);
        i += 1;
        assert(dst@ =~= start + src@.subrange(0, i as int));
    }
    assert(src@.subrange(0, i as int) =~= src@);
}

/// Whether a protocol name is one that CONNECT accepts ("MQTT" or "MQIsdp").
fn is_protocol_name(name: &String) -> (r: bool)
    ensures
        r == (name@ == mqtt_name() || name@ == mqisdp_name()),
{
    proof {
        reveal_strlit("MQTT");
        reveal_strlit("MQIsdp");
    }
    let mqtt = "MQTT".to_owned();
    let mqisdp = "MQIsdp".to_owned();
    assert(mqtt@ =~= mqtt_name());
    assert(mqisdp@ =~= mqisdp_name());
    *name == mqtt || *name == mqisdp
}

/// Reads the body of CONNECT.
fn decode_connect(body: &[u8]) -> (r: Result<Packet, ProtocolError>)
    ensures
        packet_result(r) == spec_parse_connect(body@),
{
    let (proto_name, p) = match MqttCodec::decode_string(body, 0) {
        Ok(x) => x,
        Err((e, _)) => return Err(e),
    };
    if !is_protocol_name(&proto_name) {
        return Err(ProtocolError::InvalidPacketType(0));
    }
    if body.len() - p < 4 {
        return Err(ProtocolError::Incomplete);
    }
    let version_byte = body[p];
    let protocol_version = match ProtocolVersion::try_from(version_byte) {
        Ok(v) => v,
        Err(e) => return Err(e),
    };
    let connect_flags = body[p + 1];
    let keep_alive = read_u16(body, p + 2);

    let clean_session = (connect_flags & 0x02) != 0;
    let has_will = (connect_flags & 0x04) != 0;
    let has_username = (connect_flags & 0x80) != 0;
    let has_password = (connect_flags & 0x40) != 0;

    let (client_id, p1) = match MqttCodec::decode_string(body, p + 4) {
        Ok(x) => x,
        Err((e, _)) => return Err(e),
    };

    let p2 = if has_will {
        let (_will_topic, q) = match MqttCodec::decode_string(body, p1) {
            Ok(x) => x,
            Err((e, _)) => return Err(e),
        };
        match read_binary(body, q) {
            Ok((_, end)) => end,
            Err(e) => return Err(e),
        }
    } else {
        p1
    };

    let (username, p3) = if has_username {
        match MqttCodec::decode_string(body, p2) {
            Ok((u, q)) => (Some(u), q),
            Err((e, _)) => return Err(e),
        }
    } else {
        (None, p2)
    };

    let password = if has_password {
        match read_binary(body, p3) {
            Ok((start, end)) => Some(slice_to_vec(slice_subrange(body, start, end))),
            Err(e) => return Err(e),
        }
    } else {
        None
    };

    Ok(Packet::Connect { protocol_version, clean_session, keep_alive, client_id, username, password })
}

/// Reads the body of CONNACK.
fn decode_connack(body: &[u8]) -> (r: Result<Packet, ProtocolError>)
    ensures
        packet_result(r) == spec_parse_connack(body@),
{
    if body.len() < 2 {
        return Err(ProtocolError::Incomplete);
    }
    let flags = body[0];
    let session_present = (flags & 0x01) != 0;
    let return_code = match ConnectReturnCode::try_from(body[1]) {
        Ok(c) => c,
        Err(e) => return Err(e),
    };
    Ok(Packet::ConnAck { session_present, return_code })
}

/// Reads the body of PUBLISH, whose flags are the low bits of `first_byte`.
fn decode_publish(first_byte: u8, body: &[u8]) -> (r: Result<Packet, ProtocolError>)
    ensures
        packet_result(r) == spec_parse_publish(first_byte, body@),
{
    let flags = first_byte & 0x0F;
    let dup = (flags & 0x08) != 0;
    let qos_val = (flags >> 1) & 0x03;
    let retain = (flags & 0x01) != 0;
    let qos = match QoS::try_from(qos_val) {
        Ok(q) => q,
        Err(e) => return Err(e),
    };
    let (topic, p) = match MqttCodec::decode_string(body, 0) {
        Ok(x) => x,
        Err((e, _)) => return Err(e),
    };
    let (packet_id, start) = if qos != QoS::AtMostOnce {
        if body.len() - p < 2 {
            return Err(ProtocolError::Incomplete);
        }
        (Some(read_u16(body, p)), p + 2)
    } else {
        (None, p)
    };
    let payload = slice_to_vec(slice_subrange(body, start, body.len()));
    Ok(Packet::Publish { topic, qos, retain, dup, packet_id, payload })
}

/// Reads the body of SUBSCRIBE: a packet identifier and one or more topic filters.
fn decode_subscribe(body: &[u8]) -> (r: Result<Packet, ProtocolError>)
    ensures
        packet_result(r) == spec_parse_subscribe(body@),
{
    if body.len() < 2 {
        return Err(ProtocolError::Incomplete);
    }
    let packet_id = read_u16(body, 0);
    let mut topics: Vec<SubscribeTopic> = Vec::new();
    let mut pos: usize = 2;
    assert(topics_view(topics@) =~= seq![]);
    while pos < body.len()
        invariant
            2 <= pos <= body@.len(),
            spec_parse_topics(body@, 2, seq![]) == spec_parse_topics(
                body@,
                pos as int,
                topics_view(topics@),
            ),
        decreases body@.len() - pos,
    {
        let (filter, p) = match MqttCodec::decode_string(body, pos) {
            Ok(x) => x,
            Err((e, _)) => return Err(e),
        };
        if body.len() - p < 1 {
            return Err(ProtocolError::Incomplete);
        }
        let qos = match QoS::try_from(body[p]) {
            Ok(q) => q,
            Err(e) => return Err(e),
        };
        let ghost before = topics@;
        let topic = SubscribeTopic { filter, qos };
        topics.push(topic);
        assert(topics_view(topics@) =~= topics_view(before).push(topic@));
        pos = p + 1;
    }
    if topics.len() == 0 {
        return Err(ProtocolError::Incomplete);
    }
    Ok(Packet::Subscribe { packet_id, topics })
}

/// Reads the body of SUBACK: a packet identifier and one return code per byte.
fn decode_suback(body: &[u8]) -> (r: Result<Packet, ProtocolError>)
    ensures
        packet_result(r) == spec_parse_suback(body@),
{
    if body.len() < 2 {
        return Err(ProtocolError::Incomplete);
    }
    let packet_id = read_u16(body, 0);
    let mut return_codes: Vec<SubAckReturnCode> = Vec::new();
    let mut pos: usize = 2;
    while pos < body.len()
        invariant
            2 <= pos <= body@.len(),
            spec_parse_codes(body@, 2, seq![]) == spec_parse_codes(body@, pos as int, return_codes@),
        decreases body@.len() - pos,
    {
        let code = match SubAckReturnCode::try_from(body[pos]) {
            Ok(c) => c,
            Err(e) => return Err(e),
        };
        return_codes.push(code);
        pos += 1;
    }
    Ok(Packet::SubAck { packet_id, return_codes })
}

impl MqttCodec {
    /// Reads one frame from the front of `src`.
    ///
    /// Gives `Ok(None)` and leaves `src` as it is while the frame is
    /// incomplete. Refuses an unknown packet type, a malformed remaining length
    /// or one above the size limit, leaving `src` as it is. Once the whole
    /// frame is there, removes it from `src` and gives the packet it holds, the
    /// error its body raises, or `Ok(None)` for packet types this codec does
    /// not read.
    pub fn decode(&mut self, src: &mut BytesMut) -> (r: Result<Option<Packet>, ProtocolError>)
        ensures
            *final(self) == *old(self),
            frame_result(r) == spec_decode_frame(old(self)@ as int, buffer_bytes(*old(src))).0,
            buffer_bytes(*final(src)) == buffer_bytes(*old(src)).subrange(
                spec_decode_frame(old(self)@ as int, buffer_bytes(*old(src))).1,
                buffer_bytes(*old(src)).len() as int,
            ),
    {
        let bytes = buffer_slice(src);
        let ghost whole = bytes@;
        assert(whole =~= whole.subrange(0, whole.len() as int));
        if bytes.len() < 2 {
            return Ok(None);
        }
        let first_byte = bytes[0];
        let packet_type = match PacketType::try_from(first_byte) {
            Ok(t) => t,
            Err(e) => return Err(e),
        };
        let mut varint_cursor = slice_subrange(bytes, 1, bytes.len());
        let (remaining_length, varint_bytes) = match decode_varint(&mut varint_cursor) {
            Ok(Some(x)) => x,
            Ok(None) => return Ok(None),
            Err(e) => return Err(e),
        };
        if remaining_length > self.max_packet_size {
            return Err(ProtocolError::PacketTooLarge);
        }
        let fixed_header_len = 1 + varint_bytes;
        let total_packet_len = fixed_header_len + remaining_length;
        if bytes.len() < total_packet_len {
            let missing = total_packet_len - bytes.len();
            buffer_reserve(src, missing);
            return Ok(None);
        }
        let body = slice_subrange(bytes, fixed_header_len, total_packet_len);
        assert(body@ =~= whole.subrange(1 + varint_bytes, 1 + varint_bytes + remaining_length));
        let r = match packet_type {
            PacketType::Connect => match decode_connect(body) {
                Ok(p) => Ok(Some(p)),
                Err(e) => Err(e),
            },
            PacketType::ConnAck => match decode_connack(body) {
                Ok(p) => Ok(Some(p)),
                Err(e) => Err(e),
            },
            PacketType::PingReq => Ok(Some(Packet::PingReq)),
            PacketType::PingResp => Ok(Some(Packet::PingResp)),
            PacketType::Disconnect => Ok(Some(Packet::Disconnect)),
            PacketType::Publish => match decode_publish(first_byte, body) {
                Ok(p) => Ok(Some(p)),
                Err(e) => Err(e),
            },
            PacketType::Subscribe => match decode_subscribe(body) {
                Ok(p) => Ok(Some(p)),
                Err(e) => Err(e),
            },
            PacketType::SubAck => match decode_suback(body) {
                Ok(p) => Ok(Some(p)),
                Err(e) => Err(e),
            },
            _ => Ok(None),
        };
        buffer_advance(src, total_packet_len);
        r
    }
}

/// Whether a write's outcome is the one the format prescribes.
pub open spec fn write_outcome(r: Result<(), ProtocolError>, expected: Option<ProtocolError>) -> bool {
    match r {
        Ok(_) => expected is None,
        Err(e) => expected == Some(e),
    }
}

/// Appends a frame: the first byte, the remaining length, the body.
fn write_frame(first_byte: u8, body: &Vec<u8>, dst: &mut Vec<u8>) -> (r: Result<(), ProtocolError>)
    ensures
        final(dst)@ == old(dst)@ + encode_frame(first_byte, body@).0,
        write_outcome(r, encode_frame(first_byte, body@).1),
{
    let ghost start = dst@;
    dst.push(first_byte);
    let mut varint_buf: Vec<u8> = Vec::with_capacity(4);
    match encode_varint(body.len(), &mut varint_buf) {
        Ok(_) => {},
        Err(e) => return Err(e),
    }
    push_bytes(varint_buf.as_slice(), dst);
    push_bytes(body.as_slice(), dst);
    assert(dst@ =~= start + encode_frame(first_byte, body@).0);
    Ok(())
}

/// Appends the frame of CONNECT.
fn encode_connect(
    protocol_version: ProtocolVersion,
    clean_session: bool,
    keep_alive: u16,
    client_id: &String,
    username: &Option<String>,
    password: &Option<Vec<u8>>,
    dst: &mut Vec<u8>,
) -> (r: Result<(), ProtocolError>)
    ensures
        final(dst)@ == old(dst)@ + encode_frame(
            0x10,
            connect_body(
                protocol_version,
                clean_session,
                keep_alive,
                client_id@,
                opt_str_view(*username),
                opt_bytes_view(*password),
            ),
        ).0,
        write_outcome(
            r,
            encode_frame(
                0x10,
                connect_body(
                    protocol_version,
                    clean_session,
                    keep_alive,
                    client_id@,
                    opt_str_view(*username),
                    opt_bytes_view(*password),
                ),
            ).1,
        ),
{
    let mut body: Vec<u8> = Vec::new();
    proof {
        reveal_strlit("MQTT");
    }
    assert("MQTT"@ =~= mqtt_name());
    MqttCodec::encode_string("MQTT", &mut body);
    body.push(protocol_version.level());
    let c: u8 = if clean_session { 0x02 } else { 0 };
    let u: u8 = if username.is_some() { 0x80 } else { 0 };
    let pw: u8 = if password.is_some() { 0x40 } else { 0 };
    let flags: u8 = c | u | pw;
    assert((c == 0 || c == 2) && (u == 0 || u == 0x80) && (pw == 0 || pw == 0x40) ==> c | u | pw
        == c + u + pw) by (bit_vector);
    body.push(flags);
    push_u16(keep_alive, &mut body);
    MqttCodec::encode_string(client_id.as_str(), &mut body);
    if let Some(user) = username {
        MqttCodec::encode_string(user.as_str(), &mut body);
    }
    if let Some(pass) = password {
        push_u16((pass.len() % 65536) as u16, &mut body);
        push_bytes(pass.as_slice(), &mut body);
    }
    assert(body@ =~= connect_body(
        protocol_version,
        clean_session,
        keep_alive,
        client_id@,
        opt_str_view(*username),
        opt_bytes_view(*password),
    ));
    write_frame(PacketType::Connect.code() * 16, &body, dst)
}

/// Appends the frame of PUBLISH.
fn encode_publish_frame(
    topic: &String,
    qos: QoS,
    retain: bool,
    dup: bool,
    packet_id: Option<u16>,
    payload: &Vec<u8>,
    dst: &mut Vec<u8>,
) -> (r: Result<(), ProtocolError>)
    ensures
        final(dst)@ == old(dst)@ + encode_publish(topic@, qos, retain, dup, packet_id, payload@).0,
        write_outcome(r, encode_publish(topic@, qos, retain, dup, packet_id, payload@).1),
{
    let ghost start = dst@;
    let ghost expected = encode_publish(topic@, qos, retain, dup, packet_id, payload@);
    let q = qos.level();
    let d: u8 = if dup { 0x08 } else { 0 };
    let rt: u8 = if retain { 0x01 } else { 0 };
    let type_bits = PacketType::Publish.code() * 16;
    let first_byte: u8 = type_bits | d | (q << 1) | rt;
    assert(type_bits == 0x30 && q <= 2 && (d == 0 || d == 8) && (rt == 0 || rt == 1) ==> type_bits
        | d | (q << 1) | rt == 0x30 + d + 2 * q + rt) by (bit_vector);
    let topic_len = topic.as_str().as_bytes().len();
    let remaining_len: usize = if topic_len > VARINT_MAX || payload.len() > VARINT_MAX {
        VARINT_MAX + 1
    } else {
        let id_len: usize = if qos != QoS::AtMostOnce { 2 } else { 0 };
        2 + topic_len + id_len + payload.len()
    };
    dst.push(first_byte);
    let mut varint_buf: Vec<u8> = Vec::with_capacity(4);
    match encode_varint(remaining_len, &mut varint_buf) {
        Ok(_) => {},
        Err(e) => {
            assert(dst@ =~= start + expected.0);
            return Err(e);
        },
    }
    push_bytes(varint_buf.as_slice(), dst);
    MqttCodec::encode_string(topic.as_str(), dst);
    if qos != QoS::AtMostOnce {
        let id = match packet_id {
            Some(id) => id,
            None => {
                assert(dst@ =~= start + expected.0);
                return Err(ProtocolError::Incomplete);
            },
        };
        push_u16(id, dst);
    }
    push_bytes(payload.as_slice(), dst);
    assert(dst@ =~= start + expected.0);
    Ok(())
}

/// Appends the frame of SUBSCRIBE.
fn encode_subscribe(packet_id: u16, topics: &Vec<SubscribeTopic>, dst: &mut Vec<u8>) -> (r: Result<
    (),
    ProtocolError,
>)
    ensures
        final(dst)@ == old(dst)@ + encode_frame(
            0x82,
            u16_bytes(packet_id) + encode_topics(topics_view(topics@)),
        ).0,
        write_outcome(
            r,
            encode_frame(0x82, u16_bytes(packet_id) + encode_topics(topics_view(topics@))).1,
        ),
{
    let type_bits = PacketType::Subscribe.code() * 16;
    let first_byte = type_bits | 0x02;
    assert(type_bits == 0x80 ==> type_bits | 0x02 == 0x82u8) by (bit_vector);
    let mut body: Vec<u8> = Vec::new();
    push_u16(packet_id, &mut body);
    let ghost tv = topics_view(topics@);
    let mut i: usize = 0;
    assert(tv.take(0) =~= seq![]);
    assert(body@ =~= u16_bytes(packet_id) + encode_topics(tv.take(0)));
    while i < topics.len()
        invariant
            i <= topics@.len(),
            tv == topics_view(topics@),
            body@ == u16_bytes(packet_id) + encode_topics(tv.take(i as int)),
        decreases topics@.len() - i,
    {
        MqttCodec::encode_string(topics[i].filter.as_str(), &mut body);
        body.push(topics[i].qos.level());
        assert(tv.take(i + 1).drop_last() =~= tv.take(i as int));
        i += 1;
        assert(body@ =~= u16_bytes(packet_id) + encode_topics(tv.take(i as int)));
    }
    assert(tv.take(i as int) =~= tv);
    write_frame(first_byte, &body, dst)
}

/// Appends the frame of SUBACK.
fn encode_suback(packet_id: u16, return_codes: &Vec<SubAckReturnCode>, dst: &mut Vec<u8>) -> (r:
    Result<(), ProtocolError>)
    ensures
        final(dst)@ == old(dst)@ + encode_frame(
            0x90,
            u16_bytes(packet_id) + encode_codes(return_codes@),
        ).0,
        write_outcome(r, encode_frame(0x90, u16_bytes(packet_id) + encode_codes(return_codes@)).1),
{
    let first_byte = PacketType::SubAck.code() * 16;
    let mut body: Vec<u8> = Vec::new();
    push_u16(packet_id, &mut body);
    let mut i: usize = 0;
    assert(body@ =~= u16_bytes(packet_id) + encode_codes(return_codes@.take(0)));
    while i < return_codes.len()
        invariant
            i <= return_codes@.len(),
            body@ == u16_bytes(packet_id) + encode_codes(return_codes@.take(i as int)),
        decreases return_codes@.len() - i,
    {
        body.push(return_codes[i].code());
        i += 1;
        assert(body@ =~= u16_bytes(packet_id) + encode_codes(return_codes@.take(i as int)));
    }
    assert(return_codes@.take(i as int) =~= return_codes@);
    write_frame(first_byte, &body, dst)
}

/// Appends the frame of `item` to `dst`, as `MqttCodec::encode` does.
fn write_packet(item: Packet, dst: &mut Vec<u8>) -> (r: Result<(), ProtocolError>)
    ensures
        final(dst)@ == old(dst)@ + spec_encode(item@).0,
        write_outcome(r, spec_encode(item@).1),
{
    let ghost start = dst@;
    let ghost spec_item = item@;
    match item {
        Packet::Connect {
            protocol_version,
            clean_session,
            keep_alive,
            client_id,
            username,
            password,
        } => encode_connect(
            protocol_version,
            clean_session,
            keep_alive,
            &client_id,
            &username,
            &password,
            dst,
        ),
        Packet::ConnAck { session_present, return_code } => {
            dst.push(PacketType::ConnAck.code() * 16);
            dst.push(2);
            dst.push(if session_present { 0x01 } else { 0x00 });
            dst.push(return_code.code());
            assert(dst@ =~= start + spec_encode(spec_item).0);
            Ok(())
        },
        Packet::PingReq => {
            dst.push(PacketType::PingReq.code() * 16);
            dst.push(0);
            assert(dst@ =~= start + spec_encode(spec_item).0);
            Ok(())
        },
        Packet::PingResp => {
            dst.push(PacketType::PingResp.code() * 16);
            dst.push(0);
            assert(dst@ =~= start + spec_encode(spec_item).0);
            Ok(())
        },
        Packet::Disconnect => {
            dst.push(PacketType::Disconnect.code() * 16);
            dst.push(0);
            assert(dst@ =~= start + spec_encode(spec_item).0);
            Ok(())
        },
        Packet::Publish { topic, qos, retain, dup, packet_id, payload } => encode_publish_frame(
            &topic,
            qos,
            retain,
            dup,
            packet_id,
            &payload,
            dst,
        ),
        Packet::Subscribe { packet_id, topics } => encode_subscribe(packet_id, &topics, dst),
        Packet::SubAck { packet_id, return_codes } => encode_suback(
            packet_id,
            &return_codes,
            dst,
        ),
    }
}

impl MqttCodec {
    /// Appends the frame of `item` to `dst`.
    ///
    /// Strings and the password carry their length truncated to sixteen bits.
    /// A body longer than a remaining length can say is refused with
    /// `MalformedRemainingLength` after the first byte; a PUBLISH with QoS
    /// above 0 and no packet identifier is refused with `Incomplete` after its
    /// topic. What was appended before the refusal stays in `dst`.
    pub fn encode(&mut self, item: Packet, dst: &mut BytesMut) -> (r: Result<(), ProtocolError>)
        requires
            buffer_bytes(*old(dst)).len() + spec_encode(item@).0.len() <= isize::MAX,
        ensures
            *final(self) == *old(self),
            buffer_bytes(*final(dst)) == buffer_bytes(*old(dst)) + spec_encode(item@).0,
            write_outcome(r, spec_encode(item@).1),
    {
        let mut frame: Vec<u8> = Vec::new();
        let r = write_packet(item, &mut frame);
        buffer_extend(dst, frame.as_slice());
        r
    }
}

} // verus!
