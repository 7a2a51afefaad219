//! Reading back what was written: decoding the frame of a packet gives the packet.
use vstd::prelude::*;
use vstd::utf8::{decode_utf8, encode_utf8, is_ascii_chars, valid_utf8};

use crate::varint::{lemma_varint_roundtrip, spec_decode_varint, spec_encode_varint, VARINT_MAX};

use crate::error::ProtocolError;
use crate::format::{
    connect_body, connect_flags, encode_publish, mqtt_name, publish_first_byte, publish_qos_bits,
    publish_remaining, spec_decode_frame, spec_encode, spec_parse_body, spec_parse_connack,
    spec_parse_connect, spec_parse_connect_payload, spec_parse_publish, spec_parse_suback, spec_parse_subscribe, encode_binary, encode_codes, encode_frame, encode_opt_binary, encode_opt_str, encode_str,
    encode_topics, spec_parse_codes, spec_parse_topics, spec_read_binary, spec_read_string,
    spec_read_u16, u16_bytes,
};
use crate::packet::{
    packet_type_from_byte, PacketType, SpecPacket, qos_from_level, qos_level, return_code_byte, return_code_from_byte, suback_byte,
    suback_from_byte, version_from_level, version_level, ConnectReturnCode, ProtocolVersion, QoS,
    SubAckReturnCode,
};

verus! {

broadcast use vstd::utf8::encode_utf8_valid_utf8, vstd::utf8::encode_utf8_decode_utf8;

/// A string whose UTF-8 encoding fits a sixteen-bit length prefix.
pub open spec fn str_fits(s: Seq<char>) -> bool {
    encode_utf8(s).len() < 65536
}

/// Each level byte reads back as the value it was written for.
pub proof fn lemma_enum_bytes(q: QoS, v: ProtocolVersion, c: ConnectReturnCode, s: SubAckReturnCode)
    ensures
        qos_from_level(qos_level(q)) == Ok::<QoS, ProtocolError>(q),
        version_from_level(version_level(v)) == Ok::<ProtocolVersion, ProtocolError>(v),
        return_code_from_byte(return_code_byte(c)) == Ok::<ConnectReturnCode, ProtocolError>(c),
        suback_from_byte(suback_byte(s)) == Ok::<SubAckReturnCode, ProtocolError>(s),
{
}

/// A two-byte big-endian integer reads back.
pub proof fn lemma_read_u16(b: Seq<u8>, pos: int, v: u16)
    requires
        0 <= pos,
        pos + 2 <= b.len(),
        b.subrange(pos, pos + 2) == u16_bytes(v),
    ensures
        spec_read_u16(b, pos) == v,
{
    assert(b[pos] == b.subrange(pos, pos + 2)[0]);
    assert(b[pos + 1] == b.subrange(pos, pos + 2)[1]);
}

/// A length-prefixed byte field reads back.
pub proof fn lemma_read_binary(b: Seq<u8>, pos: int, x: Seq<u8>)
    requires
        0 <= pos,
        x.len() < 65536,
        pos + encode_binary(x).len() <= b.len(),
        b.subrange(pos, pos + encode_binary(x).len()) == encode_binary(x),
    ensures
        spec_read_binary(b, pos) == Ok::<(Seq<u8>, int), ProtocolError>((x, pos + 2 + x.len())),
{
    let e = encode_binary(x);
    assert(b.subrange(pos, pos + 2) =~= e.subrange(0, 2));
    assert(e.subrange(0, 2) =~= u16_bytes((x.len() % 65536) as u16));
    lemma_read_u16(b, pos, (x.len() % 65536) as u16);
    assert(b.subrange(pos + 2, pos + 2 + x.len()) =~= e.subrange(2, e.len() as int));
    assert(e.subrange(2, e.len() as int) =~= x);
}

/// A length-prefixed string reads back.
pub proof fn lemma_read_string(b: Seq<u8>, pos: int, s: Seq<char>)
    requires
        0 <= pos,
        str_fits(s),
        pos + encode_str(s).len() <= b.len(),
        b.subrange(pos, pos + encode_str(s).len()) == encode_str(s),
    ensures
        spec_read_string(b, pos) == Ok::<(Seq<char>, int), ProtocolError>(
            (s, pos + encode_str(s).len()),
        ),
{
    assert(encode_str(s) =~= encode_binary(encode_utf8(s)));
    lemma_read_binary(b, pos, encode_utf8(s));
}

/// The encoding of topic filters, read from the front.
pub proof fn lemma_encode_topics_front(ts: Seq<(Seq<char>, QoS)>)
    requires
        ts.len() > 0,
    ensures
        encode_topics(ts) =~= encode_str(ts[0].0) + seq![qos_level(ts[0].1)] + encode_topics(
            ts.drop_first(),
        ),
    decreases ts.len(),
{
    if ts.len() == 1 {
        assert(ts.drop_last() =~= seq![]);
        assert(ts.drop_first() =~= seq![]);
    } else {
        lemma_encode_topics_front(ts.drop_last());
        assert(ts.drop_last().drop_first() =~= ts.drop_first().drop_last());
        assert(ts.drop_first().last() == ts.last());
    }
}

/// Topic filters read back, after those already read.
pub proof fn lemma_parse_topics(
    b: Seq<u8>,
    pos: int,
    acc: Seq<(Seq<char>, QoS)>,
    ts: Seq<(Seq<char>, QoS)>,
)
    requires
        0 <= pos <= b.len(),
        b.subrange(pos, b.len() as int) == encode_topics(ts),
        forall|i: int| 0 <= i < ts.len() ==> str_fits(#[trigger] ts[i].0),
    ensures
        spec_parse_topics(b, pos, acc) == Ok::<Seq<(Seq<char>, QoS)>, ProtocolError>(acc + ts),
    decreases ts.len(),
{
    if ts.len() == 0 {
        assert(acc + ts =~= acc);
    } else {
        lemma_encode_topics_front(ts);
        let e = encode_str(ts[0].0);
        let rest = b.subrange(pos, b.len() as int);
        assert(b.subrange(pos, pos + e.len()) =~= rest.subrange(0, e.len() as int));
        assert(rest.subrange(0, e.len() as int) =~= e);
        assert(str_fits(ts[0].0));
        lemma_read_string(b, pos, ts[0].0);
        assert(b[pos + e.len()] == rest[e.len() as int]);
        lemma_enum_bytes(ts[0].1, ProtocolVersion::Mqtt311, ConnectReturnCode::Accepted, SubAckReturnCode::Failure);
        assert(rest.subrange(e.len() as int + 1, rest.len() as int) =~= encode_topics(ts.drop_first()));
        assert(b.subrange(pos + e.len() + 1, b.len() as int) =~= rest.subrange(
            e.len() as int + 1,
            rest.len() as int,
        ));
        assert forall|i: int| 0 <= i < ts.drop_first().len() implies str_fits(
            #[trigger] ts.drop_first()[i].0,
        ) by {
            assert(ts.drop_first()[i] == ts[i + 1]);
        }
        lemma_parse_topics(b, pos + e.len() + 1, acc.push(ts[0]), ts.drop_first());
        assert(acc.push(ts[0]) + ts.drop_first() =~= acc + ts);
    }
}

/// Return codes read back, after those already read.
pub proof fn lemma_parse_codes(b: Seq<u8>, pos: int, acc: Seq<SubAckReturnCode>, cs: Seq<SubAckReturnCode>)
    requires
        0 <= pos <= b.len(),
        b.subrange(pos, b.len() as int) == encode_codes(cs),
    ensures
        spec_parse_codes(b, pos, acc) == Ok::<Seq<SubAckReturnCode>, ProtocolError>(acc + cs),
    decreases cs.len(),
{
    assert(encode_codes(cs).len() == cs.len());
    if cs.len() == 0 {
        assert(acc + cs =~= acc);
    } else {
        let rest = b.subrange(pos, b.len() as int);
        assert(encode_codes(cs) =~= seq![suback_byte(cs[0])] + encode_codes(cs.drop_first()));
        assert(rest.len() == cs.len());
        assert(b[pos] == rest[0]);
        lemma_enum_bytes(QoS::AtMostOnce, ProtocolVersion::Mqtt311, ConnectReturnCode::Accepted, cs[0]);
        assert(rest.subrange(1, rest.len() as int) =~= encode_codes(cs.drop_first()));
        assert(b.subrange(pos + 1, b.len() as int) =~= rest.subrange(1, rest.len() as int));
        lemma_parse_codes(b, pos + 1, acc.push(cs[0]), cs.drop_first());
        assert(acc.push(cs[0]) + cs.drop_first() =~= acc + cs);
    }
}

/// A frame whose body a variable byte integer can measure reads back as the
/// body's packet, consuming exactly the frame.
pub proof fn lemma_read_frame(max: int, first: u8, t: PacketType, body: Seq<u8>, rest: Seq<u8>)
    requires
        body.len() <= VARINT_MAX,
        body.len() <= max,
        packet_type_from_byte(first) == Ok::<PacketType, ProtocolError>(t),
    ensures
        encode_frame(first, body).1 is None,
        spec_decode_frame(max, encode_frame(first, body).0 + rest) == (
            spec_parse_body(t, first, body),
            encode_frame(first, body).0.len() as int,
        ),
{
    let v = spec_encode_varint(body.len());
    lemma_varint_roundtrip(body.len(), body + rest);
    let src = encode_frame(first, body).0 + rest;
    assert(src =~= seq![first] + v + body + rest);
    assert(src.subrange(1, src.len() as int) =~= v + (body + rest));
    assert(src.subrange(1 + v.len() as int, 1 + v.len() as int + body.len()) =~= body);
}

/// The bits of the connect flags byte read back as the choices that made it.
pub proof fn lemma_connect_flags(clean_session: bool, has_username: bool, has_password: bool)
    ensures
        ({
            let f = connect_flags(clean_session, has_username, has_password);
            &&& ((f & 0x02) != 0) == clean_session
            &&& (f & 0x04) == 0
            &&& ((f & 0x80) != 0) == has_username
            &&& ((f & 0x40) != 0) == has_password
        }),
{
    let c: u8 = if clean_session { 2 } else { 0 };
    let u: u8 = if has_username { 128 } else { 0 };
    let p: u8 = if has_password { 64 } else { 0 };
    let f = connect_flags(clean_session, has_username, has_password);
    assert(f == c + u + p);
    assert((c == 0 || c == 2) && (u == 0 || u == 128) && (p == 0 || p == 64) && f == c + u + p ==> (
    (f & 0x02) != 0) == (c == 2) && (f & 0x04) == 0 && ((f & 0x80) != 0) == (u == 128) && ((f & 0x40)
        != 0) == (p == 64)) by (bit_vector);
}

/// The payload of CONNECT (client identifier, user name, password) reads back.
pub proof fn lemma_connect_payload(
    b: Seq<u8>,
    pos: int,
    version: ProtocolVersion,
    clean_session: bool,
    keep_alive: u16,
    client_id: Seq<char>,
    username: Option<Seq<char>>,
    password: Option<Seq<u8>>,
)
    requires
        0 <= pos <= b.len(),
        b.subrange(pos, b.len() as int) == encode_str(client_id) + encode_opt_str(username)
            + encode_opt_binary(password),
        str_fits(client_id),
        username matches Some(u) ==> str_fits(u),
        password matches Some(pw) ==> pw.len() < 65536,
    ensures
        spec_parse_connect_payload(
            b,
            pos,
            version,
            connect_flags(clean_session, username is Some, password is Some),
            keep_alive,
        ) == Ok::<SpecPacket, ProtocolError>(
            SpecPacket::Connect {
                protocol_version: version,
                clean_session,
                keep_alive,
                client_id,
                username,
                password,
            },
        ),
{
    let d = encode_str(client_id);
    let u = encode_opt_str(username);
    let p = encode_opt_binary(password);
    let tail = b.subrange(pos, b.len() as int);
    lemma_connect_flags(clean_session, username is Some, password is Some);
    assert(b.subrange(pos, pos + d.len()) =~= tail.subrange(0, d.len() as int));
    assert(tail.subrange(0, d.len() as int) =~= d);
    lemma_read_string(b, pos, client_id);
    let p2: int = pos + d.len();
    assert(b.subrange(p2, p2 + u.len()) =~= tail.subrange(d.len() as int, d.len() as int + u.len()));
    assert(tail.subrange(d.len() as int, d.len() as int + u.len()) =~= u);
    if let Some(name) = username {
        lemma_read_string(b, p2, name);
    }
    let p3: int = p2 + u.len();
    assert(b.subrange(p3, p3 + p.len()) =~= tail.subrange(d.len() as int + u.len(), tail.len() as int));
    assert(tail.subrange(d.len() as int + u.len(), tail.len() as int) =~= p);
    if let Some(pw) = password {
        lemma_read_binary(b, p3, pw);
    }
}

/// The body of CONNECT reads back.
pub proof fn lemma_connect_roundtrip(
    version: ProtocolVersion,
    clean_session: bool,
    keep_alive: u16,
    client_id: Seq<char>,
    username: Option<Seq<char>>,
    password: Option<Seq<u8>>,
)
    requires
        str_fits(client_id),
        username matches Some(u) ==> str_fits(u),
        password matches Some(pw) ==> pw.len() < 65536,
    ensures
        spec_parse_connect(
            connect_body(version, clean_session, keep_alive, client_id, username, password),
        ) == Ok::<SpecPacket, ProtocolError>(
            SpecPacket::Connect {
                protocol_version: version,
                clean_session,
                keep_alive,
                client_id,
                username,
                password,
            },
        ),
{
    let b = connect_body(version, clean_session, keep_alive, client_id, username, password);
    let a = encode_str(mqtt_name());
    let flags = connect_flags(clean_session, username is Some, password is Some);
    let payload = encode_str(client_id) + encode_opt_str(username) + encode_opt_binary(password);
    assert(is_ascii_chars(mqtt_name()));
    vstd::utf8::is_ascii_chars_encode_utf8(mqtt_name());
    assert(a.len() == 6);
    assert(b =~= a + seq![version_level(version), flags] + u16_bytes(keep_alive) + payload);
    assert(b.subrange(0, 6) =~= a);
    lemma_read_string(b, 0, mqtt_name());
    assert(b[6] == version_level(version));
    assert(b[7] == flags);
    lemma_enum_bytes(QoS::AtMostOnce, version, ConnectReturnCode::Accepted, SubAckReturnCode::Failure);
    assert(b.subrange(8, 10) =~= u16_bytes(keep_alive));
    lemma_read_u16(b, 8, keep_alive);
    assert(b.subrange(10, b.len() as int) =~= payload);
    lemma_connect_payload(b, 10, version, clean_session, keep_alive, client_id, username, password);
}

/// The bits of the PUBLISH first byte read back as the choices that made it.
pub proof fn lemma_publish_first_byte(qos: QoS, retain: bool, dup: bool)
    ensures
        ({
            let f = publish_first_byte(qos, retain, dup);
            &&& f / 16 == 3
            &&& publish_qos_bits(f) == qos_level(qos)
            &&& ((f & 0x0F) & 0x01 != 0) == retain
            &&& ((f & 0x0F) & 0x08 != 0) == dup
        }),
{
    let d: u8 = if dup { 8 } else { 0 };
    let r: u8 = if retain { 1 } else { 0 };
    let q = qos_level(qos);
    let f = publish_first_byte(qos, retain, dup);
    assert(f == 0x30 + d + 2 * q + r);
    assert((d == 0 || d == 8) && (r == 0 || r == 1) && q <= 2 && f == 0x30 + d + 2 * q + r ==> f / 16
        == 3 && ((f & 0x0F) >> 1) & 0x03 == q && (((f & 0x0F) & 0x01) != 0) == (r == 1) && (((f
        & 0x0F) & 0x08) != 0) == (d == 8)) by (bit_vector);
}

/// The body of PUBLISH: topic, packet identifier when QoS is above 0, payload.
pub open spec fn publish_body(topic: Seq<char>, qos: QoS, packet_id: Option<u16>, payload: Seq<u8>) -> Seq<u8> {
    match packet_id {
        Some(id) => encode_str(topic) + u16_bytes(id) + payload,
        None => encode_str(topic) + payload,
    }
}

/// A PUBLISH whose packet identifier is there exactly when its QoS asks for
/// one is written as a frame around its body, and that body reads back.
pub proof fn lemma_publish_roundtrip(
    topic: Seq<char>,
    qos: QoS,
    retain: bool,
    dup: bool,
    packet_id: Option<u16>,
    payload: Seq<u8>,
)
    requires
        str_fits(topic),
        (qos == QoS::AtMostOnce) == (packet_id is None),
        publish_remaining(topic, qos, payload) <= VARINT_MAX,
    ensures
        encode_publish(topic, qos, retain, dup, packet_id, payload) == encode_frame(
            publish_first_byte(qos, retain, dup),
            publish_body(topic, qos, packet_id, payload),
        ),
        publish_body(topic, qos, packet_id, payload).len() == publish_remaining(topic, qos, payload),
        spec_parse_publish(publish_first_byte(qos, retain, dup), publish_body(topic, qos, packet_id, payload))
            == Ok::<SpecPacket, ProtocolError>(
            SpecPacket::Publish { topic, qos, retain, dup, packet_id, payload },
        ),
{
    let first = publish_first_byte(qos, retain, dup);
    let b = publish_body(topic, qos, packet_id, payload);
    let e = encode_str(topic);
    lemma_publish_first_byte(qos, retain, dup);
    lemma_enum_bytes(qos, ProtocolVersion::Mqtt311, ConnectReturnCode::Accepted, SubAckReturnCode::Failure);
    assert(b.subrange(0, e.len() as int) =~= e);
    lemma_read_string(b, 0, topic);
    match packet_id {
        Some(id) => {
            assert(b.subrange(e.len() as int, e.len() as int + 2) =~= u16_bytes(id));
            lemma_read_u16(b, e.len() as int, id);
            assert(b.subrange(e.len() as int + 2, b.len() as int) =~= payload);
            assert(encode_publish(topic, qos, retain, dup, packet_id, payload).0 =~= encode_frame(
                first,
                b,
            ).0);
        },
        None => {
            assert(b.subrange(e.len() as int, b.len() as int) =~= payload);
            assert(encode_publish(topic, qos, retain, dup, packet_id, payload).0 =~= encode_frame(
                first,
                b,
            ).0);
        },
    }
}

/// Whether reading back the frame of `p` gives `p`: its strings and password
/// fit a sixteen-bit length, its remaining length fits a variable byte
/// integer, a PUBLISH has a packet identifier exactly when its QoS is above 0,
/// and a SUBSCRIBE names at least one topic filter.
pub open spec fn roundtrips(p: SpecPacket) -> bool {
    match p {
        SpecPacket::Connect {
            protocol_version,
            clean_session,
            keep_alive,
            client_id,
            username,
            password,
        } => {
            &&& str_fits(client_id)
            &&& username matches Some(u) ==> str_fits(u)
            &&& password matches Some(pw) ==> pw.len() < 65536
            &&& connect_body(
                protocol_version,
                clean_session,
                keep_alive,
                client_id,
                username,
                password,
            ).len() <= VARINT_MAX
        },
        SpecPacket::Publish { topic, qos, retain, dup, packet_id, payload } => {
            &&& str_fits(topic)
            &&& (qos == QoS::AtMostOnce) == (packet_id is None)
            &&& publish_remaining(topic, qos, payload) <= VARINT_MAX
        },
        SpecPacket::Subscribe { packet_id, topics } => {
            &&& topics.len() > 0
            &&& forall|i: int| 0 <= i < topics.len() ==> str_fits(#[trigger] topics[i].0)
            &&& 2 + encode_topics(topics).len() <= VARINT_MAX
        },
        SpecPacket::SubAck { packet_id, return_codes } => 2 + return_codes.len() <= VARINT_MAX,
        _ => true,
    }
}

/// The remaining length of the frame of `p`.
pub open spec fn remaining_length(p: SpecPacket) -> int {
    match p {
        SpecPacket::Connect {
            protocol_version,
            clean_session,
            keep_alive,
            client_id,
            username,
            password,
        } => connect_body(
            protocol_version,
            clean_session,
            keep_alive,
            client_id,
            username,
            password,
        ).len() as int,
        SpecPacket::ConnAck { .. } => 2,
        SpecPacket::Publish { topic, qos, retain, dup, packet_id, payload } => publish_remaining(
            topic,
            qos,
            payload,
        ),
        SpecPacket::Subscribe { packet_id, topics } => 2 + encode_topics(topics).len() as int,
        SpecPacket::SubAck { packet_id, return_codes } => 2 + return_codes.len() as int,
        _ => 0,
    }
}

/// Whether the frame written for `p` reads back as `p`, consuming all of it.
pub open spec fn reads_back(max: int, p: SpecPacket, rest: Seq<u8>) -> bool {
    &&& spec_encode(p).1 is None
    &&& spec_decode_frame(max, spec_encode(p).0 + rest) == (
        Ok::<Option<SpecPacket>, ProtocolError>(Some(p)),
        spec_encode(p).0.len() as int,
    )
}

proof fn lemma_connect_reads_back(max: int, p: SpecPacket, rest: Seq<u8>)
    requires
        p is Connect,
        roundtrips(p),
        remaining_length(p) <= max,
    ensures
        reads_back(max, p, rest),
{
    if let SpecPacket::Connect {
        protocol_version,
        clean_session,
        keep_alive,
        client_id,
        username,
        password,
    } = p {
        lemma_connect_roundtrip(protocol_version, clean_session, keep_alive, client_id, username, password);
        lemma_read_frame(
            max,
            0x10,
            PacketType::Connect,
            connect_body(protocol_version, clean_session, keep_alive, client_id, username, password),
            rest,
        );
    }
}

proof fn lemma_connack_reads_back(max: int, p: SpecPacket, rest: Seq<u8>)
    requires
        p is ConnAck,
        remaining_length(p) <= max,
    ensures
        reads_back(max, p, rest),
{
    if let SpecPacket::ConnAck { session_present, return_code } = p {
        reveal_with_fuel(spec_encode_varint, 2);
        let sp: u8 = if session_present { 1u8 } else { 0u8 };
        let body = seq![sp, return_code_byte(return_code)];
        lemma_read_frame(max, 0x20, PacketType::ConnAck, body, rest);
        assert(spec_encode(p).0 =~= encode_frame(0x20, body).0);
        assert((sp == 0 || sp == 1) ==> ((sp & 0x01) != 0) == (sp == 1)) by (bit_vector);
        lemma_enum_bytes(QoS::AtMostOnce, ProtocolVersion::Mqtt311, return_code, SubAckReturnCode::Failure);
        assert(spec_parse_connack(body) == Ok::<SpecPacket, ProtocolError>(p));
    }
}

proof fn lemma_empty_reads_back(max: int, p: SpecPacket, rest: Seq<u8>, first: u8, t: PacketType)
    requires
        p is PingReq || p is PingResp || p is Disconnect,
        p is PingReq ==> first == 0xC0 && t == PacketType::PingReq,
        p is PingResp ==> first == 0xD0 && t == PacketType::PingResp,
        p is Disconnect ==> first == 0xE0 && t == PacketType::Disconnect,
        max >= 0,
    ensures
        reads_back(max, p, rest),
{
    reveal_with_fuel(spec_encode_varint, 2);
    lemma_read_frame(max, first, t, seq![], rest);
    assert(spec_encode(p).0 =~= encode_frame(first, seq![]).0);
}

proof fn lemma_publish_reads_back(max: int, p: SpecPacket, rest: Seq<u8>)
    requires
        p is Publish,
        roundtrips(p),
        remaining_length(p) <= max,
    ensures
        reads_back(max, p, rest),
{
    if let SpecPacket::Publish { topic, qos, retain, dup, packet_id, payload } = p {
        lemma_publish_roundtrip(topic, qos, retain, dup, packet_id, payload);
        lemma_publish_first_byte(qos, retain, dup);
        lemma_read_frame(
            max,
            publish_first_byte(qos, retain, dup),
            PacketType::Publish,
            publish_body(topic, qos, packet_id, payload),
            rest,
        );
    }
}

proof fn lemma_subscribe_reads_back(max: int, p: SpecPacket, rest: Seq<u8>)
    requires
        p is Subscribe,
        roundtrips(p),
        remaining_length(p) <= max,
    ensures
        reads_back(max, p, rest),
{
    if let SpecPacket::Subscribe { packet_id, topics } = p {
        let body = u16_bytes(packet_id) + encode_topics(topics);
        assert(body.subrange(0, 2) =~= u16_bytes(packet_id));
        lemma_read_u16(body, 0, packet_id);
        assert(body.subrange(2, body.len() as int) =~= encode_topics(topics));
        lemma_parse_topics(body, 2, seq![], topics);
        assert(seq![] + topics =~= topics);
        lemma_read_frame(max, 0x82, PacketType::Subscribe, body, rest);
    }
}

proof fn lemma_suback_reads_back(max: int, p: SpecPacket, rest: Seq<u8>)
    requires
        p is SubAck,
        roundtrips(p),
        remaining_length(p) <= max,
    ensures
        reads_back(max, p, rest),
{
    if let SpecPacket::SubAck { packet_id, return_codes } = p {
        let body = u16_bytes(packet_id) + encode_codes(return_codes);
        assert(encode_codes(return_codes).len() == return_codes.len());
        assert(body.subrange(0, 2) =~= u16_bytes(packet_id));
        lemma_read_u16(body, 0, packet_id);
        assert(body.subrange(2, body.len() as int) =~= encode_codes(return_codes));
        lemma_parse_codes(body, 2, seq![], return_codes);
        assert(seq![] + return_codes =~= return_codes);
        lemma_read_frame(max, 0x90, PacketType::SubAck, body, rest);
    }
}

/// What is written for a packet is read back as that packet, whatever bytes
/// follow it, by a codec whose size limit admits its remaining length; the
/// write succeeds and the read consumes exactly the bytes written.
pub proof fn lemma_decode_encode(max: int, p: SpecPacket, rest: Seq<u8>)
    requires
        roundtrips(p),
        remaining_length(p) <= max,
    ensures
        spec_encode(p).1 is None,
        spec_decode_frame(max, spec_encode(p).0 + rest) == (
            Ok::<Option<SpecPacket>, ProtocolError>(Some(p)),
            spec_encode(p).0.len() as int,
        ),
{
    match p {
        SpecPacket::Connect { .. } => lemma_connect_reads_back(max, p, rest),
        SpecPacket::Publish { .. } => lemma_publish_reads_back(max, p, rest),
        SpecPacket::Subscribe { .. } => lemma_subscribe_reads_back(max, p, rest),
        SpecPacket::SubAck { .. } => lemma_suback_reads_back(max, p, rest),
        SpecPacket::ConnAck { .. } => lemma_connack_reads_back(max, p, rest),
        SpecPacket::PingReq => lemma_empty_reads_back(max, p, rest, 0xC0, PacketType::PingReq),
        SpecPacket::PingResp => lemma_empty_reads_back(max, p, rest, 0xD0, PacketType::PingResp),
        SpecPacket::Disconnect => lemma_empty_reads_back(max, p, rest, 0xE0, PacketType::Disconnect),
    }
}
} // verus!
