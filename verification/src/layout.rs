//! The byte layout of MQTT 3.1.1 control packets, written out field by field,
//! and the laws that hold the codec's reading and writing to it.
use vstd::prelude::*;
use vstd::utf8::{encode_utf8, is_ascii_chars};

use crate::error::ProtocolError;
use crate::format::{
    connect_body, connect_flags, publish_first_byte, publish_remaining, encode_binary, encode_codes, encode_frame, encode_opt_binary, encode_opt_str, encode_str,
    encode_topics, mqtt_name, spec_decode_frame, spec_encode, spec_parse_connect,
    spec_parse_connect_payload, spec_read_binary, spec_read_opt_binary, spec_read_opt_string, spec_read_string,
    spec_read_u16, spec_skip_will, u16_bytes,
};
use crate::packet::{
    packet_type_from_byte, qos_level, return_code_from_byte, suback_byte, version_level,
    ConnectReturnCode, PacketType, ProtocolVersion, QoS, SpecPacket, SubAckReturnCode,
};
use crate::roundtrip::{
    lemma_decode_encode, lemma_encode_topics_front, lemma_enum_bytes, lemma_read_binary,
    lemma_publish_roundtrip, lemma_read_frame, lemma_read_string, lemma_read_u16, publish_body, str_fits,
};
use crate::varint::{spec_encode_varint, VARINT_MAX};

verus! {

broadcast use vstd::utf8::encode_utf8_valid_utf8, vstd::utf8::encode_utf8_decode_utf8;

/// Two bytes holding `v`, the most significant first.
pub open spec fn big_endian(v: nat) -> Seq<u8> {
    seq![(v / 256) as u8, (v % 256) as u8]
}

/// A field preceded by its length in two bytes, the most significant first.
pub open spec fn prefixed(b: Seq<u8>) -> Seq<u8> {
    big_endian(b.len()) + b
}

/// A frame: the byte that gives packet type and flags, the remaining length
/// as a variable byte integer, and the body.
pub open spec fn framed(first: u8, body: Seq<u8>) -> Seq<u8> {
    seq![first] + spec_encode_varint(body.len()) + body
}

/// The will of a CONNECT: its QoS bits, its retain bit, its topic and its message.
pub type Will = (u8, bool, Seq<char>, Seq<u8>);

/// Whether a will can be written: a QoS that fits two bits, a topic and a
/// message whose lengths fit two bytes.
pub open spec fn will_fits(will: Option<Will>) -> bool {
    match will {
        Some((q, _, topic, message)) => q < 4 && str_fits(topic) && message.len() < 65536,
        None => true,
    }
}

/// The connect flags: bit 1 clean session, bit 2 will, bits 3 and 4 will
/// QoS, bit 5 will retain, bit 6 password, bit 7 user name.
pub open spec fn connect_flag_byte(
    clean_session: bool,
    will: Option<Will>,
    has_username: bool,
    has_password: bool,
) -> u8 {
    ((if clean_session { 0x02int } else { 0 }) + (match will {
        Some((q, r, _, _)) => 0x04int + 8 * q + (if r { 0x20int } else { 0 }),
        None => 0,
    }) + (if has_password { 0x40int } else { 0 }) + (if has_username { 0x80int } else { 0 })) as u8
}

/// The will topic (UTF-8) and the will message (any bytes), each length-prefixed.
pub open spec fn will_fields(will: Option<Will>) -> Seq<u8> {
    match will {
        Some((_, _, topic, message)) => prefixed(encode_utf8(topic)) + prefixed(message),
        None => seq![],
    }
}

/// A length-prefixed UTF-8 field when there is a string.
pub open spec fn opt_text(s: Option<Seq<char>>) -> Seq<u8> {
    match s {
        Some(v) => prefixed(encode_utf8(v)),
        None => seq![],
    }
}

/// A length-prefixed byte field when there are bytes.
pub open spec fn opt_bytes(b: Option<Seq<u8>>) -> Seq<u8> {
    match b {
        Some(v) => prefixed(v),
        None => seq![],
    }
}

/// The body of CONNECT: protocol name "MQTT", protocol level, connect flags,
/// keep alive; then client identifier, will topic and will message, user
/// name and password, each there when its flag says so, in that order.
pub open spec fn connect_layout(
    version: ProtocolVersion,
    clean_session: bool,
    will: Option<Will>,
    keep_alive: u16,
    client_id: Seq<char>,
    username: Option<Seq<char>>,
    password: Option<Seq<u8>>,
) -> Seq<u8> {
    prefixed(encode_utf8(seq!['M', 'Q', 'T', 'T'])) + seq![
        version_level(version),
        connect_flag_byte(clean_session, will, username is Some, password is Some),
    ] + big_endian(keep_alive as nat) + prefixed(encode_utf8(client_id)) + will_fields(will)
        + opt_text(username) + opt_bytes(password)
}

/// The topic filters of SUBSCRIBE, first to last: each filter length-prefixed,
/// then its requested QoS.
pub open spec fn filter_entries(topics: Seq<(Seq<char>, QoS)>) -> Seq<u8>
    decreases topics.len(),
{
    if topics.len() == 0 {
        seq![]
    } else {
        prefixed(encode_utf8(topics[0].0)) + seq![qos_level(topics[0].1)] + filter_entries(
            topics.drop_first(),
        )
    }
}

proof fn lemma_big_endian(v: u16)
    ensures
        big_endian(v as nat) == u16_bytes(v),
{
}

proof fn lemma_prefixed_bytes(b: Seq<u8>)
    requires
        b.len() < 65536,
    ensures
        prefixed(b) == encode_binary(b),
{
    assert(prefixed(b) =~= encode_binary(b));
}

proof fn lemma_prefixed_text(s: Seq<char>)
    requires
        str_fits(s),
    ensures
        prefixed(encode_utf8(s)) == encode_str(s),
{
    assert(prefixed(encode_utf8(s)) =~= encode_str(s));
}

/// The bits of the connect flags read back as the choices that made them.
proof fn lemma_flag_bits(clean_session: bool, will: Option<Will>, has_username: bool, has_password: bool)
    requires
        will_fits(will),
    ensures
        ({
            let f = connect_flag_byte(clean_session, will, has_username, has_password);
            &&& ((f & 0x02) != 0) == clean_session
            &&& ((f & 0x04) != 0) == (will is Some)
            &&& ((f & 0x80) != 0) == has_username
            &&& ((f & 0x40) != 0) == has_password
        }),
{
    let c: u8 = if clean_session { 2 } else { 0 };
    let w: u8 = match will {
        Some((q, r, _, _)) => (4 + 8 * q + (if r { 0x20u8 } else { 0u8 })) as u8,
        None => 0,
    };
    let u: u8 = if has_username { 128 } else { 0 };
    let p: u8 = if has_password { 64 } else { 0 };
    let f = connect_flag_byte(clean_session, will, has_username, has_password);
    assert(f == c + w + p + u);
    if let Some((q, r, _, _)) = will {
        let rr: u8 = if r { 0x20 } else { 0 };
        assert(w == 4 + 8 * q + rr);
        assert((c == 0 || c == 2) && q < 4 && (rr == 0 || rr == 0x20) && w == 4 + 8 * q + rr && (u
            == 0 || u == 128) && (p == 0 || p == 64) && f == c + w + p + u ==> ((f & 0x02) != 0)
            == (c == 2) && (f & 0x04) != 0 && ((f & 0x80) != 0) == (u == 128) && ((f & 0x40) != 0)
            == (p == 64)) by (bit_vector);
    } else {
        assert((c == 0 || c == 2) && w == 0 && (u == 0 || u == 128) && (p == 0 || p == 64) && f == c
            + w + p + u ==> ((f & 0x02) != 0) == (c == 2) && (f & 0x04) == 0 && ((f & 0x80) != 0)
            == (u == 128) && ((f & 0x40) != 0) == (p == 64)) by (bit_vector);
    }
}

/// The part of `b` from `pos` on splits where `x` ends.
proof fn lemma_split(b: Seq<u8>, pos: int, x: Seq<u8>, y: Seq<u8>)
    requires
        0 <= pos <= b.len(),
        b.subrange(pos, b.len() as int) == x + y,
    ensures
        pos + x.len() <= b.len(),
        b.subrange(pos, pos + x.len()) == x,
        b.subrange(pos + x.len(), b.len() as int) == y,
{
    let t = b.subrange(pos, b.len() as int);
    assert(t.len() == x.len() + y.len());
    assert(b.subrange(pos, pos + x.len()) =~= t.subrange(0, x.len() as int));
    assert(t.subrange(0, x.len() as int) =~= x);
    assert(b.subrange(pos + x.len(), b.len() as int) =~= t.subrange(x.len() as int, t.len() as int));
    assert(t.subrange(x.len() as int, t.len() as int) =~= y);
}

/// A length-prefixed UTF-8 field at `pos` reads back, and reading goes on after it.
proof fn lemma_text_field(b: Seq<u8>, pos: int, s: Seq<char>, after: Seq<u8>)
    requires
        0 <= pos <= b.len(),
        str_fits(s),
        b.subrange(pos, b.len() as int) == prefixed(encode_utf8(s)) + after,
    ensures
        spec_read_string(b, pos) == Ok::<(Seq<char>, int), ProtocolError>(
            (s, pos + prefixed(encode_utf8(s)).len()),
        ),
        b.subrange(pos + prefixed(encode_utf8(s)).len(), b.len() as int) == after,
{
    lemma_split(b, pos, prefixed(encode_utf8(s)), after);
    lemma_prefixed_text(s);
    lemma_read_string(b, pos, s);
}

/// A length-prefixed byte field at `pos` reads back, and reading goes on after it.
proof fn lemma_bytes_field(b: Seq<u8>, pos: int, x: Seq<u8>, after: Seq<u8>)
    requires
        0 <= pos <= b.len(),
        x.len() < 65536,
        b.subrange(pos, b.len() as int) == prefixed(x) + after,
    ensures
        spec_read_binary(b, pos) == Ok::<(Seq<u8>, int), ProtocolError>((x, pos + prefixed(x).len())),
        b.subrange(pos + prefixed(x).len(), b.len() as int) == after,
{
    lemma_split(b, pos, prefixed(x), after);
    lemma_prefixed_bytes(x);
    lemma_read_binary(b, pos, x);
}

/// The will fields at `pos` are skipped, whatever the will message holds.
proof fn lemma_will_skipped(b: Seq<u8>, pos: int, will: Option<Will>, after: Seq<u8>)
    requires
        0 <= pos <= b.len(),
        will_fits(will),
        b.subrange(pos, b.len() as int) == will_fields(will) + after,
    ensures
        spec_skip_will(b, pos, will is Some) == Ok::<int, ProtocolError>(pos + will_fields(will).len()),
        b.subrange(pos + will_fields(will).len(), b.len() as int) == after,
{
    if let Some((_, _, topic, message)) = will {
        let t = prefixed(encode_utf8(topic));
        assert(will_fields(will) + after =~= t + (prefixed(message) + after));
        lemma_text_field(b, pos, topic, prefixed(message) + after);
        lemma_bytes_field(b, pos + t.len(), message, after);
    } else {
        assert(will_fields(will) + after =~= after);
    }
}

/// An optional user name at `pos` reads back.
proof fn lemma_username_field(b: Seq<u8>, pos: int, username: Option<Seq<char>>, after: Seq<u8>)
    requires
        0 <= pos <= b.len(),
        username matches Some(u) ==> str_fits(u),
        b.subrange(pos, b.len() as int) == opt_text(username) + after,
    ensures
        spec_read_opt_string(b, pos, username is Some) == Ok::<(Option<Seq<char>>, int), ProtocolError>(
            (username, pos + opt_text(username).len()),
        ),
        b.subrange(pos + opt_text(username).len(), b.len() as int) == after,
{
    if let Some(u) = username {
        lemma_text_field(b, pos, u, after);
    } else {
        assert(opt_text(username) + after =~= after);
    }
}

/// An optional password at `pos` reads back.
proof fn lemma_password_field(b: Seq<u8>, pos: int, password: Option<Seq<u8>>)
    requires
        0 <= pos <= b.len(),
        password matches Some(pw) ==> pw.len() < 65536,
        b.subrange(pos, b.len() as int) == opt_bytes(password),
    ensures
        spec_read_opt_binary(b, pos, password is Some) matches Ok((pw, _)) && pw == password,
{
    if let Some(pw) = password {
        assert(opt_bytes(password) =~= prefixed(pw) + Seq::<u8>::empty());
        lemma_bytes_field(b, pos, pw, Seq::<u8>::empty());
    }
}

/// The payload of CONNECT, from the client identifier on, reads back.
#[verifier::rlimit(30)]
proof fn lemma_connect_payload_fields(
    b: Seq<u8>,
    pos: int,
    version: ProtocolVersion,
    flags: u8,
    keep_alive: u16,
    clean_session: bool,
    will: Option<Will>,
    client_id: Seq<char>,
    username: Option<Seq<char>>,
    password: Option<Seq<u8>>,
)
    requires
        0 <= pos <= b.len(),
        will_fits(will),
        str_fits(client_id),
        username matches Some(u) ==> str_fits(u),
        password matches Some(pw) ==> pw.len() < 65536,
        flags == connect_flag_byte(clean_session, will, username is Some, password is Some),
        b.subrange(pos, b.len() as int) == prefixed(encode_utf8(client_id)) + will_fields(will)
            + opt_text(username) + opt_bytes(password),
    ensures
        spec_parse_connect_payload(b, pos, version, flags, keep_alive) == Ok::<SpecPacket, ProtocolError>(
            SpecPacket::Connect {
                protocol_version: version,
                clean_session,
                keep_alive,
                client_id,
                username,
                password,
            },
        ),
{
    lemma_flag_bits(clean_session, will, username is Some, password is Some);
    let w = will_fields(will);
    let u = opt_text(username);
    let p = opt_bytes(password);
    let p1: int = pos + prefixed(encode_utf8(client_id)).len();
    assert(prefixed(encode_utf8(client_id)) + w + u + p =~= prefixed(encode_utf8(client_id)) + (w + (u
        + p)));
    lemma_text_field(b, pos, client_id, w + (u + p));
    lemma_will_skipped(b, p1, will, u + p);
    let p2: int = p1 + w.len();
    lemma_username_field(b, p2, username, p);
    let p3: int = p2 + u.len();
    lemma_password_field(b, p3, password);
}

/// The fixed part of a CONNECT body laid out field by field reads back.
proof fn lemma_connect_header(b: Seq<u8>, version: ProtocolVersion, flags: u8, keep_alive: u16, payload: Seq<u8>)
    requires
        b == prefixed(encode_utf8(seq!['M', 'Q', 'T', 'T'])) + seq![version_level(version), flags]
            + big_endian(keep_alive as nat) + payload,
    ensures
        spec_read_string(b, 0) == Ok::<(Seq<char>, int), ProtocolError>((mqtt_name(), 6)),
        b.len() >= 10,
        b[6] == version_level(version),
        b[7] == flags,
        spec_read_u16(b, 8) == keep_alive,
        b.subrange(10, b.len() as int) == payload,
{
    let head = seq![version_level(version), flags] + big_endian(keep_alive as nat);
    assert(seq!['M', 'Q', 'T', 'T'] =~= mqtt_name());
    assert(is_ascii_chars(mqtt_name()));
    vstd::utf8::is_ascii_chars_encode_utf8(mqtt_name());
    assert(str_fits(mqtt_name()));
    assert(b =~= prefixed(encode_utf8(mqtt_name())) + (head + payload));
    assert(b.subrange(0, b.len() as int) =~= b);
    lemma_text_field(b, 0, mqtt_name(), head + payload);
    assert(prefixed(encode_utf8(mqtt_name())).len() == 6);
    let t = b.subrange(6, b.len() as int);
    assert(b[6] == t[0] && t[0] == version_level(version));
    assert(b[7] == t[1] && t[1] == flags);
    lemma_big_endian(keep_alive);
    assert(b.subrange(8, 10) =~= t.subrange(2, 4));
    assert(t.subrange(2, 4) =~= u16_bytes(keep_alive));
    lemma_read_u16(b, 8, keep_alive);
    assert(b.subrange(10, b.len() as int) =~= t.subrange(4, t.len() as int));
    assert(t.subrange(4, t.len() as int) =~= payload);
}

/// The body of CONNECT laid out field by field parses as its packet.
proof fn lemma_connect_layout_parses(
    version: ProtocolVersion,
    clean_session: bool,
    will: Option<Will>,
    keep_alive: u16,
    client_id: Seq<char>,
    username: Option<Seq<char>>,
    password: Option<Seq<u8>>,
)
    requires
        will_fits(will),
        str_fits(client_id),
        username matches Some(u) ==> str_fits(u),
        password matches Some(pw) ==> pw.len() < 65536,
    ensures
        spec_parse_connect(connect_layout(version, clean_session, will, keep_alive, client_id, username, password))
            == Ok::<SpecPacket, ProtocolError>(
            SpecPacket::Connect {
                protocol_version: version,
                clean_session,
                keep_alive,
                client_id,
                username,
                password,
            },
        ),
{
    let b = connect_layout(version, clean_session, will, keep_alive, client_id, username, password);
    let flags = connect_flag_byte(clean_session, will, username is Some, password is Some);
    let payload = prefixed(encode_utf8(client_id)) + will_fields(will) + opt_text(username) + opt_bytes(
        password,
    );
    assert(b =~= prefixed(encode_utf8(seq!['M', 'Q', 'T', 'T'])) + seq![version_level(version), flags]
        + big_endian(keep_alive as nat) + payload);
    lemma_connect_header(b, version, flags, keep_alive, payload);
    lemma_enum_bytes(QoS::AtMostOnce, version, ConnectReturnCode::Accepted, SubAckReturnCode::Failure);
    lemma_connect_payload_fields(
        b,
        10,
        version,
        flags,
        keep_alive,
        clean_session,
        will,
        client_id,
        username,
        password,
    );
}

/// Reading a CONNECT frame laid out as MQTT 3.1.1 lays it out gives its
/// protocol level, clean-session flag, keep alive, client identifier, user
/// name and password, whatever will it carries: the will topic and will
/// message come between the client identifier and the user name, and the will
/// message is skipped whatever bytes it holds. The whole frame is consumed.
pub proof fn law_connect_fields_read_in_order(
    max: int,
    version: ProtocolVersion,
    clean_session: bool,
    will: Option<Will>,
    keep_alive: u16,
    client_id: Seq<char>,
    username: Option<Seq<char>>,
    password: Option<Seq<u8>>,
    rest: Seq<u8>,
)
    requires
        will_fits(will),
        str_fits(client_id),
        username matches Some(u) ==> str_fits(u),
        password matches Some(pw) ==> pw.len() < 65536,
        connect_layout(version, clean_session, will, keep_alive, client_id, username, password).len()
            <= VARINT_MAX,
        connect_layout(version, clean_session, will, keep_alive, client_id, username, password).len()
            <= max,
    ensures
        ({
            let frame = framed(
                0x10,
                connect_layout(version, clean_session, will, keep_alive, client_id, username, password),
            );
            spec_decode_frame(max, frame + rest) == (
                Ok::<Option<SpecPacket>, ProtocolError>(
                    Some(
                        SpecPacket::Connect {
                            protocol_version: version,
                            clean_session,
                            keep_alive,
                            client_id,
                            username,
                            password,
                        },
                    ),
                ),
                frame.len() as int,
            )
        }),
{
    let b = connect_layout(version, clean_session, will, keep_alive, client_id, username, password);
    lemma_connect_layout_parses(version, clean_session, will, keep_alive, client_id, username, password);
    assert(packet_type_from_byte(0x10) == Ok::<PacketType, ProtocolError>(PacketType::Connect));
    lemma_read_frame(max, 0x10, PacketType::Connect, b, rest);
    assert(encode_frame(0x10, b).0 == framed(0x10, b));
}

/// Writing CONNECT lays it out field by field, with no will, and without a
/// user name or password field when there is none.
pub proof fn law_connect_written_layout(
    version: ProtocolVersion,
    clean_session: bool,
    keep_alive: u16,
    client_id: Seq<char>,
    username: Option<Seq<char>>,
    password: Option<Seq<u8>>,
)
    requires
        str_fits(client_id),
        username matches Some(u) ==> str_fits(u),
        password matches Some(pw) ==> pw.len() < 65536,
        connect_layout(version, clean_session, None, keep_alive, client_id, username, password).len()
            <= VARINT_MAX,
    ensures
        spec_encode(
            SpecPacket::Connect {
                protocol_version: version,
                clean_session,
                keep_alive,
                client_id,
                username,
                password,
            },
        ) == (
            framed(
                0x10,
                connect_layout(version, clean_session, None, keep_alive, client_id, username, password),
            ),
            None::<ProtocolError>,
        ),
{
    let l = connect_layout(version, clean_session, None, keep_alive, client_id, username, password);
    assert(seq!['M', 'Q', 'T', 'T'] =~= mqtt_name());
    assert(is_ascii_chars(mqtt_name()));
    vstd::utf8::is_ascii_chars_encode_utf8(mqtt_name());
    lemma_prefixed_text(mqtt_name());
    lemma_prefixed_text(client_id);
    lemma_big_endian(keep_alive);
    if let Some(u) = username {
        lemma_prefixed_text(u);
    }
    if let Some(pw) = password {
        lemma_prefixed_bytes(pw);
    }
    assert(opt_text(username) == encode_opt_str(username));
    assert(opt_bytes(password) == encode_opt_binary(password));
    assert(connect_flag_byte(clean_session, None, username is Some, password is Some) == connect_flags(
        clean_session,
        username is Some,
        password is Some,
    ));
    assert(l =~= connect_body(version, clean_session, keep_alive, client_id, username, password));
}

/// The byte of a PUBLISH frame that gives type and flags: type 3 in the high
/// four bits, then DUP, the two QoS bits, and RETAIN.
pub open spec fn publish_type_byte(qos: QoS, retain: bool, dup: bool) -> u8 {
    (3 * 16 + (if dup { 8int } else { 0 }) + 2 * qos_level(qos) + (if retain { 1int } else { 0 })) as u8
}

/// The body of PUBLISH: the topic, length-prefixed; the packet identifier,
/// most significant byte first, when there is one; the payload as it is.
pub open spec fn publish_layout(topic: Seq<char>, packet_id: Option<u16>, payload: Seq<u8>) -> Seq<u8> {
    prefixed(encode_utf8(topic)) + (match packet_id {
        Some(id) => big_endian(id as nat),
        None => seq![],
    }) + payload
}

/// A PUBLISH whose packet identifier is there exactly when its QoS is above 0
/// is written laid out field by field, and a frame laid out so reads back as it.
pub proof fn law_publish_layout(
    max: int,
    topic: Seq<char>,
    qos: QoS,
    retain: bool,
    dup: bool,
    packet_id: Option<u16>,
    payload: Seq<u8>,
    rest: Seq<u8>,
)
    requires
        str_fits(topic),
        (qos == QoS::AtMostOnce) == (packet_id is None),
        publish_layout(topic, packet_id, payload).len() <= VARINT_MAX,
    ensures
        ({
            let p = SpecPacket::Publish { topic, qos, retain, dup, packet_id, payload };
            let frame = framed(publish_type_byte(qos, retain, dup), publish_layout(topic, packet_id, payload));
            &&& spec_encode(p) == (frame, None::<ProtocolError>)
            &&& publish_layout(topic, packet_id, payload).len() <= max ==> spec_decode_frame(max, frame + rest)
                == (Ok::<Option<SpecPacket>, ProtocolError>(Some(p)), frame.len() as int)
        }),
{
    let p = SpecPacket::Publish { topic, qos, retain, dup, packet_id, payload };
    let l = publish_layout(topic, packet_id, payload);
    lemma_prefixed_text(topic);
    if let Some(id) = packet_id {
        lemma_big_endian(id);
        assert(l =~= publish_body(topic, qos, packet_id, payload));
    } else {
        assert(l =~= publish_body(topic, qos, packet_id, payload));
    }
    assert(publish_body(topic, qos, packet_id, payload).len() == publish_remaining(topic, qos, payload)) by {
        if packet_id is Some {
            assert(qos != QoS::AtMostOnce);
        }
    }
    lemma_publish_roundtrip(topic, qos, retain, dup, packet_id, payload);
    assert(publish_type_byte(qos, retain, dup) == publish_first_byte(qos, retain, dup));
    if l.len() <= max {
        lemma_decode_encode(max, p, rest);
    }
}

/// Writing SUBSCRIBE lays it out as type 8 with flags 0010, the packet
/// identifier most significant byte first, and the topic filters in order;
/// a frame laid out so reads back as the request.
pub proof fn law_subscribe_layout(
    max: int,
    packet_id: u16,
    topics: Seq<(Seq<char>, QoS)>,
    rest: Seq<u8>,
)
    requires
        topics.len() > 0,
        forall|i: int| 0 <= i < topics.len() ==> str_fits(#[trigger] topics[i].0),
        2 + filter_entries(topics).len() <= VARINT_MAX,
    ensures
        ({
            let p = SpecPacket::Subscribe { packet_id, topics };
            let frame = framed(0x82u8, big_endian(packet_id as nat) + filter_entries(topics));
            &&& spec_encode(p) == (frame, None::<ProtocolError>)
            &&& 2 + filter_entries(topics).len() <= max ==> spec_decode_frame(max, frame + rest) == (
                Ok::<Option<SpecPacket>, ProtocolError>(Some(p)),
                frame.len() as int,
            )
        }),
{
    let p = SpecPacket::Subscribe { packet_id, topics };
    lemma_filter_entries(topics);
    lemma_big_endian(packet_id);
    if 2 + filter_entries(topics).len() <= max {
        lemma_decode_encode(max, p, rest);
    }
}

/// The filter entries, laid out front first, are what the encoder writes.
proof fn lemma_filter_entries(topics: Seq<(Seq<char>, QoS)>)
    requires
        forall|i: int| 0 <= i < topics.len() ==> str_fits(#[trigger] topics[i].0),
    ensures
        filter_entries(topics) == encode_topics(topics),
    decreases topics.len(),
{
    if topics.len() == 0 {
        assert(encode_topics(topics) =~= seq![]);
    } else {
        lemma_encode_topics_front(topics);
        assert(str_fits(topics[0].0));
        lemma_prefixed_text(topics[0].0);
        assert forall|i: int| 0 <= i < topics.drop_first().len() implies str_fits(
            #[trigger] topics.drop_first()[i].0,
        ) by {
            assert(topics.drop_first()[i] == topics[i + 1]);
        }
        lemma_filter_entries(topics.drop_first());
    }
}

/// Writing SUBACK lays it out as type 9 with flags 0000, the packet
/// identifier most significant byte first, and one byte per return code, in
/// order; a frame laid out so reads back as the acknowledgement.
pub proof fn law_suback_layout(
    max: int,
    packet_id: u16,
    return_codes: Seq<SubAckReturnCode>,
    rest: Seq<u8>,
)
    requires
        2 + return_codes.len() <= VARINT_MAX,
    ensures
        ({
            let p = SpecPacket::SubAck { packet_id, return_codes };
            let codes = Seq::new(return_codes.len(), |i: int| suback_byte(return_codes[i]));
            let frame = framed(0x90u8, big_endian(packet_id as nat) + codes);
            &&& spec_encode(p) == (frame, None::<ProtocolError>)
            &&& 2 + return_codes.len() <= max ==> spec_decode_frame(max, frame + rest) == (
                Ok::<Option<SpecPacket>, ProtocolError>(Some(p)),
                frame.len() as int,
            )
        }),
{
    let p = SpecPacket::SubAck { packet_id, return_codes };
    let codes = Seq::new(return_codes.len(), |i: int| suback_byte(return_codes[i]));
    assert(codes =~= encode_codes(return_codes));
    lemma_big_endian(packet_id);
    if 2 + return_codes.len() <= max {
        lemma_decode_encode(max, p, rest);
    }
}

/// Writing CONNACK gives four bytes: type 2 with flags 0000, a remaining
/// length of 2, the acknowledge flags, whose only bit that may be set is bit 0
/// and which is set exactly when a session is present, and the return code.
/// The four bytes read back as the acknowledgement.
pub proof fn law_connack_layout(max: int, session_present: bool, return_code: ConnectReturnCode, rest: Seq<u8>)
    requires
        max >= 2,
    ensures
        ({
            let p = SpecPacket::ConnAck { session_present, return_code };
            let e = spec_encode(p).0;
            &&& spec_encode(p).1 is None
            &&& e.len() == 4
            &&& e[0] == 2 * 16
            &&& e[1] == 2
            &&& e[2] & 0xFE == 0
            &&& (e[2] & 0x01 == 1) == session_present
            &&& return_code_from_byte(e[3]) == Ok::<ConnectReturnCode, ProtocolError>(return_code)
            &&& spec_decode_frame(max, e + rest) == (Ok::<Option<SpecPacket>, ProtocolError>(Some(p)), 4int)
        }),
{
    let p = SpecPacket::ConnAck { session_present, return_code };
    let e = spec_encode(p).0;
    let a = e[2];
    assert(a == 0 || a == 1);
    assert((a == 0 || a == 1) ==> (a & 0xFE == 0 && ((a & 0x01 == 1) == (a == 1)))) by (bit_vector);
    lemma_enum_bytes(QoS::AtMostOnce, ProtocolVersion::Mqtt311, return_code, SubAckReturnCode::Failure);
    lemma_decode_encode(max, p, rest);
}

} // verus!
