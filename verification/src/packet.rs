use vstd::prelude::*;

use crate::error::ProtocolError;

verus! {

/// MQTT Quality of Service levels.
#[derive(Debug, Clone, Copy, PartialEq, Eq, Hash, Structural)]
pub enum QoS {
    /// QoS 0: at most once delivery.
    AtMostOnce,
    /// QoS 1: at least once delivery.
    AtLeastOnce,
    /// QoS 2: exactly once delivery.
    ExactlyOnce,
}

/// The numeric level of a QoS.
pub open spec fn qos_level(q: QoS) -> u8 {
    match q {
        QoS::AtMostOnce => 0,
        QoS::AtLeastOnce => 1,
        QoS::ExactlyOnce => 2,
    }
}

/// The QoS with a given numeric level, or the error for any other byte.
pub open spec fn qos_from_level(v: u8) -> Result<QoS, ProtocolError> {
    if v == 0 {
        Ok(QoS::AtMostOnce)
    } else if v == 1 {
        Ok(QoS::AtLeastOnce)
    } else if v == 2 {
        Ok(QoS::ExactlyOnce)
    } else {
        Err(ProtocolError::InvalidQoS(v))
    }
}

impl QoS {
    /// The numeric level of this QoS (0, 1 or 2).
    pub fn level(self) -> (r: u8)
        ensures
            r == qos_level(self),
    {
        match self {
            QoS::AtMostOnce => 0,
            QoS::AtLeastOnce => 1,
            QoS::ExactlyOnce => 2,
        }
    }
}

impl TryFrom<u8> for QoS {
    type Error = ProtocolError;

    fn try_from(value: u8) -> (r: Result<QoS, ProtocolError>)
        ensures
            r == qos_from_level(value),
    {
        if value == 0 {
            Ok(QoS::AtMostOnce)
        } else if value == 1 {
            Ok(QoS::AtLeastOnce)
        } else if value == 2 {
            Ok(QoS::ExactlyOnce)
        } else {
            Err(ProtocolError::InvalidQoS(value))
        }
    }
}

impl vstd::std_specs::convert::TryFromSpecImpl<u8> for QoS {
    open spec fn obeys_try_from_spec() -> bool {
        true
    }

    open spec fn try_from_spec(v: u8) -> Result<QoS, ProtocolError> {
        qos_from_level(v)
    }
}

} // verus!

verus! {

/// MQTT protocol version (the protocol level byte of CONNECT).
#[derive(Debug, Clone, Copy, PartialEq, Eq, Structural)]
pub enum ProtocolVersion {
    /// MQTT 3.1.1, level 4.
    Mqtt311,
    /// MQTT 5.0, level 5.
    Mqtt50,
}

/// The protocol level byte of a version.
pub open spec fn version_level(v: ProtocolVersion) -> u8 {
    match v {
        ProtocolVersion::Mqtt311 => 4,
        ProtocolVersion::Mqtt50 => 5,
    }
}

/// The version with a given protocol level byte.
pub open spec fn version_from_level(v: u8) -> Result<ProtocolVersion, ProtocolError> {
    if v == 4 {
        Ok(ProtocolVersion::Mqtt311)
    } else if v == 5 {
        Ok(ProtocolVersion::Mqtt50)
    } else {
        Err(ProtocolError::InvalidPacketType(v))
    }
}

impl ProtocolVersion {
    /// The protocol level byte of this version.
    pub fn level(self) -> (r: u8)
        ensures
            r == version_level(self),
    {
        match self {
            ProtocolVersion::Mqtt311 => 4,
            ProtocolVersion::Mqtt50 => 5,
        }
    }
}

impl TryFrom<u8> for ProtocolVersion {
    type Error = ProtocolError;

    fn try_from(val: u8) -> (r: Result<ProtocolVersion, ProtocolError>)
        ensures
            r == version_from_level(val),
    {
        if val == 4 {
            Ok(ProtocolVersion::Mqtt311)
        } else if val == 5 {
            Ok(ProtocolVersion::Mqtt50)
        } else {
            Err(ProtocolError::InvalidPacketType(val))
        }
    }
}

impl vstd::std_specs::convert::TryFromSpecImpl<u8> for ProtocolVersion {
    open spec fn obeys_try_from_spec() -> bool {
        true
    }

    open spec fn try_from_spec(v: u8) -> Result<ProtocolVersion, ProtocolError> {
        version_from_level(v)
    }
}

/// Return code of CONNACK (MQTT 3.1.1).
#[derive(Debug, Clone, Copy, PartialEq, Eq, Structural)]
pub enum ConnectReturnCode {
    /// 0: connection accepted.
    Accepted,
    /// 1: unacceptable protocol version.
    RefusedUnacceptableProtocolVersion,
    /// 2: identifier rejected.
    RefusedIdentifierRejected,
    /// 3: server unavailable.
    RefusedServerUnavailable,
    /// 4: bad user name or password.
    RefusedBadUsernameOrPassword,
    /// 5: not authorized.
    RefusedNotAuthorized,
}

/// The wire byte of a CONNACK return code.
pub open spec fn return_code_byte(c: ConnectReturnCode) -> u8 {
    match c {
        ConnectReturnCode::Accepted => 0,
        ConnectReturnCode::RefusedUnacceptableProtocolVersion => 1,
        ConnectReturnCode::RefusedIdentifierRejected => 2,
        ConnectReturnCode::RefusedServerUnavailable => 3,
        ConnectReturnCode::RefusedBadUsernameOrPassword => 4,
        ConnectReturnCode::RefusedNotAuthorized => 5,
    }
}

/// The CONNACK return code with a given wire byte.
pub open spec fn return_code_from_byte(v: u8) -> Result<ConnectReturnCode, ProtocolError> {
    if v == 0 {
        Ok(ConnectReturnCode::Accepted)
    } else if v == 1 {
        Ok(ConnectReturnCode::RefusedUnacceptableProtocolVersion)
    } else if v == 2 {
        Ok(ConnectReturnCode::RefusedIdentifierRejected)
    } else if v == 3 {
        Ok(ConnectReturnCode::RefusedServerUnavailable)
    } else if v == 4 {
        Ok(ConnectReturnCode::RefusedBadUsernameOrPassword)
    } else if v == 5 {
        Ok(ConnectReturnCode::RefusedNotAuthorized)
    } else {
        Err(ProtocolError::InvalidPacketType(v))
    }
}

impl ConnectReturnCode {
    /// The wire byte of this return code.
    pub fn code(self) -> (r: u8)
        ensures
            r == return_code_byte(self),
    {
        match self {
            ConnectReturnCode::Accepted => 0,
            ConnectReturnCode::RefusedUnacceptableProtocolVersion => 1,
            ConnectReturnCode::RefusedIdentifierRejected => 2,
            ConnectReturnCode::RefusedServerUnavailable => 3,
            ConnectReturnCode::RefusedBadUsernameOrPassword => 4,
            ConnectReturnCode::RefusedNotAuthorized => 5,
        }
    }
}

impl TryFrom<u8> for ConnectReturnCode {
    type Error = ProtocolError;

    fn try_from(val: u8) -> (r: Result<ConnectReturnCode, ProtocolError>)
        ensures
            r == return_code_from_byte(val),
    {
        if val == 0 {
            Ok(ConnectReturnCode::Accepted)
        } else if val == 1 {
            Ok(ConnectReturnCode::RefusedUnacceptableProtocolVersion)
        } else if val == 2 {
            Ok(ConnectReturnCode::RefusedIdentifierRejected)
        } else if val == 3 {
            Ok(ConnectReturnCode::RefusedServerUnavailable)
        } else if val == 4 {
            Ok(ConnectReturnCode::RefusedBadUsernameOrPassword)
        } else if val == 5 {
            Ok(ConnectReturnCode::RefusedNotAuthorized)
        } else {
            Err(ProtocolError::InvalidPacketType(val))
        }
    }
}

impl vstd::std_specs::convert::TryFromSpecImpl<u8> for ConnectReturnCode {
    open spec fn obeys_try_from_spec() -> bool {
        true
    }

    open spec fn try_from_spec(v: u8) -> Result<ConnectReturnCode, ProtocolError> {
        return_code_from_byte(v)
    }
}

/// Return code of SUBACK, one per requested topic filter.
#[derive(Debug, Clone, Copy, PartialEq, Eq, Structural)]
pub enum SubAckReturnCode {
    /// 0x00: granted with maximum QoS 0.
    SuccessQoS0,
    /// 0x01: granted with maximum QoS 1.
    SuccessQoS1,
    /// 0x02: granted with maximum QoS 2.
    SuccessQoS2,
    /// 0x80: the subscription failed.
    Failure,
}

/// The wire byte of a SUBACK return code.
pub open spec fn suback_byte(c: SubAckReturnCode) -> u8 {
    match c {
        SubAckReturnCode::SuccessQoS0 => 0x00,
        SubAckReturnCode::SuccessQoS1 => 0x01,
        SubAckReturnCode::SuccessQoS2 => 0x02,
        SubAckReturnCode::Failure => 0x80,
    }
}

/// The SUBACK return code with a given wire byte.
pub open spec fn suback_from_byte(v: u8) -> Result<SubAckReturnCode, ProtocolError> {
    if v == 0x00 {
        Ok(SubAckReturnCode::SuccessQoS0)
    } else if v == 0x01 {
        Ok(SubAckReturnCode::SuccessQoS1)
    } else if v == 0x02 {
        Ok(SubAckReturnCode::SuccessQoS2)
    } else if v == 0x80 {
        Ok(SubAckReturnCode::Failure)
    } else {
        Err(ProtocolError::InvalidPacketType(v))
    }
}

impl SubAckReturnCode {
    /// The wire byte of this return code.
    pub fn code(self) -> (r: u8)
        ensures
            r == suback_byte(self),
    {
        match self {
            SubAckReturnCode::SuccessQoS0 => 0x00,
            SubAckReturnCode::SuccessQoS1 => 0x01,
            SubAckReturnCode::SuccessQoS2 => 0x02,
            SubAckReturnCode::Failure => 0x80,
        }
    }
}

impl TryFrom<u8> for SubAckReturnCode {
    type Error = ProtocolError;

    fn try_from(val: u8) -> (r: Result<SubAckReturnCode, ProtocolError>)
        ensures
            r == suback_from_byte(val),
    {
        if val == 0x00 {
            Ok(SubAckReturnCode::SuccessQoS0)
        } else if val == 0x01 {
            Ok(SubAckReturnCode::SuccessQoS1)
        } else if val == 0x02 {
            Ok(SubAckReturnCode::SuccessQoS2)
        } else if val == 0x80 {
            Ok(SubAckReturnCode::Failure)
        } else {
            Err(ProtocolError::InvalidPacketType(val))
        }
    }
}

impl vstd::std_specs::convert::TryFromSpecImpl<u8> for SubAckReturnCode {
    open spec fn obeys_try_from_spec() -> bool {
        true
    }

    open spec fn try_from_spec(v: u8) -> Result<SubAckReturnCode, ProtocolError> {
        suback_from_byte(v)
    }
}

/// MQTT control packet types (the upper four bits of the first header byte).
#[derive(Debug, Clone, Copy, PartialEq, Eq, Structural)]
pub enum PacketType {
    Connect,
    ConnAck,
    Publish,
    PubAck,
    PubRec,
    PubRel,
    PubComp,
    Subscribe,
    SubAck,
    Unsubscribe,
    UnsubAck,
    PingReq,
    PingResp,
    Disconnect,
    Auth,
}

/// The four-bit code of a packet type.
pub open spec fn packet_type_code(t: PacketType) -> u8 {
    match t {
        PacketType::Connect => 1,
        PacketType::ConnAck => 2,
        PacketType::Publish => 3,
        PacketType::PubAck => 4,
        PacketType::PubRec => 5,
        PacketType::PubRel => 6,
        PacketType::PubComp => 7,
        PacketType::Subscribe => 8,
        PacketType::SubAck => 9,
        PacketType::Unsubscribe => 10,
        PacketType::UnsubAck => 11,
        PacketType::PingReq => 12,
        PacketType::PingResp => 13,
        PacketType::Disconnect => 14,
        PacketType::Auth => 15,
    }
}

/// The packet type named by the upper four bits of a first header byte.
pub open spec fn packet_type_from_byte(byte: u8) -> Result<PacketType, ProtocolError> {
    let nibble = byte / 16;
    if nibble == 1 {
        Ok(PacketType::Connect)
    } else if nibble == 2 {
        Ok(PacketType::ConnAck)
    } else if nibble == 3 {
        Ok(PacketType::Publish)
    } else if nibble == 4 {
        Ok(PacketType::PubAck)
    } else if nibble == 5 {
        Ok(PacketType::PubRec)
    } else if nibble == 6 {
        Ok(PacketType::PubRel)
    } else if nibble == 7 {
        Ok(PacketType::PubComp)
    } else if nibble == 8 {
        Ok(PacketType::Subscribe)
    } else if nibble == 9 {
        Ok(PacketType::SubAck)
    } else if nibble == 10 {
        Ok(PacketType::Unsubscribe)
    } else if nibble == 11 {
        Ok(PacketType::UnsubAck)
    } else if nibble == 12 {
        Ok(PacketType::PingReq)
    } else if nibble == 13 {
        Ok(PacketType::PingResp)
    } else if nibble == 14 {
        Ok(PacketType::Disconnect)
    } else if nibble == 15 {
        Ok(PacketType::Auth)
    } else {
        Err(ProtocolError::InvalidPacketType(nibble))
    }
}

impl PacketType {
    /// The four-bit code of this packet type.
    pub fn code(self) -> (r: u8)
        ensures
            r == packet_type_code(self),
    {
        match self {
            PacketType::Connect => 1,
            PacketType::ConnAck => 2,
            PacketType::Publish => 3,
            PacketType::PubAck => 4,
            PacketType::PubRec => 5,
            PacketType::PubRel => 6,
            PacketType::PubComp => 7,
            PacketType::Subscribe => 8,
            PacketType::SubAck => 9,
            PacketType::Unsubscribe => 10,
            PacketType::UnsubAck => 11,
            PacketType::PingReq => 12,
            PacketType::PingResp => 13,
            PacketType::Disconnect => 14,
            PacketType::Auth => 15,
        }
    }
}

impl TryFrom<u8> for PacketType {
    type Error = ProtocolError;

    /// Reads the packet type from the upper four bits of `byte`.
    fn try_from(byte: u8) -> (r: Result<PacketType, ProtocolError>)
        ensures
            r == packet_type_from_byte(byte),
    {
        let nibble = byte / 16;
        if nibble == 1 {
            Ok(PacketType::Connect)
        } else if nibble == 2 {
            Ok(PacketType::ConnAck)
        } else if nibble == 3 {
            Ok(PacketType::Publish)
        } else if nibble == 4 {
            Ok(PacketType::PubAck)
        } else if nibble == 5 {
            Ok(PacketType::PubRec)
        } else if nibble == 6 {
            Ok(PacketType::PubRel)
        } else if nibble == 7 {
            Ok(PacketType::PubComp)
        } else if nibble == 8 {
            Ok(PacketType::Subscribe)
        } else if nibble == 9 {
            Ok(PacketType::SubAck)
        } else if nibble == 10 {
            Ok(PacketType::Unsubscribe)
        } else if nibble == 11 {
            Ok(PacketType::UnsubAck)
        } else if nibble == 12 {
            Ok(PacketType::PingReq)
        } else if nibble == 13 {
            Ok(PacketType::PingResp)
        } else if nibble == 14 {
            Ok(PacketType::Disconnect)
        } else if nibble == 15 {
            Ok(PacketType::Auth)
        } else {
            Err(ProtocolError::InvalidPacketType(nibble))
        }
    }
}

impl vstd::std_specs::convert::TryFromSpecImpl<u8> for PacketType {
    open spec fn obeys_try_from_spec() -> bool {
        true
    }

    open spec fn try_from_spec(v: u8) -> Result<PacketType, ProtocolError> {
        packet_type_from_byte(v)
    }
}

/// One topic filter of a SUBSCRIBE request with its requested QoS.
#[derive(Debug, Clone, PartialEq)]
pub struct SubscribeTopic {
    pub filter: String,
    pub qos: QoS,
}

impl View for SubscribeTopic {
    type V = (Seq<char>, QoS);

    open spec fn view(&self) -> (Seq<char>, QoS) {
        (self.filter@, self.qos)
    }
}

/// High-level MQTT control packets.
#[derive(Debug, Clone, PartialEq)]
pub enum Packet {
    Connect {
        protocol_version: ProtocolVersion,
        clean_session: bool,
        keep_alive: u16,
        client_id: String,
        username: Option<String>,
        password: Option<Vec<u8>>,
    },
    ConnAck { session_present: bool, return_code: ConnectReturnCode },
    PingReq,
    PingResp,
    Disconnect,
    Publish {
        topic: String,
        qos: QoS,
        retain: bool,
        dup: bool,
        packet_id: Option<u16>,
        payload: Vec<u8>,
    },
    Subscribe { packet_id: u16, topics: Vec<SubscribeTopic> },
    SubAck { packet_id: u16, return_codes: Vec<SubAckReturnCode> },
}

/// The mathematical value of a packet: strings as character sequences,
/// byte fields as byte sequences.
pub enum SpecPacket {
    Connect {
        protocol_version: ProtocolVersion,
        clean_session: bool,
        keep_alive: u16,
        client_id: Seq<char>,
        username: Option<Seq<char>>,
        password: Option<Seq<u8>>,
    },
    ConnAck { session_present: bool, return_code: ConnectReturnCode },
    PingReq,
    PingResp,
    Disconnect,
    Publish {
        topic: Seq<char>,
        qos: QoS,
        retain: bool,
        dup: bool,
        packet_id: Option<u16>,
        payload: Seq<u8>,
    },
    Subscribe { packet_id: u16, topics: Seq<(Seq<char>, QoS)> },
    SubAck { packet_id: u16, return_codes: Seq<SubAckReturnCode> },
}

/// The view of an optional string.
pub open spec fn opt_str_view(s: Option<String>) -> Option<Seq<char>> {
    match s {
        Some(v) => Some(v@),
        None => None,
    }
}

/// The view of an optional byte vector.
pub open spec fn opt_bytes_view(b: Option<Vec<u8>>) -> Option<Seq<u8>> {
    match b {
        Some(v) => Some(v@),
        None => None,
    }
}

/// The views of a sequence of subscription requests.
pub open spec fn topics_view(ts: Seq<SubscribeTopic>) -> Seq<(Seq<char>, QoS)> {
    ts.map_values(|t: SubscribeTopic| t@)
}

impl View for Packet {
    type V = SpecPacket;

    open spec fn view(&self) -> SpecPacket {
        match self {
            Packet::Connect {
                protocol_version,
                clean_session,
                keep_alive,
                client_id,
                username,
                password,
            } => SpecPacket::Connect {
                protocol_version: *protocol_version,
                clean_session: *clean_session,
                keep_alive: *keep_alive,
                client_id: client_id@,
                username: opt_str_view(*username),
                password: opt_bytes_view(*password),
            },
            Packet::ConnAck { session_present, return_code } => SpecPacket::ConnAck {
                session_present: *session_present,
                return_code: *return_code,
            },
            Packet::PingReq => SpecPacket::PingReq,
            Packet::PingResp => SpecPacket::PingResp,
            Packet::Disconnect => SpecPacket::Disconnect,
            Packet::Publish { topic, qos, retain, dup, packet_id, payload } => SpecPacket::Publish {
                topic: topic@,
                qos: *qos,
                retain: *retain,
                dup: *dup,
                packet_id: *packet_id,
                payload: payload@,
            },
            Packet::Subscribe { packet_id, topics } => SpecPacket::Subscribe {
                packet_id: *packet_id,
                topics: topics_view(topics@),
            },
            Packet::SubAck { packet_id, return_codes } => SpecPacket::SubAck {
                packet_id: *packet_id,
                return_codes: return_codes@,
            },
        }
    }
}

} // verus!
