//! The decisions of a client session: the CONNECT it sends, how it reads
//! the broker's answer, how often it pings, and the packet each user command
//! becomes. The caller owns the connection and the channels.
use vstd::prelude::*;

use crate::error::{ClientError, ProtocolError};
use crate::packet::{ConnectReturnCode, Packet, ProtocolVersion, QoS, SpecPacket, SubscribeTopic};

verus! {

/// What the user of a client asks its session task to do.
#[derive(Debug)]
pub enum ClientCommand {
    /// Publish `payload` on `topic`.
    Publish { topic: String, qos: QoS, payload: Vec<u8> },
    /// Subscribe to `filter`.
    Subscribe { filter: String, qos: QoS },
    /// Say goodbye and stop.
    Disconnect,
}

/// The CONNECT a client opens its connection with: MQTT 3.1.1, no user name, no password.
pub fn connect_packet(client_id: String, keep_alive: u16, clean_session: bool) -> (r: Packet)
    ensures
        r@ == (SpecPacket::Connect {
            protocol_version: ProtocolVersion::Mqtt311,
            clean_session,
            keep_alive,
            client_id: client_id@,
            username: None,
            password: None,
        }),
{
    Packet::Connect {
        protocol_version: ProtocolVersion::Mqtt311,
        clean_session,
        keep_alive,
        client_id,
        username: None,
        password: None,
    }
}

/// How the broker's first answer ends the handshake: an accepting CONNACK
/// succeeds; a refusing one, any other packet, a read error or the end of
/// the stream fail, each with its own error.
pub fn connack_outcome(reply: Option<Result<Packet, ProtocolError>>) -> (r: Result<(), ClientError>)
    ensures
        match reply {
            Some(Ok(Packet::ConnAck { return_code, .. })) => if return_code
                == ConnectReturnCode::Accepted {
                r is Ok
            } else {
                r == Err::<(), ClientError>(ClientError::ConnectionRefused(return_code))
            },
            Some(Ok(_)) => r == Err::<(), ClientError>(
                ClientError::Protocol(ProtocolError::InvalidPacketType(0)),
            ),
            Some(Err(e)) => r == Err::<(), ClientError>(ClientError::Protocol(e)),
            None => r == Err::<(), ClientError>(ClientError::ConnectionClosed),
        },
{
    match reply {
        Some(Ok(Packet::ConnAck { return_code: ConnectReturnCode::Accepted, .. })) => Ok(()),
        Some(Ok(Packet::ConnAck { return_code, .. })) => Err(ClientError::ConnectionRefused(return_code)),
        Some(Ok(_)) => Err(ClientError::Protocol(ProtocolError::InvalidPacketType(0))),
        Some(Err(e)) => Err(ClientError::Protocol(e)),
        None => Err(ClientError::ConnectionClosed),
    }
}

/// The keep-alive ping period in milliseconds: three quarters of the
/// keep-alive window, at least 250 ms; none when keep-alive is off (0).
pub fn ping_interval_millis(keep_alive: u16) -> (r: Option<u64>)
    ensures
        keep_alive == 0 ==> r is None,
        keep_alive > 0 ==> r == Some(
            if keep_alive * 750 >= 250 {
                (keep_alive * 750) as u64
            } else {
                250u64
            },
        ),
{
    if keep_alive > 0 {
        let millis = (keep_alive as u64 * 1000 * 3) / 4;
        if millis >= 250 {
            Some(millis)
        } else {
            Some(250)
        }
    } else {
        None
    }
}

/// Whether a command takes a fresh packet identifier.
pub fn needs_packet_id(cmd: &ClientCommand) -> (r: bool)
    ensures
        r == (cmd is Subscribe),
{
    match cmd {
        ClientCommand::Subscribe { .. } => true,
        _ => false,
    }
}

/// The packet a command is sent as, and whether the session stops after
/// sending it. A publication goes out with no packet identifier, not
/// retained and not a duplicate; a subscription names one filter under
/// `packet_id`; a disconnect is the last packet.
pub fn command_packet(cmd: ClientCommand, packet_id: u16) -> (r: (Packet, bool))
    ensures
        match cmd {
            ClientCommand::Publish { topic, qos, payload } => r.0@ == (SpecPacket::Publish {
                topic: topic@,
                qos,
                retain: false,
                dup: false,
                packet_id: None,
                payload: payload@,
            }) && !r.1,
            ClientCommand::Subscribe { filter, qos } => r.0@ == (SpecPacket::Subscribe {
                packet_id,
                topics: seq![(filter@, qos)],
            }) && !r.1,
            ClientCommand::Disconnect => r.0@ == SpecPacket::Disconnect && r.1,
        },
{
    match cmd {
        ClientCommand::Publish { topic, qos, payload } => (
            Packet::Publish { topic, qos, retain: false, dup: false, packet_id: None, payload },
            false,
        ),
        ClientCommand::Subscribe { filter, qos } => {
            let topics = vec![SubscribeTopic { filter, qos }];
            let r = Packet::Subscribe { packet_id, topics };
            assert(r@ == (SpecPacket::Subscribe {
                packet_id,
                topics: seq![(filter@, qos)],
            })) by {
                assert(crate::packet::topics_view(topics@) =~= seq![(filter@, qos)]);
            }
            (r, false)
        },
        ClientCommand::Disconnect => (Packet::Disconnect, true),
    }
}

} // verus!
