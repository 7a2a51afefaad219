use vstd::prelude::*;

use crate::packet::ConnectReturnCode;

verus! {

/// `std::io::Error`, carried through as it is.
#[verifier::external_type_specification]
#[verifier::external_body]
pub struct ExIoError(std::io::Error);

/// Errors raised while reading or writing MQTT control packets.
#[derive(Debug)]
pub enum ProtocolError {
    /// The transport failed.
    Io(std::io::Error),
    /// A variable byte integer is longer than four bytes, or a value does not fit in one.
    MalformedRemainingLength,
    /// Unknown or unsupported packet type (or version, or return code) byte.
    InvalidPacketType(u8),
    /// A QoS level outside 0..=2.
    InvalidQoS(u8),
    /// The buffer ends before the field that is being read.
    Incomplete,
    /// A string field is not valid UTF-8.
    InvalidUtf8,
    /// The remaining length exceeds the codec's maximum packet size.
    PacketTooLarge,
}

/// Errors a client session reports to its user.
#[derive(Debug)]
pub enum ClientError {
    /// The network failed.
    Io(std::io::Error),
    /// The broker sent something that breaks the protocol.
    Protocol(ProtocolError),
    /// The broker answered CONNECT with a refusal.
    ConnectionRefused(ConnectReturnCode),
    /// The command channel to the session task is closed.
    ChannelClosed,
    /// The broker closed the connection.
    ConnectionClosed,
}

} // verus!
