//! A small MQTT toolkit: the wire format (variable byte integers and control
//! packets), a topic trie that routes publications to subscribers, and the
//! decision logic of a broker session and of a client session.

pub mod broker;
pub mod buffer;
pub mod client;
pub mod codec;
pub mod error;
pub mod format;
pub mod layout;
pub mod packet;
pub mod roundtrip;
pub mod trie;
pub mod varint;

pub use broker::{BrokerState, SessionAction};
pub use client::ClientCommand;
pub use codec::MqttCodec;
pub use error::{ClientError, ProtocolError};
pub use packet::{
    ConnectReturnCode, Packet, PacketType, ProtocolVersion, QoS, SubAckReturnCode, SubscribeTopic,
};
pub use trie::{Subscription, TopicTrie, TrieNode};
pub use varint::{decode_varint, encode_varint};
