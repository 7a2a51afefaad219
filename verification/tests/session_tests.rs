use ferrite::broker::accept_connect;
use ferrite::client::{command_packet, connack_outcome, connect_packet, needs_packet_id, ping_interval_millis};
use ferrite::{
    BrokerState, ClientCommand, ClientError, ConnectReturnCode, Packet, ProtocolError,
    ProtocolVersion, QoS, SessionAction, SubAckReturnCode, SubscribeTopic,
};

fn publish(topic: &str, payload: &[u8]) -> Packet {
    Packet::Publish {
        topic: topic.to_string(),
        qos: QoS::AtMostOnce,
        retain: false,
        dup: false,
        packet_id: None,
        payload: payload.to_vec(),
    }
}

#[test]
fn broker_accepts_only_connect_first() {
    let connect = connect_packet("dev-1".to_string(), 60, true);
    let (id, reply) = accept_connect(Some(Ok(connect))).unwrap();
    assert_eq!(id, "dev-1");
    assert_eq!(
        reply,
        Packet::ConnAck { session_present: false, return_code: ConnectReturnCode::Accepted }
    );
    assert!(accept_connect(Some(Ok(Packet::PingReq))).is_none());
    assert!(accept_connect(Some(Err(ProtocolError::Incomplete))).is_none());
    assert!(accept_connect(None).is_none());
}

#[test]
fn broker_routes_publications_to_subscribers() {
    let mut broker = BrokerState::new();
    let sub = "subscriber-1".to_string();
    let publ = "publisher-1".to_string();
    broker.register(sub.clone());
    broker.register(publ.clone());
    let mut sub_filters = Vec::new();
    let mut pub_filters = Vec::new();

    let action = broker.handle_packet(
        &sub,
        &mut sub_filters,
        Some(Ok(Packet::Subscribe {
            packet_id: 7,
            topics: vec![SubscribeTopic {
                filter: "factory/sensors/temperature".to_string(),
                qos: QoS::AtLeastOnce,
            }],
        })),
    );
    match action {
        SessionAction::Reply(p) => assert_eq!(
            p,
            Packet::SubAck { packet_id: 7, return_codes: vec![SubAckReturnCode::SuccessQoS0] }
        ),
        other => panic!("unexpected {:?}", other),
    }
    assert_eq!(sub_filters, vec!["factory/sensors/temperature".to_string()]);

    let action = broker.handle_packet(
        &publ,
        &mut pub_filters,
        Some(Ok(publish("factory/sensors/temperature", b"42.5"))),
    );
    match action {
        SessionAction::Deliver(ds) => {
            assert_eq!(ds.len(), 1);
            assert_eq!(ds[0].0, "subscriber-1");
            assert_eq!(
                ds[0].1,
                Packet::Publish {
                    topic: "factory/sensors/temperature".to_string(),
                    qos: QoS::AtLeastOnce,
                    retain: false,
                    dup: false,
                    packet_id: None,
                    payload: b"42.5".to_vec(),
                }
            );
        },
        other => panic!("unexpected {:?}", other),
    }

    let action = broker.handle_packet(&publ, &mut pub_filters, Some(Ok(publish("other", b"x"))));
    assert!(matches!(action, SessionAction::Deliver(ds) if ds.is_empty()));
}

#[test]
fn broker_session_events() {
    let mut broker = BrokerState::new();
    let c = "c".to_string();
    broker.register(c.clone());
    let mut filters = Vec::new();
    assert!(matches!(
        broker.handle_packet(&c, &mut filters, Some(Ok(Packet::PingReq))),
        SessionAction::Reply(Packet::PingResp)
    ));
    assert!(matches!(
        broker.handle_packet(&c, &mut filters, Some(Ok(Packet::Disconnect))),
        SessionAction::Close
    ));
    assert!(matches!(broker.handle_packet(&c, &mut filters, None), SessionAction::Close));
    assert!(matches!(
        broker.handle_packet(&c, &mut filters, Some(Err(ProtocolError::InvalidUtf8))),
        SessionAction::Ignore
    ));
    assert!(matches!(
        broker.handle_packet(&c, &mut filters, Some(Ok(Packet::PingResp))),
        SessionAction::Ignore
    ));
}

#[test]
fn closed_sessions_receive_nothing() {
    let mut broker = BrokerState::new();
    let a = "a".to_string();
    let b = "b".to_string();
    broker.register(a.clone());
    broker.register(b.clone());
    let mut fa = Vec::new();
    let mut fb = Vec::new();
    let sub = |f: &str| {
        Some(Ok(Packet::Subscribe {
            packet_id: 1,
            topics: vec![SubscribeTopic { filter: f.to_string(), qos: QoS::AtMostOnce }],
        }))
    };
    broker.handle_packet(&a, &mut fa, sub("t/#"));
    broker.handle_packet(&b, &mut fb, sub("t/+"));
    assert!(broker.is_connected(&a));
    broker.close_session(&a, &fa);
    assert!(!broker.is_connected(&a));
    match broker.handle_packet(&b, &mut fb, Some(Ok(publish("t/x", b"1")))) {
        SessionAction::Deliver(ds) => {
            assert_eq!(ds.len(), 1);
            assert_eq!(ds[0].0, "b");
        },
        other => panic!("unexpected {:?}", other),
    }
    // A subscriber that is not connected gets nothing.
    broker.unregister(&b);
    assert!(matches!(
        broker.handle_packet(&b, &mut fb, Some(Ok(publish("t/x", b"1")))),
        SessionAction::Deliver(ds) if ds.is_empty()
    ));
}

#[test]
fn client_connect_packet() {
    assert_eq!(
        connect_packet("id".to_string(), 30, false),
        Packet::Connect {
            protocol_version: ProtocolVersion::Mqtt311,
            clean_session: false,
            keep_alive: 30,
            client_id: "id".to_string(),
            username: None,
            password: None,
        }
    );
}

#[test]
fn client_reads_the_connack() {
    let ack = |code| Some(Ok(Packet::ConnAck { session_present: true, return_code: code }));
    assert!(connack_outcome(ack(ConnectReturnCode::Accepted)).is_ok());
    assert!(matches!(
        connack_outcome(ack(ConnectReturnCode::RefusedNotAuthorized)),
        Err(ClientError::ConnectionRefused(ConnectReturnCode::RefusedNotAuthorized))
    ));
    assert!(matches!(
        connack_outcome(Some(Ok(Packet::PingResp))),
        Err(ClientError::Protocol(ProtocolError::InvalidPacketType(0)))
    ));
    assert!(matches!(
        connack_outcome(Some(Err(ProtocolError::PacketTooLarge))),
        Err(ClientError::Protocol(ProtocolError::PacketTooLarge))
    ));
    assert!(matches!(connack_outcome(None), Err(ClientError::ConnectionClosed)));
}

#[test]
fn client_ping_interval() {
    assert_eq!(ping_interval_millis(60), Some(45_000));
    assert_eq!(ping_interval_millis(1), Some(750));
    assert_eq!(ping_interval_millis(65_535), Some(49_151_250));
    assert_eq!(ping_interval_millis(0), None);
}

#[test]
fn client_commands_become_packets() {
    let publish_cmd = ClientCommand::Publish {
        topic: "t".to_string(),
        qos: QoS::AtMostOnce,
        payload: b"p".to_vec(),
    };
    assert!(!needs_packet_id(&publish_cmd));
    assert_eq!(command_packet(publish_cmd, 9), (publish("t", b"p"), false));
    let sub_cmd = ClientCommand::Subscribe { filter: "f/#".to_string(), qos: QoS::ExactlyOnce };
    assert!(needs_packet_id(&sub_cmd));
    assert_eq!(
        command_packet(sub_cmd, 9),
        (
            Packet::Subscribe {
                packet_id: 9,
                topics: vec![SubscribeTopic { filter: "f/#".to_string(), qos: QoS::ExactlyOnce }],
            },
            false
        )
    );
    assert_eq!(command_packet(ClientCommand::Disconnect, 9), (Packet::Disconnect, true));
}
