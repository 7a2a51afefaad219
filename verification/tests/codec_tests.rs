use bytes::BytesMut;
use ferrite::{
    ConnectReturnCode, MqttCodec, Packet, ProtocolError, ProtocolVersion, QoS, SubAckReturnCode,
    SubscribeTopic,
};

#[test]
fn test_connect_and_connack_roundtrip() {
    let mut codec = MqttCodec::default();
    let mut buffer = BytesMut::new();

    let connect = Packet::Connect {
        protocol_version: ProtocolVersion::Mqtt311,
        clean_session: true,
        keep_alive: 60,
        client_id: "ferrite-client-01".to_string(),
        username: Some("admin".to_string()),
        password: Some(b"secret".to_vec()),
    };

    codec.encode(connect.clone(), &mut buffer).unwrap();
    let decoded = codec.decode(&mut buffer).unwrap();
    assert_eq!(decoded, Some(connect));
    assert!(buffer.is_empty());

    let connack = Packet::ConnAck {
        session_present: false,
        return_code: ConnectReturnCode::Accepted,
    };

    codec.encode(connack.clone(), &mut buffer).unwrap();
    let decoded_ack = codec.decode(&mut buffer).unwrap();
    assert_eq!(decoded_ack, Some(connack));
    assert!(buffer.is_empty());
}

#[test]
fn test_subscribe_and_suback_roundtrip() {
    let mut codec = MqttCodec::default();
    let mut buffer = BytesMut::new();

    let subscribe = Packet::Subscribe {
        packet_id: 101,
        topics: vec![
            SubscribeTopic {
                filter: "sensors/+/temperature".to_string(),
                qos: QoS::AtLeastOnce,
            },
            SubscribeTopic {
                filter: "alarms/#".to_string(),
                qos: QoS::AtMostOnce,
            },
        ],
    };

    codec.encode(subscribe.clone(), &mut buffer).unwrap();
    let decoded = codec.decode(&mut buffer).unwrap();
    assert_eq!(decoded, Some(subscribe));
    assert!(buffer.is_empty());

    let suback = Packet::SubAck {
        packet_id: 101,
        return_codes: vec![SubAckReturnCode::SuccessQoS1, SubAckReturnCode::SuccessQoS0],
    };

    codec.encode(suback.clone(), &mut buffer).unwrap();
    let decoded_ack = codec.decode(&mut buffer).unwrap();
    assert_eq!(decoded_ack, Some(suback));
    assert!(buffer.is_empty());
}

fn encoded(p: Packet) -> Vec<u8> {
    let mut codec = MqttCodec::default();
    let mut out = BytesMut::new();
    codec.encode(p, &mut out).unwrap();
    out.to_vec()
}

#[test]
fn connect_bytes_on_the_wire() {
    let bytes = encoded(Packet::Connect {
        protocol_version: ProtocolVersion::Mqtt311,
        clean_session: true,
        keep_alive: 60,
        client_id: "ab".to_string(),
        username: None,
        password: None,
    });
    assert_eq!(
        bytes,
        vec![0x10, 14, 0, 4, b'M', b'Q', b'T', b'T', 4, 0x02, 0, 60, 0, 2, b'a', b'b']
    );
}

#[test]
fn short_packets_on_the_wire() {
    assert_eq!(encoded(Packet::PingReq), vec![0xC0, 0]);
    assert_eq!(encoded(Packet::PingResp), vec![0xD0, 0]);
    assert_eq!(encoded(Packet::Disconnect), vec![0xE0, 0]);
    assert_eq!(
        encoded(Packet::ConnAck {
            session_present: true,
            return_code: ConnectReturnCode::RefusedNotAuthorized
        }),
        vec![0x20, 2, 1, 5]
    );
}

#[test]
fn publish_roundtrips_and_keeps_following_bytes() {
    let mut codec = MqttCodec::default();
    let p1 = Packet::Publish {
        topic: "a/b".to_string(),
        qos: QoS::ExactlyOnce,
        retain: true,
        dup: true,
        packet_id: Some(0x1234),
        payload: b"42.5".to_vec(),
    };
    let p2 = Packet::Publish {
        topic: "température".to_string(),
        qos: QoS::AtMostOnce,
        retain: false,
        dup: false,
        packet_id: None,
        payload: vec![],
    };
    let mut buf = BytesMut::new();
    codec.encode(p1.clone(), &mut buf).unwrap();
    assert_eq!(buf[0], 0x3D);
    codec.encode(p2.clone(), &mut buf).unwrap();
    assert_eq!(codec.decode(&mut buf).unwrap(), Some(p1));
    assert_eq!(codec.decode(&mut buf).unwrap(), Some(p2));
    assert!(buf.is_empty());
    assert_eq!(codec.decode(&mut buf).unwrap(), None);
}

#[test]
fn publish_qos0_drops_the_packet_id() {
    let mut codec = MqttCodec::default();
    let mut buf = BytesMut::new();
    codec
        .encode(
            Packet::Publish {
                topic: "t".to_string(),
                qos: QoS::AtMostOnce,
                retain: false,
                dup: false,
                packet_id: Some(7),
                payload: vec![1, 2],
            },
            &mut buf,
        )
        .unwrap();
    assert_eq!(buf.to_vec(), vec![0x30, 5, 0, 1, b't', 1, 2]);
    assert_eq!(
        codec.decode(&mut buf).unwrap(),
        Some(Packet::Publish {
            topic: "t".to_string(),
            qos: QoS::AtMostOnce,
            retain: false,
            dup: false,
            packet_id: None,
            payload: vec![1, 2],
        })
    );
}

#[test]
fn publish_qos1_without_id_is_refused_after_the_topic() {
    let mut codec = MqttCodec::default();
    let mut buf = BytesMut::new();
    let r = codec.encode(
        Packet::Publish {
            topic: "t".to_string(),
            qos: QoS::AtLeastOnce,
            retain: false,
            dup: false,
            packet_id: None,
            payload: vec![9],
        },
        &mut buf,
    );
    assert!(matches!(r, Err(ProtocolError::Incomplete)));
    assert_eq!(buf.to_vec(), vec![0x32, 6, 0, 1, b't']);
}

#[test]
fn incomplete_frames_are_left_in_place() {
    let mut codec = MqttCodec::default();
    let full = encoded(Packet::Publish {
        topic: "abc".to_string(),
        qos: QoS::AtMostOnce,
        retain: false,
        dup: false,
        packet_id: None,
        payload: vec![1, 2, 3],
    });
    for cut in 0..full.len() {
        let mut part = BytesMut::from(&full[..cut]);
        assert_eq!(codec.decode(&mut part).unwrap(), None);
        assert_eq!(&part[..], &full[..cut]);
    }
}

#[test]
fn header_errors_leave_the_buffer() {
    let mut codec = MqttCodec::new(3);
    let mut buf = BytesMut::from(&[0x00, 0x00][..]);
    assert!(matches!(codec.decode(&mut buf), Err(ProtocolError::InvalidPacketType(0))));
    assert_eq!(buf.to_vec(), vec![0x00, 0x00]);

    let mut buf = BytesMut::from(&[0x30, 0x04, 0, 1, b'a', 0][..]);
    assert!(matches!(codec.decode(&mut buf), Err(ProtocolError::PacketTooLarge)));
    assert_eq!(buf.len(), 6);

    let mut buf = BytesMut::from(&[0x30, 0x80, 0x80, 0x80, 0x80, 0x01][..]);
    assert!(matches!(codec.decode(&mut buf), Err(ProtocolError::MalformedRemainingLength)));
    assert_eq!(buf.len(), 6);
}

#[test]
fn body_errors_consume_the_frame() {
    let mut codec = MqttCodec::default();
    // Invalid UTF-8 topic, followed by a PINGREQ.
    let mut buf = BytesMut::from(&[0x30, 0x04, 0, 2, 0xFF, 0xFE, 0xC0, 0x00][..]);
    assert!(matches!(codec.decode(&mut buf), Err(ProtocolError::InvalidUtf8)));
    assert_eq!(codec.decode(&mut buf).unwrap(), Some(Packet::PingReq));

    // PUBLISH with QoS 3.
    let mut buf = BytesMut::from(&[0x36, 0x03, 0, 1, b'a'][..]);
    assert!(matches!(codec.decode(&mut buf), Err(ProtocolError::InvalidQoS(3))));
    assert!(buf.is_empty());

    // CONNACK with a short body.
    let mut buf = BytesMut::from(&[0x20, 0x01, 0x00][..]);
    assert!(matches!(codec.decode(&mut buf), Err(ProtocolError::Incomplete)));
    assert!(buf.is_empty());

    // CONNACK with an unknown return code.
    let mut buf = BytesMut::from(&[0x20, 0x02, 0x00, 0x09][..]);
    assert!(matches!(codec.decode(&mut buf), Err(ProtocolError::InvalidPacketType(9))));

    // CONNECT naming another protocol.
    let mut buf = BytesMut::from(&[0x10, 0x06, 0, 4, b'H', b'T', b'T', b'P'][..]);
    assert!(matches!(codec.decode(&mut buf), Err(ProtocolError::InvalidPacketType(0))));

    // SUBSCRIBE without topic filters.
    let mut buf = BytesMut::from(&[0x82, 0x02, 0x00, 0x01][..]);
    assert!(matches!(codec.decode(&mut buf), Err(ProtocolError::Incomplete)));

    // SUBACK with an unknown return code.
    let mut buf = BytesMut::from(&[0x90, 0x03, 0x00, 0x01, 0x07][..]);
    assert!(matches!(codec.decode(&mut buf), Err(ProtocolError::InvalidPacketType(7))));
}

#[test]
fn unread_packet_types_are_skipped() {
    let mut codec = MqttCodec::default();
    // PUBACK for id 5, then a PINGRESP.
    let mut buf = BytesMut::from(&[0x40, 0x02, 0x00, 0x05, 0xD0, 0x00][..]);
    assert_eq!(codec.decode(&mut buf).unwrap(), None);
    assert_eq!(buf.to_vec(), vec![0xD0, 0x00]);
    assert_eq!(codec.decode(&mut buf).unwrap(), Some(Packet::PingResp));
}

#[test]
fn connect_with_will_mqisdp_and_password_only() {
    let mut codec = MqttCodec::default();
    let mut buf = BytesMut::from(&[
        0x10, 23, 0, 6, b'M', b'Q', b'I', b's', b'd', b'p', 3, 0x44, 0, 10, 0, 1, b'c', 0, 1,
        b'w', 0, 1, b'x', 0, 0,
    ][..]);
    // Version 3 is not supported.
    assert!(matches!(codec.decode(&mut buf), Err(ProtocolError::InvalidPacketType(3))));
    let mut buf = BytesMut::from(&[
        0x10, 23, 0, 6, b'M', b'Q', b'I', b's', b'd', b'p', 4, 0x44, 0, 10, 0, 1, b'c', 0, 1,
        b'w', 0, 1, b'x', 0, 0,
    ][..]);
    assert_eq!(
        codec.decode(&mut buf).unwrap(),
        Some(Packet::Connect {
            protocol_version: ProtocolVersion::Mqtt311,
            clean_session: false,
            keep_alive: 10,
            client_id: "c".to_string(),
            username: None,
            password: Some(vec![]),
        })
    );
}

#[test]
fn suback_codes_on_the_wire() {
    let bytes = encoded(Packet::SubAck {
        packet_id: 1,
        return_codes: vec![SubAckReturnCode::SuccessQoS2, SubAckReturnCode::Failure],
    });
    assert_eq!(bytes, vec![0x90, 4, 0, 1, 0x02, 0x80]);
}
