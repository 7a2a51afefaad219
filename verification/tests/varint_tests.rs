use bytes::Bytes;
use ferrite::{decode_varint, encode_varint, ProtocolError};

#[test]
fn test_varint_single_byte() {
    let bytes = Bytes::from_static(&[0x00]);
    let mut buf: &[u8] = &bytes;
    assert_eq!(decode_varint(&mut buf).unwrap(), Some((0, 1)));

    let bytes = Bytes::from_static(&[0x7F]);
    let mut buf: &[u8] = &bytes;
    assert_eq!(decode_varint(&mut buf).unwrap(), Some((127, 1)));
}

#[test]
fn test_varint_multi_byte() {
    // 128 encoded as two bytes: [0x80, 0x01]
    let bytes = Bytes::from_static(&[0x80, 0x01]);
    let mut buf: &[u8] = &bytes;
    assert_eq!(decode_varint(&mut buf).unwrap(), Some((128, 2)));

    // 16383 encoded as: [0xFF, 0x7F]
    let bytes = Bytes::from_static(&[0xFF, 0x7F]);
    let mut buf: &[u8] = &bytes;
    assert_eq!(decode_varint(&mut buf).unwrap(), Some((16383, 2)));
}

#[test]
fn test_varint_incomplete() {
    // Continuation bit is set (0x80) but second byte is missing
    let bytes = Bytes::from_static(&[0x80]);
    let mut buf: &[u8] = &bytes;
    assert_eq!(decode_varint(&mut buf).unwrap(), None);
}

#[test]
fn test_varint_overflow() {
    // 5 consecutive bytes with continuation bits -> exceeds 4 bytes limit
    let bytes = Bytes::from_static(&[0x80, 0x80, 0x80, 0x80, 0x01]);
    let mut buf: &[u8] = &bytes;
    assert!(matches!(decode_varint(&mut buf), Err(ProtocolError::MalformedRemainingLength)));
}

#[test]
fn varint_encodings_of_boundaries() {
    let cases: [(usize, &[u8]); 8] = [
        (0, &[0x00]),
        (127, &[0x7F]),
        (128, &[0x80, 0x01]),
        (16_383, &[0xFF, 0x7F]),
        (16_384, &[0x80, 0x80, 0x01]),
        (2_097_151, &[0xFF, 0xFF, 0x7F]),
        (2_097_152, &[0x80, 0x80, 0x80, 0x01]),
        (268_435_455, &[0xFF, 0xFF, 0xFF, 0x7F]),
    ];
    for (value, bytes) in cases {
        let mut dst = vec![0xAA];
        encode_varint(value, &mut dst).unwrap();
        assert_eq!(&dst[1..], bytes);
        let mut with_tail = bytes.to_vec();
        with_tail.extend_from_slice(&[0x01, 0x02]);
        let mut cursor: &[u8] = &with_tail;
        assert_eq!(decode_varint(&mut cursor).unwrap(), Some((value, bytes.len())));
        assert_eq!(cursor, &[0x01, 0x02]);
    }
}

#[test]
fn varint_too_large_is_refused() {
    let mut dst = vec![1, 2];
    assert!(matches!(
        encode_varint(268_435_456, &mut dst),
        Err(ProtocolError::MalformedRemainingLength)
    ));
    assert_eq!(dst, vec![1, 2]);
}

#[test]
fn varint_edge_cases() {
    let mut empty: &[u8] = &[];
    assert_eq!(decode_varint(&mut empty).unwrap(), None);
    let mut partial: &[u8] = &[0x80, 0x80, 0x80];
    assert_eq!(decode_varint(&mut partial).unwrap(), None);
    assert_eq!(partial, &[0x80, 0x80, 0x80]);
    let mut too_long: &[u8] = &[0x80, 0x80, 0x80, 0x80];
    assert!(matches!(
        decode_varint(&mut too_long),
        Err(ProtocolError::MalformedRemainingLength)
    ));
    assert_eq!(too_long, &[0x80, 0x80, 0x80, 0x80]);
    // A non-minimal encoding is accepted.
    let mut padded: &[u8] = &[0x80, 0x00, 0x7F];
    assert_eq!(decode_varint(&mut padded).unwrap(), Some((0, 2)));
    assert_eq!(padded, &[0x7F]);
}

#[test]
fn varint_reads_advance_past_each_number() {
    let bytes = Bytes::from_static(&[0x7F, 0x80, 0x01, 0xFF]);
    let mut buf: &[u8] = &bytes;
    assert_eq!(decode_varint(&mut buf).unwrap(), Some((127, 1)));
    assert_eq!(decode_varint(&mut buf).unwrap(), Some((128, 2)));
    assert_eq!(buf, &[0xFF]);
    assert_eq!(decode_varint(&mut buf).unwrap(), None);
    assert_eq!(buf, &[0xFF]);
}
