use chat::protocol::{decode, encode, read_error, Frame, ProtocolError};
use std::io;

#[test]
fn encode_chat_frame() {
    let mut out = Vec::new();
    let frame = Frame::Chat { id: 42, text: b"hi!".to_vec() };
    assert!(encode(&frame, &mut out).is_ok());
    assert_eq!(out, vec![0, 0, 7, 0, 0, 0, 42, b'h', b'i', b'!']);
}

#[test]
fn encode_dropped_frame() {
    let mut out = vec![9];
    assert!(encode(&Frame::Dropped { id: 0x0102_0304 }, &mut out).is_ok());
    assert_eq!(out, vec![9, 1, 0, 4, 1, 2, 3, 4]);
}

#[test]
fn encode_appends_after_existing_bytes() {
    let mut out = Vec::new();
    encode(&Frame::Dropped { id: 1 }, &mut out).unwrap();
    encode(&Frame::Chat { id: 2, text: vec![] }, &mut out).unwrap();
    assert_eq!(out, vec![1, 0, 4, 0, 0, 0, 1, 0, 0, 4, 0, 0, 0, 2]);
}

#[test]
fn encode_rejects_long_payload_and_leaves_stream() {
    let mut out = vec![7, 7];
    let frame = Frame::Chat { id: 1, text: vec![b'a'; 65532] };
    match encode(&frame, &mut out) {
        Err(ProtocolError::PayloadIsTooLong(n)) => assert_eq!(n, 65536),
        other => panic!("unexpected {:?}", other),
    }
    assert_eq!(out, vec![7, 7]);
}

#[test]
fn encode_accepts_largest_payload() {
    let mut out = Vec::new();
    let frame = Frame::Chat { id: 1, text: vec![b'a'; 65531] };
    assert!(encode(&frame, &mut out).is_ok());
    assert_eq!(out.len(), 3 + 65535);
    assert_eq!(&out[0..3], &[0, 0xff, 0xff]);
}

#[test]
fn decode_reads_back_what_encode_wrote() {
    let frames = vec![
        Frame::Chat { id: 7, text: b"hello".to_vec() },
        Frame::Dropped { id: u32::MAX },
        Frame::Chat { id: 0, text: vec![] },
    ];
    let mut stream = Vec::new();
    for f in &frames {
        encode(f, &mut stream).unwrap();
    }
    stream.push(0xAA);
    for f in &frames {
        assert_eq!(&decode(&mut stream).unwrap(), f);
    }
    assert_eq!(stream, vec![0xAA]);
}

#[test]
fn decode_empty_stream_is_disconnect() {
    let mut s = Vec::new();
    assert!(matches!(decode(&mut s), Err(ProtocolError::Disconnect)));
}

#[test]
fn decode_unknown_type() {
    let mut s = vec![5, 0, 0];
    assert!(matches!(decode(&mut s), Err(ProtocolError::UnknownFrameType(5))));
    assert_eq!(s, vec![5, 0, 0]);
}

#[test]
fn decode_short_header_is_disconnect() {
    let mut s = vec![0, 0];
    assert!(matches!(decode(&mut s), Err(ProtocolError::Disconnect)));
}

#[test]
fn decode_short_payload_is_disconnect() {
    let mut s = vec![0, 0, 5, 1, 2, 3, 4];
    assert!(matches!(decode(&mut s), Err(ProtocolError::Disconnect)));
    assert_eq!(s.len(), 7);
}

#[test]
fn decode_chat_without_id_is_invalid() {
    let mut s = vec![0, 0, 2, 1, 2];
    assert!(matches!(decode(&mut s), Err(ProtocolError::InvalidPayloadLength(2))));
}

#[test]
fn decode_dropped_with_extra_bytes_is_invalid() {
    let mut s = vec![1, 0, 5, 1, 2, 3, 4, 5];
    assert!(matches!(decode(&mut s), Err(ProtocolError::InvalidPayloadLength(5))));
}

#[test]
fn decode_big_endian_id() {
    let mut s = vec![0, 0, 6, 0x12, 0x34, 0x56, 0x78, b'o', b'k'];
    assert_eq!(decode(&mut s).unwrap(), Frame::Chat { id: 0x1234_5678, text: b"ok".to_vec() });
    assert!(s.is_empty());
}

#[test]
fn read_errors() {
    let eof = io::Error::new(io::ErrorKind::UnexpectedEof, "eof");
    assert!(matches!(read_error(true, eof), ProtocolError::Disconnect));
    let other = io::Error::new(io::ErrorKind::ConnectionReset, "reset");
    match read_error(false, other) {
        ProtocolError::IO(e) => assert_eq!(e.kind(), io::ErrorKind::ConnectionReset),
        _ => panic!("expected an I/O error"),
    }
}
