use wes_sfu::codec::{
    encode_command, encode_datagram, encode_sid_frame, parse_command, parse_sid_frame,
    split_datagram, CodecError, Parsed, ADD_USER_TO_CLIENT_BYTE, END_CALL_BYTE,
    HELLO_FROM_CLIENT_BYTE, HELLO_FROM_SERVER_BYTE, SEND_CALL_STREAM_ID_BYTE,
};

fn b(s: &str) -> Vec<u8> {
    s.as_bytes().to_vec()
}

#[test]
fn encode_hello_frame_bytes() {
    let out = encode_command(HELLO_FROM_CLIENT_BYTE, Some(&b("Alice"))).unwrap();
    assert_eq!(out, vec![69, 5, b'A', b'l', b'i', b'c', b'e']);
}

#[test]
fn encode_bare_frame_bytes() {
    let out = encode_command(HELLO_FROM_SERVER_BYTE, None).unwrap();
    assert_eq!(out, vec![70]);
}

#[test]
fn round_trip_string_frame() {
    let wire = encode_command(ADD_USER_TO_CLIENT_BYTE, Some(&b("Bob"))).unwrap();
    match parse_command(&wire, 0) {
        Parsed::Frame { cmd, subject, used } => {
            assert_eq!(cmd, ADD_USER_TO_CLIENT_BYTE);
            assert_eq!(subject, Some(b("Bob")));
            assert_eq!(used, wire.len());
        }
        _ => panic!("expected a whole frame"),
    }
}

#[test]
fn round_trip_bare_frame_with_trailing_bytes() {
    let mut wire = encode_command(END_CALL_BYTE, None).unwrap();
    wire.extend_from_slice(&[1, 2, 3]);
    match parse_command(&wire, 0) {
        Parsed::Frame { cmd, subject, used } => {
            assert_eq!(cmd, END_CALL_BYTE);
            assert_eq!(subject, None);
            assert_eq!(used, 1);
        }
        _ => panic!("expected a whole frame"),
    }
}

#[test]
fn payload_len_255_round_trips() {
    let name = vec![b'x'; 255];
    let wire = encode_command(HELLO_FROM_CLIENT_BYTE, Some(&name)).unwrap();
    assert_eq!(wire.len(), 257);
    match parse_command(&wire, 0) {
        Parsed::Frame { cmd, subject, used } => {
            assert_eq!(cmd, HELLO_FROM_CLIENT_BYTE);
            assert_eq!(subject, Some(name));
            assert_eq!(used, 257);
        }
        _ => panic!("expected a whole frame"),
    }
}

#[test]
fn payload_len_256_rejected_before_transmission() {
    let name = vec![b'x'; 256];
    assert_eq!(
        encode_command(HELLO_FROM_CLIENT_BYTE, Some(&name)),
        Err(CodecError::MalformedFrame)
    );
}

#[test]
fn empty_payload_rejected_on_encode() {
    let name: Vec<u8> = Vec::new();
    assert_eq!(
        encode_command(HELLO_FROM_CLIENT_BYTE, Some(&name)),
        Err(CodecError::MalformedFrame)
    );
}

#[test]
fn zero_length_on_wire_is_malformed() {
    let wire = vec![HELLO_FROM_CLIENT_BYTE, 0];
    assert!(matches!(parse_command(&wire, 0), Parsed::Malformed));
}

#[test]
fn invalid_utf8_payload_is_malformed() {
    // 0xff is never valid UTF-8
    let wire = vec![HELLO_FROM_CLIENT_BYTE, 2, 0xff, 0xfe];
    assert!(matches!(parse_command(&wire, 0), Parsed::Malformed));
}

#[test]
fn valid_utf8_payload_is_accepted() {
    // the same length with real UTF-8 goes through, so the UTF-8 check
    // really decides
    let wire = vec![HELLO_FROM_CLIENT_BYTE, 2, 0xc3, 0xa9];
    assert!(matches!(parse_command(&wire, 0), Parsed::Frame { .. }));
}

#[test]
fn truncated_frame_is_incomplete() {
    let wire = vec![HELLO_FROM_CLIENT_BYTE, 5, b'A', b'l'];
    assert!(matches!(parse_command(&wire, 0), Parsed::Incomplete));
    let empty: Vec<u8> = Vec::new();
    assert!(matches!(parse_command(&empty, 0), Parsed::Incomplete));
}

#[test]
fn parse_starts_mid_buffer() {
    let mut wire = encode_command(END_CALL_BYTE, None).unwrap();
    wire.extend(encode_command(ADD_USER_TO_CLIENT_BYTE, Some(&b("Eve"))).unwrap());
    match parse_command(&wire, 1) {
        Parsed::Frame { cmd, subject, used } => {
            assert_eq!(cmd, ADD_USER_TO_CLIENT_BYTE);
            assert_eq!(subject, Some(b("Eve")));
            assert_eq!(used, 5);
        }
        _ => panic!("expected a whole frame"),
    }
}

#[test]
fn sid_frame_round_trip() {
    let wire = encode_sid_frame(0xdeadbeef);
    assert_eq!(wire.len(), 5);
    assert_eq!(wire[0], SEND_CALL_STREAM_ID_BYTE);
    assert_eq!(parse_sid_frame(&wire), Ok(0xdeadbeef));
}

#[test]
fn sid_frame_wrong_command_rejected() {
    let mut wire = encode_sid_frame(7);
    wire[0] = END_CALL_BYTE;
    assert_eq!(parse_sid_frame(&wire), Err(CodecError::MalformedFrame));
    let short = vec![SEND_CALL_STREAM_ID_BYTE, 1, 2];
    assert_eq!(parse_sid_frame(&short), Err(CodecError::MalformedFrame));
}

#[test]
fn datagram_round_trip() {
    let payload = b("frame payload");
    let wire = encode_datagram(0x01020304, &payload);
    assert_eq!(wire.len(), 4 + payload.len());
    let (sid, got) = split_datagram(&wire, wire.len()).unwrap();
    assert_eq!(sid, 0x01020304);
    assert_eq!(got, payload);
}

#[test]
fn short_datagram_dropped() {
    let wire = vec![1, 2, 3];
    assert!(split_datagram(&wire, 3).is_none());
}
