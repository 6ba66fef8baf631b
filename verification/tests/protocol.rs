use fluqsr::error::Error;
use fluqsr::protocol::{
    check_header, check_hello, control_name, decode_frame, encode_control_frame,
    encode_data_frame, expect_control, Cancel, Control, Frame, FrameBody, Hello, RawFrame,
    TransferComplete, KIND_CONTROL, KIND_DATA, MAX_CONTROL_FRAME, MAX_DATA_FRAME,
    PROTOCOL_VERSION,
};

fn hello(name: &str) -> Hello {
    Hello {
        protocol_version: PROTOCOL_VERSION,
        device_id: "device-1".into(),
        device_name: name.into(),
        platform: "linux".into(),
    }
}

#[test]
fn control_frames_round_trip() {
    let payload = br#"{"type":"hello","deviceName":"Laptop"}"#;
    let buffer = encode_control_frame(payload).unwrap();
    assert_eq!(buffer[0], KIND_CONTROL);
    match decode_frame(&buffer).unwrap().unwrap() {
        (RawFrame::Control(received), used) => {
            assert_eq!(received, payload.to_vec());
            assert_eq!(used, buffer.len());
        }
        other => panic!("expected a control frame, got {other:?}"),
    }
}

#[test]
fn data_frames_round_trip() {
    let payload = vec![7u8; 4096];
    let buffer = encode_data_frame(3, &payload).unwrap();
    match decode_frame(&buffer).unwrap().unwrap() {
        (RawFrame::Data { index, bytes }, _) => {
            assert_eq!(index, 3);
            assert_eq!(bytes, payload);
        }
        other => panic!("expected data, got {other:?}"),
    }
}

#[test]
fn empty_data_frames_are_allowed() {
    let buffer = encode_data_frame(0, &[]).unwrap();
    match decode_frame(&buffer).unwrap().unwrap() {
        (RawFrame::Data { index, bytes }, used) => {
            assert_eq!(index, 0);
            assert!(bytes.is_empty());
            assert_eq!(used, 9);
        }
        other => panic!("expected data, got {other:?}"),
    }
}

#[test]
fn interleaved_frames_keep_their_order() {
    let mut buffer = encode_control_frame(b"{}").unwrap();
    buffer.extend(encode_data_frame(0, b"chunk").unwrap());
    buffer.extend(encode_control_frame(b"[1]").unwrap());

    let mut rest: &[u8] = &buffer;
    let (first, used) = decode_frame(rest).unwrap().unwrap();
    assert!(matches!(first, RawFrame::Control(ref p) if p == b"{}"));
    rest = &rest[used..];
    let (second, used) = decode_frame(rest).unwrap().unwrap();
    assert!(matches!(second, RawFrame::Data { index: 0, ref bytes } if bytes == b"chunk"));
    rest = &rest[used..];
    let (third, used) = decode_frame(rest).unwrap().unwrap();
    assert!(matches!(third, RawFrame::Control(ref p) if p == b"[1]"));
    rest = &rest[used..];
    assert!(decode_frame(rest).unwrap().is_none());
}

#[test]
fn clean_eof_is_not_an_error() {
    assert!(decode_frame(&[]).unwrap().is_none());
}

#[test]
fn an_absurd_length_is_rejected_before_allocating() {
    let mut buffer = vec![KIND_CONTROL];
    buffer.extend_from_slice(&u32::MAX.to_be_bytes());
    assert!(decode_frame(&buffer).is_err());
    assert!(check_header(KIND_CONTROL, u32::MAX).is_err());
}

#[test]
fn a_truncated_data_frame_is_rejected() {
    let mut buffer = vec![KIND_DATA];
    buffer.extend_from_slice(&2u32.to_be_bytes());
    assert!(decode_frame(&buffer).is_err());
}

#[test]
fn unknown_frame_kinds_are_rejected() {
    let mut buffer = vec![0xff];
    buffer.extend_from_slice(&4u32.to_be_bytes());
    buffer.extend_from_slice(&[0, 0, 0, 0]);
    assert!(matches!(decode_frame(&buffer), Err(Error::Protocol(_))));
}

#[test]
fn header_errors_name_the_offending_value() {
    match check_header(0x07, 4) {
        Err(Error::Protocol(m)) => assert_eq!(m, "unknown frame kind: 0x07"),
        other => panic!("unexpected {other:?}"),
    }
    match check_header(0xff, 4) {
        Err(Error::Protocol(m)) => assert_eq!(m, "unknown frame kind: 0xff"),
        other => panic!("unexpected {other:?}"),
    }
    match check_header(KIND_CONTROL, 0) {
        Err(Error::Protocol(m)) => assert_eq!(m, "control frame claims an invalid length: 0"),
        other => panic!("unexpected {other:?}"),
    }
    match check_header(KIND_DATA, 3) {
        Err(Error::Protocol(m)) => assert_eq!(m, "data frame claims an invalid length: 3"),
        other => panic!("unexpected {other:?}"),
    }
}

#[test]
fn version_mismatch_fails_the_handshake() {
    let mut theirs = hello("Old Build");
    theirs.protocol_version = PROTOCOL_VERSION + 1;
    assert!(matches!(
        check_hello(Control::Hello(theirs)),
        Err(Error::Protocol(_))
    ));
    let accepted = check_hello(Control::Hello(hello("Same Build"))).unwrap();
    assert_eq!(accepted.device_name, "Same Build");
    assert!(check_hello(Control::Cancel(Cancel { transfer_id: "t".into(), reason: None })).is_err());
}

#[test]
fn read_control_rejects_a_data_frame() {
    assert!(expect_control(Some(Frame::Data { index: 0, bytes: b"surprise".to_vec() })).is_err());
    assert!(matches!(
        expect_control(None),
        Err(Error::Protocol(m)) if m == "peer closed the connection before replying"
    ));
    let done = Control::TransferComplete(TransferComplete { transfer_id: "t".into() });
    assert!(matches!(
        expect_control(Some(Frame::Control(done))),
        Ok(Control::TransferComplete(_))
    ));
}

#[test]
fn a_frame_cut_short_is_an_io_error() {
    let buffer = encode_data_frame(1, b"abcdef").unwrap();
    assert!(matches!(decode_frame(&buffer[..buffer.len() - 1]), Err(Error::Io(_))));
    assert!(matches!(decode_frame(&buffer[..3]), Err(Error::Io(_))));
}

#[test]
fn headers_are_checked_against_the_caps() {
    assert_eq!(check_header(KIND_CONTROL, 1).unwrap(), FrameBody::Control { len: 1 });
    assert!(check_header(KIND_CONTROL, 0).is_err());
    assert!(check_header(KIND_CONTROL, MAX_CONTROL_FRAME + 1).is_err());
    assert_eq!(check_header(KIND_DATA, 4).unwrap(), FrameBody::Data { len: 4 });
    assert!(check_header(KIND_DATA, 3).is_err());
    assert!(check_header(KIND_DATA, MAX_DATA_FRAME + 1).is_err());
    assert!(matches!(check_header(9, 4), Err(Error::Protocol(_))));
}

#[test]
fn oversized_chunks_are_refused_when_framing() {
    let big = vec![0u8; (MAX_DATA_FRAME - 3) as usize];
    assert!(encode_data_frame(0, &big).is_err());
    let fits = vec![0u8; (MAX_DATA_FRAME - 4) as usize];
    assert_eq!(encode_data_frame(0, &fits).unwrap().len(), MAX_DATA_FRAME as usize + 5);
}

#[test]
fn the_frame_header_is_big_endian() {
    let buffer = encode_data_frame(0x01020304, b"xy").unwrap();
    assert_eq!(buffer, vec![KIND_DATA, 0, 0, 0, 6, 1, 2, 3, 4, b'x', b'y']);
}

#[test]
fn control_messages_are_named_for_errors() {
    assert_eq!(control_name(&Control::Hello(hello("a"))), "Hello");
    assert_eq!(
        control_name(&Control::Cancel(Cancel { transfer_id: "t".into(), reason: None })),
        "Cancel"
    );
}

#[test]
fn a_frame_cut_short_is_an_io_error_saying_so() {
    let frame = encode_data_frame(3, b"abcdef").unwrap();
    match decode_frame(&frame[..frame.len() - 1]) {
        Err(Error::Io(m)) => assert_eq!(m, "unexpected end of file"),
        other => panic!("unexpected {other:?}"),
    }
    match decode_frame(&[KIND_CONTROL]) {
        Err(Error::Io(m)) => assert_eq!(m, "unexpected end of file"),
        other => panic!("unexpected {other:?}"),
    }
}
