use ws_core::frame::{CloseCode, Frame, FrameError, Opcode};

#[test]
fn test_opcode_from_u8() {
    assert_eq!(Opcode::from_u8(0x0).unwrap(), Opcode::Continuation);
    assert_eq!(Opcode::from_u8(0x1).unwrap(), Opcode::Text);
    assert_eq!(Opcode::from_u8(0x2).unwrap(), Opcode::Binary);
    assert_eq!(Opcode::from_u8(0x8).unwrap(), Opcode::Close);
    assert_eq!(Opcode::from_u8(0x9).unwrap(), Opcode::Ping);
    assert_eq!(Opcode::from_u8(0xa).unwrap(), Opcode::Pong);
    assert!(matches!(
        Opcode::from_u8(0x3),
        Err(FrameError::InvalidOpCode(0x3))
    ));
    assert!(matches!(
        Opcode::from_u8(0xf),
        Err(FrameError::InvalidOpCode(0xf))
    ));
}

#[test]
fn test_opcode_is_control() {
    assert!(Opcode::Close.is_control());
    assert!(Opcode::Ping.is_control());
    assert!(Opcode::Pong.is_control());
    assert!(!Opcode::Text.is_control());
    assert!(!Opcode::Binary.is_control());
    assert!(!Opcode::Continuation.is_control());
}

#[test]
fn test_close_code_classification() {
    assert_eq!(CloseCode::from_u16(1000), CloseCode::Normal);
    assert_eq!(CloseCode::from_u16(1002), CloseCode::Protocol);
    assert_eq!(CloseCode::from_u16(1005), CloseCode::Status);
    assert_eq!(CloseCode::from_u16(1006), CloseCode::Abnormal);
    assert_eq!(CloseCode::from_u16(1015), CloseCode::Tls);
    assert_eq!(CloseCode::from_u16(500), CloseCode::Bad(500));
    assert_eq!(CloseCode::from_u16(1016), CloseCode::Reserved(1016));
    assert_eq!(CloseCode::from_u16(2999), CloseCode::Reserved(2999));
    assert_eq!(CloseCode::from_u16(3500), CloseCode::Library(3500));
    assert_eq!(CloseCode::from_u16(5000), CloseCode::Bad(5000));
    assert_eq!(CloseCode::from_u16(1004), CloseCode::Bad(1004));
}

#[test]
fn test_close_code_is_allowed() {
    assert!(CloseCode::from_u16(1000).is_allowed());
    assert!(CloseCode::from_u16(1011).is_allowed());
    assert!(CloseCode::from_u16(3000).is_allowed());
    assert!(CloseCode::from_u16(4999).is_allowed());
    assert!(!CloseCode::from_u16(1005).is_allowed());
    assert!(!CloseCode::from_u16(1006).is_allowed());
    assert!(!CloseCode::from_u16(1015).is_allowed());
    assert!(!CloseCode::from_u16(1016).is_allowed());
    assert!(!CloseCode::from_u16(999).is_allowed());
    assert!(!CloseCode::from_u16(5000).is_allowed());
}

#[test]
fn test_close_code_to_u16() {
    assert_eq!(CloseCode::from_u16(1000).to_u16(), 1000);
    assert_eq!(CloseCode::from_u16(1013).to_u16(), 1013);
    assert_eq!(CloseCode::from_u16(2000).to_u16(), 2000);
    assert_eq!(CloseCode::from_u16(4321).to_u16(), 4321);
}

#[test]
fn test_frame_new() {
    let f = Frame::new(Opcode::Text, b"abc".to_vec());
    assert!(f.fin);
    assert_eq!(f.opcode, Opcode::Text);
    assert_eq!(f.len, 3);
    assert_eq!(f.data, b"abc".to_vec());
}

#[test]
fn test_frame_close_builds_payload() {
    let f = Frame::close(1002, &b"oops".to_vec());
    assert!(f.fin);
    assert_eq!(f.opcode, Opcode::Close);
    assert_eq!(f.data, vec![0x03, 0xea, b'o', b'o', b'p', b's']);
    assert_eq!(f.len, 6);
}

#[test]
fn test_close_reply_empty() {
    let f = Frame::new_close_reply(Vec::new()).unwrap();
    assert_eq!(f.opcode, Opcode::Close);
    assert!(f.data.is_empty());
}

#[test]
fn test_close_reply_one_byte_rejected() {
    let r = Frame::new_close_reply(vec![0x03]);
    assert!(matches!(r, Err(FrameError::InvalidCloseFrame)));
}

#[test]
fn test_close_reply_allowed_code_echoed() {
    // 1000 with a UTF-8 reason comes back verbatim
    let mut payload = vec![0x03, 0xe8];
    payload.extend_from_slice("bye".as_bytes());
    let f = Frame::new_close_reply(payload.clone()).unwrap();
    assert_eq!(f.data, payload);
}

#[test]
fn test_close_reply_disallowed_code_answered_with_1002() {
    // 1005 (no status) may not be sent by a peer
    let f = Frame::new_close_reply(vec![0x03, 0xed]).unwrap();
    assert_eq!(f.data, vec![0x03, 0xea]);
}

#[test]
fn test_close_reply_reserved_code_answered_with_1002() {
    // 1016 is reserved; the reason bytes ride along
    let f = Frame::new_close_reply(vec![0x03, 0xf8, b'x']).unwrap();
    assert_eq!(f.data, vec![0x03, 0xea, b'x']);
}

#[test]
fn test_close_reply_invalid_utf8_reason() {
    let r = Frame::new_close_reply(vec![0x03, 0xe8, 0xff, 0xfe]);
    assert!(matches!(r, Err(FrameError::InvalidUTF8)));
}
