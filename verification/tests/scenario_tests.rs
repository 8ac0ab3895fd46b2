//! End-to-end scenarios driven through the public pipeline: decode,
//! reassemble, dispatch, encode.

use ws_core::frame::{Frame, FrameError, Opcode};
use ws_core::handler::{Action, Handler};
use ws_core::reader::{decode_frame, Decoded, Reader, ReadStep};
use ws_core::writer::Writer;

/// Run inbound wire bytes through the reader and the dispatcher,
/// collecting everything the server writes back, until the input runs
/// out, the connection closes, or an error ends it.
fn drive(input: &[u8], max: usize) -> (Vec<u8>, Option<FrameError>) {
    let mut reader = Reader::new(max);
    let mut buf = input.to_vec();
    let mut out = Vec::new();
    loop {
        let step = match reader.process(&buf) {
            Ok(s) => s,
            Err(e) => return (out, Some(e)),
        };
        match step {
            ReadStep::NeedMore { .. } => return (out, None),
            ReadStep::Buffered { used } => {
                buf.drain(..used);
            }
            ReadStep::Message { frame, used } => {
                buf.drain(..used);
                match Handler::dispatch(frame) {
                    Action::Reply(reply) => out.extend(Writer::encode_frame(&reply)),
                    Action::Ignore => {}
                    Action::CloseWithReply(reply) => {
                        out.extend(Writer::encode_frame(&reply));
                        return (out, None);
                    }
                    Action::CloseSilent => return (out, None),
                }
            }
        }
    }
}

#[test]
fn test_text_echo_unfragmented_masked() {
    // masked Text "Hi" echoes back unmasked
    let input = [0x81, 0x82, 0x00, 0x00, 0x00, 0x00, 0x48, 0x69];
    let (out, err) = drive(&input, 1024);
    assert!(err.is_none());
    assert_eq!(out, vec![0x81, 0x02, 0x48, 0x69]);
}

#[test]
fn test_fragmented_text_echoed_whole() {
    // "Hello" (fin=0) then " World" (fin=1), both masked with key 0
    let mut input = vec![0x01, 0x85, 0x00, 0x00, 0x00, 0x00];
    input.extend_from_slice(b"Hello");
    input.extend_from_slice(&[0x80, 0x86, 0x00, 0x00, 0x00, 0x00]);
    input.extend_from_slice(b" World");
    let (out, err) = drive(&input, 1024);
    assert!(err.is_none());
    let mut expected = vec![0x81, 0x0b];
    expected.extend_from_slice(b"Hello World");
    assert_eq!(out, expected);
}

#[test]
fn test_ping_interleaved_between_fragments() {
    // Text fin=0 "Hel", Ping "p", Continuation fin=1 "lo":
    // the pong goes out before the reassembled text echo
    let mut input = vec![0x01, 0x03];
    input.extend_from_slice(b"Hel");
    input.extend_from_slice(&[0x89, 0x01]);
    input.extend_from_slice(b"p");
    input.extend_from_slice(&[0x80, 0x02]);
    input.extend_from_slice(b"lo");
    let (out, err) = drive(&input, 1024);
    assert!(err.is_none());
    let mut expected = vec![0x8a, 0x01, b'p', 0x81, 0x05];
    expected.extend_from_slice(b"Hello");
    assert_eq!(out, expected);
}

#[test]
fn test_close_with_disallowed_code_1005() {
    // masked Close carrying 1005 gets a 1002 reply with no reason
    let input = [0x88, 0x82, 0x00, 0x00, 0x00, 0x00, 0x03, 0xed];
    let (out, err) = drive(&input, 1024);
    assert!(err.is_none());
    assert_eq!(out, vec![0x88, 0x02, 0x03, 0xea]);
}

#[test]
fn test_invalid_utf8_split_across_fragments() {
    // lead byte C3 then invalid trailer 28
    let input = [0x01, 0x01, 0xc3, 0x80, 0x01, 0x28];
    let (out, err) = drive(&input, 1024);
    assert!(out.is_empty());
    assert!(matches!(err, Some(FrameError::InvalidUTF8)));
}

#[test]
fn test_oversize_frame_rejected_before_body() {
    // a Binary frame declaring 2048 bytes fails at once under a 1024 limit,
    // with no payload bytes in the buffer at all
    let header = vec![0x82, 126, 0x08, 0x00];
    let r = decode_frame(&header, 1024);
    assert!(matches!(r, Err(FrameError::FrameTooLarge)));
}

#[test]
fn test_close_handshake_echoes_allowed_code() {
    // Close with 1000 and reason "bye" comes back verbatim, then the
    // connection is done
    let mut payload = vec![0x03, 0xe8];
    payload.extend_from_slice(b"bye");
    let mut input = vec![0x88, 0x05];
    input.extend_from_slice(&payload);
    let (out, err) = drive(&input, 1024);
    assert!(err.is_none());
    let mut expected = vec![0x88, 0x05];
    expected.extend_from_slice(&payload);
    assert_eq!(out, expected);
}

#[test]
fn test_pong_is_ignored() {
    let input = [0x8a, 0x01, b'x'];
    let (out, err) = drive(&input, 1024);
    assert!(err.is_none());
    assert!(out.is_empty());
}

#[test]
fn test_binary_echo() {
    let input = [0x82, 0x03, 1, 2, 3];
    let (out, err) = drive(&input, 1024);
    assert!(err.is_none());
    assert_eq!(out, vec![0x82, 0x03, 1, 2, 3]);
}

#[test]
fn test_dispatch_ping_builds_pong() {
    let ping = Frame {
        fin: true,
        opcode: Opcode::Ping,
        len: 2,
        data: b"hi".to_vec(),
    };
    match Handler::dispatch(ping) {
        Action::Reply(f) => {
            assert_eq!(f.opcode, Opcode::Pong);
            assert_eq!(f.data, b"hi".to_vec());
            assert!(f.fin);
        }
        _ => panic!("expected a reply"),
    }
}

#[test]
fn test_dispatch_malformed_close_closes_silently() {
    let close = Frame {
        fin: true,
        opcode: Opcode::Close,
        len: 1,
        data: vec![0x03],
    };
    assert!(matches!(Handler::dispatch(close), Action::CloseSilent));
}

#[test]
fn test_fragmented_message_respects_limit() {
    // two fragments of 600 bytes each exceed a 1000-byte limit together
    let mut input = vec![0x02, 126, 0x02, 0x58];
    input.extend(vec![0u8; 600]);
    input.extend_from_slice(&[0x80, 126, 0x02, 0x58]);
    input.extend(vec![0u8; 600]);
    let (_, err) = drive(&input, 1000);
    assert!(matches!(err, Some(FrameError::FrameTooLarge)));
}

#[test]
fn test_needs_more_when_frame_split_mid_payload() {
    let mut reader = Reader::new(1024);
    let buf = vec![0x81, 0x05, b'H', b'e'];
    match reader.process(&buf).unwrap() {
        ReadStep::NeedMore { needed } => assert_eq!(needed, 7),
        _ => panic!("expected to need more bytes"),
    }
}

#[test]
fn test_decode_then_encode_identity_on_wire() {
    // unmasked server-style frame decodes and re-encodes to the same bytes
    let mut wire = vec![0x81, 0x03];
    wire.extend_from_slice(b"abc");
    let frame = match decode_frame(&wire, 1024).unwrap() {
        Decoded::Frame { frame, .. } => frame,
        _ => panic!("expected a frame"),
    };
    assert_eq!(Writer::encode_frame(&frame), wire);
}
