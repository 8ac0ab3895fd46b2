use ws_core::frame::{Frame, FrameError, Opcode};
use ws_core::reader::{decode_frame, Decoded, Fragments, Reader, ReadStep};
use ws_core::writer::Writer;

fn decoded_frame(buf: &[u8], max: usize) -> (Frame, usize) {
    match decode_frame(&buf.to_vec(), max).unwrap() {
        Decoded::Frame { frame, used } => (frame, used),
        Decoded::NeedMore { needed } => panic!("needed {} bytes", needed),
    }
}

#[test]
fn test_read_individual_frames() {
    // Text frame "Hello" with fin=0, unmasked
    let mut test_data = Vec::new();
    test_data.extend_from_slice(&[0b0000_0001, 0b0000_0101]);
    test_data.extend_from_slice(b"Hello");

    let (frame, used) = decoded_frame(&test_data, 1024);
    assert_eq!(frame.opcode, Opcode::Text);
    assert_eq!(frame.data, b"Hello");
    assert!(!frame.fin);
    assert_eq!(used, 7);
}

#[test]
fn test_read_complete_message() {
    // Text "Hello" (fin=0), then Pong "pong", then Continuation " World" (fin=1)
    let mut test_data = Vec::new();
    test_data.extend_from_slice(&[0b0000_0001, 0b0000_0101]);
    test_data.extend_from_slice(b"Hello");
    test_data.extend_from_slice(&[0b1000_1010, 0b0000_0100]);
    test_data.extend_from_slice(b"pong");
    test_data.extend_from_slice(&[0b1000_0000, 0b0000_0110]);
    test_data.extend_from_slice(b" World");

    let mut reader = Reader::new(1024);
    let mut buf = test_data;
    let mut messages: Vec<Frame> = Vec::new();
    while !buf.is_empty() {
        match reader.process(&buf).unwrap() {
            ReadStep::Message { frame, used } => {
                buf.drain(..used);
                messages.push(frame);
            }
            ReadStep::Buffered { used } => {
                buf.drain(..used);
            }
            ReadStep::NeedMore { needed } => panic!("needed {} bytes", needed),
        }
    }

    assert_eq!(messages.len(), 2);
    assert_eq!(messages[0].opcode, Opcode::Pong);
    assert_eq!(messages[0].data, b"pong");
    assert!(messages[0].fin);
    assert_eq!(messages[1].opcode, Opcode::Text);
    assert_eq!(messages[1].data, b"Hello World");
    assert!(messages[1].fin);
}

#[test]
fn test_write_small_frame() {
    let frame = Frame {
        fin: true,
        opcode: Opcode::Text,
        len: 5,
        data: b"Hello".to_vec(),
    };
    let buffer = Writer::encode_frame(&frame);
    assert_eq!(buffer[0], 0b1000_0001);
    assert_eq!(buffer[1], 5);
    assert_eq!(&buffer[2..], b"Hello");
}

#[test]
fn test_write_medium_frame() {
    let data = vec![0; 256];
    let frame = Frame {
        fin: true,
        opcode: Opcode::Binary,
        len: 256,
        data,
    };
    let buffer = Writer::encode_frame(&frame);
    assert_eq!(buffer[0], 0b1000_0010);
    assert_eq!(buffer[1], 126);
    assert_eq!(u16::from_be_bytes([buffer[2], buffer[3]]), 256);
    assert_eq!(buffer.len(), 4 + 256);
}

#[test]
fn test_write_large_frame_uses_8_byte_length() {
    let data = vec![7u8; 70000];
    let frame = Frame {
        fin: true,
        opcode: Opcode::Binary,
        len: 70000,
        data,
    };
    let buffer = Writer::encode_frame(&frame);
    assert_eq!(buffer[0], 0b1000_0010);
    assert_eq!(buffer[1], 127);
    let mut len_bytes = [0u8; 8];
    len_bytes.copy_from_slice(&buffer[2..10]);
    assert_eq!(u64::from_be_bytes(len_bytes), 70000);
    assert_eq!(buffer.len(), 10 + 70000);
}

#[test]
fn test_decode_masked_frame() {
    // masked Text "Hi" with key 01 02 03 04
    let payload: Vec<u8> = b"Hi".iter().zip([1u8, 2, 3, 4]).map(|(b, k)| *b ^ k).collect();
    let mut data = vec![0x81, 0x82, 1, 2, 3, 4];
    data.extend_from_slice(&payload);
    let (frame, used) = decoded_frame(&data, 1024);
    assert_eq!(frame.opcode, Opcode::Text);
    assert_eq!(frame.data, b"Hi");
    assert!(frame.fin);
    assert_eq!(used, 8);
}

#[test]
fn test_decode_wants_more_bytes() {
    let r = decode_frame(&vec![0x81], 1024).unwrap();
    assert!(matches!(r, Decoded::NeedMore { needed: 2 }));
    // 16-bit length announced but absent
    let r = decode_frame(&vec![0x82, 126], 1024).unwrap();
    assert!(matches!(r, Decoded::NeedMore { needed: 4 }));
    // header complete, payload absent
    let r = decode_frame(&vec![0x81, 2], 1024).unwrap();
    assert!(matches!(r, Decoded::NeedMore { needed: 4 }));
}

#[test]
fn test_decode_reserved_bits_rejected() {
    let r = decode_frame(&vec![0b1100_0001, 0], 1024);
    assert!(matches!(r, Err(FrameError::ReservedBitsNotZero)));
}

#[test]
fn test_decode_invalid_opcode_rejected() {
    let r = decode_frame(&vec![0b1000_0011, 0], 1024);
    assert!(matches!(r, Err(FrameError::InvalidOpCode(3))));
}

#[test]
fn test_decode_fragmented_control_rejected() {
    // Ping with fin=0
    let r = decode_frame(&vec![0b0000_1001, 0], 1024);
    assert!(matches!(r, Err(FrameError::InvalidControlFin(9))));
}

#[test]
fn test_decode_oversize_ping_rejected() {
    let r = decode_frame(&vec![0b1000_1001, 126, 0x00, 0x7e], 1024);
    assert!(matches!(r, Err(FrameError::PingFrameTooLarge)));
}

#[test]
fn test_decode_one_byte_close_rejected() {
    let r = decode_frame(&vec![0b1000_1000, 1, 0x03], 1024);
    assert!(matches!(r, Err(FrameError::InvalidCloseFrame)));
}

#[test]
fn test_accumulate_rejects_lone_continuation() {
    let mut frags = Fragments::new(1024);
    let frame = Frame {
        fin: true,
        opcode: Opcode::Continuation,
        len: 2,
        data: b"hi".to_vec(),
    };
    let r = frags.accumulate(frame);
    assert!(matches!(r, Err(FrameError::InvalidContinuation(0))));
}

#[test]
fn test_accumulate_rejects_new_message_mid_fragmentation() {
    let mut frags = Fragments::new(1024);
    let first = Frame {
        fin: false,
        opcode: Opcode::Binary,
        len: 2,
        data: b"ab".to_vec(),
    };
    assert!(frags.accumulate(first).unwrap().is_none());
    let intruder = Frame {
        fin: true,
        opcode: Opcode::Text,
        len: 2,
        data: b"cd".to_vec(),
    };
    let r = frags.accumulate(intruder);
    assert!(matches!(r, Err(FrameError::InvalidFragment)));
}

#[test]
fn test_accumulate_rejects_invalid_utf8_message() {
    let mut frags = Fragments::new(1024);
    let frame = Frame {
        fin: true,
        opcode: Opcode::Text,
        len: 2,
        data: vec![0xc3, 0x28],
    };
    let r = frags.accumulate(frame);
    assert!(matches!(r, Err(FrameError::InvalidUTF8)));
}

#[test]
fn test_accumulate_splits_multibyte_scalar_across_frames() {
    // "é" is C3 A9; the fragments cut it in half
    let mut frags = Fragments::new(1024);
    let first = Frame {
        fin: false,
        opcode: Opcode::Text,
        len: 1,
        data: vec![0xc3],
    };
    assert!(frags.accumulate(first).unwrap().is_none());
    let second = Frame {
        fin: true,
        opcode: Opcode::Continuation,
        len: 1,
        data: vec![0xa9],
    };
    let message = frags.accumulate(second).unwrap().unwrap();
    assert_eq!(message.opcode, Opcode::Text);
    assert_eq!(message.data, vec![0xc3, 0xa9]);
    assert!(message.fin);
}

#[test]
fn test_accumulate_rejects_message_ending_mid_scalar() {
    let mut frags = Fragments::new(1024);
    let first = Frame {
        fin: false,
        opcode: Opcode::Text,
        len: 1,
        data: vec![0xc3],
    };
    assert!(frags.accumulate(first).unwrap().is_none());
    let second = Frame {
        fin: true,
        opcode: Opcode::Continuation,
        len: 0,
        data: Vec::new(),
    };
    let r = frags.accumulate(second);
    assert!(matches!(r, Err(FrameError::InvalidUTF8)));
}

#[test]
fn test_accumulate_enforces_cumulative_limit() {
    let mut frags = Fragments::new(8);
    let first = Frame {
        fin: false,
        opcode: Opcode::Binary,
        len: 6,
        data: vec![0; 6],
    };
    assert!(frags.accumulate(first).unwrap().is_none());
    let second = Frame {
        fin: true,
        opcode: Opcode::Continuation,
        len: 6,
        data: vec![0; 6],
    };
    let r = frags.accumulate(second);
    assert!(matches!(r, Err(FrameError::FrameTooLarge)));
}

#[test]
fn test_roundtrip_masked() {
    // encode a frame, re-mask it as a client would, decode it back
    let frame = Frame::new(Opcode::Binary, vec![1, 2, 3, 250, 251, 252]);
    let encoded = Writer::encode_frame(&frame);
    let key = [0x5a, 0xa5, 0x0f, 0xf0];
    let mut wire = vec![encoded[0], encoded[1] | 0x80];
    wire.extend_from_slice(&key);
    for (i, b) in encoded[2..].iter().enumerate() {
        wire.push(*b ^ key[i % 4]);
    }
    let (decoded, used) = decoded_frame(&wire, 1024);
    assert!(decoded.fin);
    assert_eq!(decoded.opcode, Opcode::Binary);
    assert_eq!(decoded.data, frame.data);
    assert_eq!(used, wire.len());
}

#[test]
fn test_zero_length_text_frame() {
    let (frame, used) = decoded_frame(&[0x81, 0x00], 1024);
    assert_eq!(frame.opcode, Opcode::Text);
    assert!(frame.data.is_empty());
    assert_eq!(used, 2);
    let mut frags = Fragments::new(1024);
    let message = frags.accumulate(frame).unwrap().unwrap();
    assert!(message.data.is_empty());
}
