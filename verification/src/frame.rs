//! The WebSocket frame model: opcodes, close codes, frames, and the
//! protocol error taxonomy.

use vstd::prelude::*;
use vstd::utf8::valid_utf8;
use crate::text::is_valid_utf8;

verus! {

/// The opcode of a WebSocket frame. Wire values 0x3-0x7 and 0xB-0xF are
/// reserved and rejected by `Opcode::from_u8`.
#[derive(Debug, PartialEq, Eq, Structural, Clone, Copy)]
pub enum Opcode {
    Continuation,
    Text,
    Binary,
    Close,
    Ping,
    Pong,
}

/// Everything that can go wrong while decoding, reassembling or replying
/// to frames.
#[derive(Debug, PartialEq, Eq, Structural, Clone, Copy)]
pub enum FrameError {
    InvalidUTF8,
    Io,
    InvalidOpCode(u8),
    InvalidContinuation(u8),
    InvalidControlFin(u8),
    InvalidPayloadLength(u64),
    FrameTooLarge,
    PingFrameTooLarge,
    ReservedBitsNotZero,
    InvalidFragment,
    InvalidCloseFrame,
}

impl Opcode {
    /// The 4-bit wire value of this opcode.
    pub open spec fn spec_wire(self) -> u8 {
        match self {
            Opcode::Continuation => 0x0,
            Opcode::Text => 0x1,
            Opcode::Binary => 0x2,
            Opcode::Close => 0x8,
            Opcode::Ping => 0x9,
            Opcode::Pong => 0xa,
        }
    }

    /// The opcode a 4-bit wire value stands for, if any.
    pub open spec fn spec_from_u8(v: u8) -> Option<Opcode> {
        if v == 0x0 {
            Some(Opcode::Continuation)
        } else if v == 0x1 {
            Some(Opcode::Text)
        } else if v == 0x2 {
            Some(Opcode::Binary)
        } else if v == 0x8 {
            Some(Opcode::Close)
        } else if v == 0x9 {
            Some(Opcode::Ping)
        } else if v == 0xa {
            Some(Opcode::Pong)
        } else {
            None
        }
    }

    /// Decode a 4-bit wire value into an opcode; reserved values are a
    /// protocol error.
    pub fn from_u8(v: u8) -> (r: Result<Opcode, FrameError>)
        ensures
            match r {
                Ok(op) => Opcode::spec_from_u8(v) == Some(op),
                Err(e) => Opcode::spec_from_u8(v) is None && e == FrameError::InvalidOpCode(v),
            },
    {
        match v {
            0x0 => Ok(Opcode::Continuation),
            0x1 => Ok(Opcode::Text),
            0x2 => Ok(Opcode::Binary),
            0x8 => Ok(Opcode::Close),
            0x9 => Ok(Opcode::Ping),
            0xa => Ok(Opcode::Pong),
            _ => Err(FrameError::InvalidOpCode(v)),
        }
    }

    /// The 4-bit wire value of this opcode.
    pub fn wire(self) -> (r: u8)
        ensures
            r == self.spec_wire(),
    {
        match self {
            Opcode::Continuation => 0x0,
            Opcode::Text => 0x1,
            Opcode::Binary => 0x2,
            Opcode::Close => 0x8,
            Opcode::Ping => 0x9,
            Opcode::Pong => 0xa,
        }
    }

    /// True for Close, Ping and Pong: the frames that never fragment.
    pub open spec fn spec_is_control(self) -> bool {
        self == Opcode::Close || self == Opcode::Ping || self == Opcode::Pong
    }

    /// True for Close, Ping and Pong: the frames that never fragment.
    pub fn is_control(&self) -> (r: bool)
        ensures
            r == self.spec_is_control(),
    {
        matches!(self, Opcode::Close | Opcode::Ping | Opcode::Pong)
    }
}

/// The close-code taxonomy of RFC 6455: named variants for the defined
/// codes, `Library` for 3000-4999, `Reserved` for 1016-2999 and `Bad` for
/// everything a peer may never send.
#[derive(Debug, PartialEq, Eq, Structural, Clone, Copy)]
pub enum CloseCode {
    Normal,
    Away,
    Protocol,
    Unsupported,
    Reserved(u16),
    Status,
    Abnormal,
    Invalid,
    Policy,
    Size,
    Extension,
    Error,
    Restart,
    Again,
    Tls,
    Bad(u16),
    Library(u16),
}

/// The close code a 16-bit wire value stands for.
pub open spec fn spec_close_code_of(code: u16) -> CloseCode {
    if code == 1000 {
        CloseCode::Normal
    } else if code == 1001 {
        CloseCode::Away
    } else if code == 1002 {
        CloseCode::Protocol
    } else if code == 1003 {
        CloseCode::Unsupported
    } else if code == 1005 {
        CloseCode::Status
    } else if code == 1006 {
        CloseCode::Abnormal
    } else if code == 1007 {
        CloseCode::Invalid
    } else if code == 1008 {
        CloseCode::Policy
    } else if code == 1009 {
        CloseCode::Size
    } else if code == 1010 {
        CloseCode::Extension
    } else if code == 1011 {
        CloseCode::Error
    } else if code == 1012 {
        CloseCode::Restart
    } else if code == 1013 {
        CloseCode::Again
    } else if code == 1015 {
        CloseCode::Tls
    } else if 1 <= code && code <= 999 {
        CloseCode::Bad(code)
    } else if 1016 <= code && code <= 2999 {
        CloseCode::Reserved(code)
    } else if 3000 <= code && code <= 4999 {
        CloseCode::Library(code)
    } else {
        CloseCode::Bad(code)
    }
}

/// True exactly for the wire values a peer may legitimately put in a
/// close frame: the defined codes except 1005, 1006 and 1015, plus the
/// library range 3000-4999.
pub open spec fn spec_code_allowed(code: u16) -> bool {
    (1000 <= code && code <= 1003) || (1007 <= code && code <= 1013) || (3000 <= code && code
        <= 4999)
}

impl CloseCode {
    /// Whether a peer may legitimately send this code in a close frame:
    /// false for no-status, abnormal, TLS, reserved and out-of-range codes.
    pub open spec fn spec_is_allowed(self) -> bool {
        !(self is Bad || self is Reserved || self is Status || self is Abnormal || self is Tls)
    }

    /// Whether a peer may legitimately send this code in a close frame:
    /// false for no-status, abnormal, TLS, reserved and out-of-range codes.
    pub fn is_allowed(self) -> (r: bool)
        ensures
            r == self.spec_is_allowed(),
    {
        !matches!(
            self,
            CloseCode::Bad(_) | CloseCode::Reserved(_) | CloseCode::Status | CloseCode::Abnormal
                | CloseCode::Tls
        )
    }

    /// Classify a 16-bit wire value.
    pub fn from_u16(code: u16) -> (r: CloseCode)
        ensures
            r == spec_close_code_of(code),
    {
        match code {
            1000 => CloseCode::Normal,
            1001 => CloseCode::Away,
            1002 => CloseCode::Protocol,
            1003 => CloseCode::Unsupported,
            1005 => CloseCode::Status,
            1006 => CloseCode::Abnormal,
            1007 => CloseCode::Invalid,
            1008 => CloseCode::Policy,
            1009 => CloseCode::Size,
            1010 => CloseCode::Extension,
            1011 => CloseCode::Error,
            1012 => CloseCode::Restart,
            1013 => CloseCode::Again,
            1015 => CloseCode::Tls,
            1..=999 => CloseCode::Bad(code),
            1016..=2999 => CloseCode::Reserved(code),
            3000..=4999 => CloseCode::Library(code),
            _ => CloseCode::Bad(code),
        }
    }

    /// The 16-bit wire value of this code.
    pub open spec fn spec_to_u16(self) -> u16 {
        match self {
            CloseCode::Normal => 1000,
            CloseCode::Away => 1001,
            CloseCode::Protocol => 1002,
            CloseCode::Unsupported => 1003,
            CloseCode::Status => 1005,
            CloseCode::Abnormal => 1006,
            CloseCode::Invalid => 1007,
            CloseCode::Policy => 1008,
            CloseCode::Size => 1009,
            CloseCode::Extension => 1010,
            CloseCode::Error => 1011,
            CloseCode::Restart => 1012,
            CloseCode::Again => 1013,
            CloseCode::Tls => 1015,
            CloseCode::Reserved(code) => code,
            CloseCode::Library(code) => code,
            CloseCode::Bad(code) => code,
        }
    }

    /// The 16-bit wire value of this code.
    pub fn to_u16(self) -> (r: u16)
        ensures
            r == self.spec_to_u16(),
    {
        match self {
            CloseCode::Normal => 1000,
            CloseCode::Away => 1001,
            CloseCode::Protocol => 1002,
            CloseCode::Unsupported => 1003,
            CloseCode::Status => 1005,
            CloseCode::Abnormal => 1006,
            CloseCode::Invalid => 1007,
            CloseCode::Policy => 1008,
            CloseCode::Size => 1009,
            CloseCode::Extension => 1010,
            CloseCode::Error => 1011,
            CloseCode::Restart => 1012,
            CloseCode::Again => 1013,
            CloseCode::Tls => 1015,
            CloseCode::Reserved(code) => code,
            CloseCode::Library(code) => code,
            CloseCode::Bad(code) => code,
        }
    }
}

/// Classifying a wire value and asking whether it is allowed agrees with
/// the flat predicate over the value itself.
pub proof fn lemma_code_allowed_agrees(code: u16)
    ensures
        spec_close_code_of(code).spec_is_allowed() == spec_code_allowed(code),
{
}

/// The big-endian bytes of a 16-bit value.
pub open spec fn spec_be16(code: u16) -> Seq<u8> {
    seq![(code / 256) as u8, (code % 256) as u8]
}

/// The 16-bit value read big-endian from two bytes.
pub open spec fn spec_parse_be16(b0: u8, b1: u8) -> u16 {
    (b0 as u16 * 256 + b1 as u16) as u16
}

/// One WebSocket frame: final-fragment flag, opcode, payload length and
/// payload bytes.  `len` always equals the number of payload bytes.
#[derive(Debug)]
pub struct Frame {
    pub fin: bool,
    pub opcode: Opcode,
    pub len: usize,
    pub data: Vec<u8>,
}

/// What a frame is mathematically: its flag, opcode and payload bytes.
pub struct FrameView {
    pub fin: bool,
    pub opcode: Opcode,
    pub data: Seq<u8>,
}

impl View for Frame {
    type V = FrameView;

    open spec fn view(&self) -> FrameView {
        FrameView { fin: self.fin, opcode: self.opcode, data: self.data@ }
    }
}

impl Frame {
    /// The length field agrees with the payload.
    pub open spec fn wf(&self) -> bool {
        self.len == self.data@.len()
    }

    /// A final frame with the given opcode and payload.
    pub fn new(opcode: Opcode, data: Vec<u8>) -> (r: Frame)
        ensures
            r.wf(),
            r@ == (FrameView { fin: true, opcode, data: data@ }),
    {
        let len = data.len();
        Frame { fin: true, opcode, len, data }
    }

    /// A final close frame carrying `code` big-endian followed by `reason`.
    pub fn close(code: u16, reason: &Vec<u8>) -> (r: Frame)
        requires
            reason@.len() <= usize::MAX - 2,
        ensures
            r.wf(),
            r@ == (FrameView {
                fin: true,
                opcode: Opcode::Close,
                data: spec_be16(code) + reason@,
            }),
    {
        let mut payload: Vec<u8> = Vec::new();
        payload.push((code / 256) as u8);
        payload.push((code % 256) as u8);
        payload.extend_from_slice(reason.as_slice());
        assert(payload@ =~= spec_be16(code) + reason@);
        Frame::new(Opcode::Close, payload)
    }

    /// The reply owed to an inbound close payload: echo an allowed code
    /// (with its reason checked as UTF-8), answer a disallowed one with
    /// 1002, reject a 1-byte payload outright.
    pub fn new_close_reply(data: Vec<u8>) -> (r: Result<Frame, FrameError>)
        ensures
            data@.len() == 0 ==> (r matches Ok(f) && f.wf() && f@ == (FrameView {
                fin: true,
                opcode: Opcode::Close,
                data: data@,
            })),
            data@.len() == 1 ==> r == Err::<Frame, FrameError>(FrameError::InvalidCloseFrame),
            data@.len() >= 2 ==> {
                let code = spec_parse_be16(data@[0], data@[1]);
                let reason = data@.skip(2);
                if !spec_code_allowed(code) {
                    r matches Ok(f) && f.wf() && f@ == (FrameView {
                        fin: true,
                        opcode: Opcode::Close,
                        data: spec_be16(1002) + reason,
                    })
                } else if reason.len() > 0 && !valid_utf8(reason) {
                    r == Err::<Frame, FrameError>(FrameError::InvalidUTF8)
                } else {
                    r matches Ok(f) && f.wf() && f@ == (FrameView {
                        fin: true,
                        opcode: Opcode::Close,
                        data: data@,
                    })
                }
            },
    {
        if data.len() == 0 {
            Ok(Frame::new(Opcode::Close, data))
        } else if data.len() == 1 {
            Err(FrameError::InvalidCloseFrame)
        } else {
            let mut head = data;
            let mut reason = head.split_off(2);
            let code = head[0] as u16 * 256 + head[1] as u16;
            proof {
                lemma_code_allowed_agrees(code);
            }
            if !CloseCode::from_u16(code).is_allowed() {
                return Ok(Frame::close(1002, &reason));
            }
            if reason.len() > 0 && !is_valid_utf8(&reason) {
                return Err(FrameError::InvalidUTF8);
            }
            head.append(&mut reason);
            assert(head@ =~= data@);
            Ok(Frame::new(Opcode::Close, head))
        }
    }
}

} // verus!

