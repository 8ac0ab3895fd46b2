//! Frame serialization: one RFC 6455 frame, unmasked, as a server sends
//! it.

use vstd::prelude::*;
use crate::frame::{Frame, FrameView, Opcode};

verus! {

/// The first wire byte: the final-fragment bit, zero reserved bits, and
/// the opcode in the low nibble.
pub open spec fn spec_first_byte(fin: bool, op: Opcode) -> u8 {
    (if fin {
        0x80u8
    } else {
        0x00u8
    }) | op.spec_wire()
}

/// Big-endian bytes of a 16-bit payload length.
pub open spec fn spec_be2(n: int) -> Seq<u8> {
    seq![((n / 0x100) % 0x100) as u8, (n % 0x100) as u8]
}

/// Big-endian bytes of a 64-bit payload length.
pub open spec fn spec_be8(n: int) -> Seq<u8> {
    seq![
        ((n / 0x100000000000000) % 0x100) as u8,
        ((n / 0x1000000000000) % 0x100) as u8,
        ((n / 0x10000000000) % 0x100) as u8,
        ((n / 0x100000000) % 0x100) as u8,
        ((n / 0x1000000) % 0x100) as u8,
        ((n / 0x10000) % 0x100) as u8,
        ((n / 0x100) % 0x100) as u8,
        (n % 0x100) as u8,
    ]
}

/// The payload-length field: one byte up to 125, `126` plus two bytes up
/// to 65535, `127` plus eight bytes beyond.
pub open spec fn spec_len_field(n: int) -> Seq<u8> {
    if n <= 125 {
        seq![n as u8]
    } else if n <= 0xffff {
        seq![126u8] + spec_be2(n)
    } else {
        seq![127u8] + spec_be8(n)
    }
}

/// The wire bytes of a frame as the server sends it: first byte, length
/// field, payload, no mask.
pub open spec fn spec_encode(f: FrameView) -> Seq<u8> {
    seq![spec_first_byte(f.fin, f.opcode)] + spec_len_field(f.data.len() as int) + f.data
}

/// The frame serializer.
pub struct Writer {}

impl Writer {
    /// Serialize one frame.  The caller writes the returned bytes to the
    /// transport in one piece and flushes.
    pub fn encode_frame(frame: &Frame) -> (r: Vec<u8>)
        requires
            frame.wf(),
        ensures
            r@ == spec_encode(frame@),
    {
        let mut out: Vec<u8> = Vec::new();
        let first: u8 = (if frame.fin {
            0x80u8
        } else {
            0x00u8
        }) | frame.opcode.wire();
        out.push(first);
        let n = frame.len;
        if n <= 125 {
            out.push(n as u8);
        } else if n <= 65535 {
            out.push(126);
            out.push(((n / 0x100) % 0x100) as u8);
            out.push((n % 0x100) as u8);
        } else {
            out.push(127);
            let v = n as u64;
            out.push(((v / 0x100000000000000) % 0x100) as u8);
            out.push(((v / 0x1000000000000) % 0x100) as u8);
            out.push(((v / 0x10000000000) % 0x100) as u8);
            out.push(((v / 0x100000000) % 0x100) as u8);
            out.push(((v / 0x1000000) % 0x100) as u8);
            out.push(((v / 0x10000) % 0x100) as u8);
            out.push(((v / 0x100) % 0x100) as u8);
            out.push((v % 0x100) as u8);
        }
        out.extend_from_slice(frame.data.as_slice());
        assert(out@ =~= spec_encode(frame@));
        out
    }
}

} // verus!
