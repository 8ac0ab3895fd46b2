//! Frame decoding and message reassembly.
//!
//! `decode_frame` parses one wire frame out of a byte buffer.  `Fragments`
//! consumes decoded frames and yields complete application messages,
//! enforcing the fragmentation rules, the cumulative size limit and
//! streaming UTF-8 validation for text.

use vstd::prelude::*;
use vstd::utf8::{valid_utf8, valid_utf8_concat};
use crate::frame::{Frame, FrameError, FrameView, Opcode};
use crate::text::{
    decode_chunk, incomplete_suffix, is_valid_utf8, lemma_scan_complete_iff_valid,
    lemma_scan_prefix_valid, lemma_scan_valid_len_bounds, scan_valid_len, Utf8Chunk,
};

verus! {

/// The reassembly state of a connection: no message in progress, a text
/// message with its validated bytes and a possibly incomplete trailing
/// scalar encoding, or a binary message with its bytes.
pub enum FragState {
    Idle,
    TextFrag { buf: Seq<u8>, trail: Seq<u8> },
    BinFrag { buf: Seq<u8> },
}

/// What one reassembly step produces: nothing yet, a complete message, or
/// a protocol error.
pub enum StepOut {
    More,
    Emit(FrameView),
    Fail(FrameError),
}

/// The reassembler as a pure transition function: from a state and an
/// incoming frame to the next state and what is handed to the caller.
/// Control frames pass through untouched; data frames start, extend or
/// finish a message under the fragmentation, size and UTF-8 rules.
pub open spec fn reassembly_step(max: nat, st: FragState, f: FrameView) -> (FragState, StepOut) {
    if f.opcode.spec_is_control() {
        (st, StepOut::Emit(f))
    } else if f.opcode == Opcode::Text || f.opcode == Opcode::Binary {
        if !(st is Idle) {
            (st, StepOut::Fail(FrameError::InvalidFragment))
        } else if f.data.len() > max {
            (st, StepOut::Fail(FrameError::FrameTooLarge))
        } else if f.fin {
            if f.opcode == Opcode::Text && !valid_utf8(f.data) {
                (st, StepOut::Fail(FrameError::InvalidUTF8))
            } else {
                (FragState::Idle, StepOut::Emit(f))
            }
        } else {
            if f.opcode == Opcode::Binary {
                (FragState::BinFrag { buf: f.data }, StepOut::More)
            } else {
                let v = scan_valid_len(f.data);
                let rem = f.data.skip(v);
                if rem.len() == 0 || incomplete_suffix(rem) {
                    (FragState::TextFrag { buf: f.data.take(v), trail: rem }, StepOut::More)
                } else {
                    (st, StepOut::Fail(FrameError::InvalidUTF8))
                }
            }
        }
    } else {
        match st {
            FragState::Idle => (st, StepOut::Fail(FrameError::InvalidContinuation(0))),
            FragState::TextFrag { buf, trail } => {
                if buf.len() + trail.len() + f.data.len() > max {
                    (st, StepOut::Fail(FrameError::FrameTooLarge))
                } else {
                    let c = trail + f.data;
                    let v = scan_valid_len(c);
                    let rem = c.skip(v);
                    if !(rem.len() == 0 || incomplete_suffix(rem)) {
                        (st, StepOut::Fail(FrameError::InvalidUTF8))
                    } else if f.fin {
                        if rem.len() == 0 {
                            (
                                FragState::Idle,
                                StepOut::Emit(
                                    FrameView { fin: true, opcode: Opcode::Text, data: buf + c },
                                ),
                            )
                        } else {
                            (st, StepOut::Fail(FrameError::InvalidUTF8))
                        }
                    } else {
                        (FragState::TextFrag { buf: buf + c.take(v), trail: rem }, StepOut::More)
                    }
                }
            },
            FragState::BinFrag { buf } => {
                if buf.len() + f.data.len() > max {
                    (st, StepOut::Fail(FrameError::FrameTooLarge))
                } else if f.fin {
                    (
                        FragState::Idle,
                        StepOut::Emit(
                            FrameView { fin: true, opcode: Opcode::Binary, data: buf + f.data },
                        ),
                    )
                } else {
                    (FragState::BinFrag { buf: buf + f.data }, StepOut::More)
                }
            },
        }
    }
}

/// Well-formedness of a reassembly state: buffered text is valid UTF-8,
/// the stash is empty or a completable suffix of at most 3 bytes, and the
/// buffered bytes stay within the size limit.
pub open spec fn state_wf(st: FragState, max: nat) -> bool {
    match st {
        FragState::Idle => true,
        FragState::TextFrag { buf, trail } => valid_utf8(buf) && (trail.len() == 0
            || incomplete_suffix(trail)) && buf.len() + trail.len() <= max,
        FragState::BinFrag { buf } => buf.len() <= max,
    }
}

/// One reassembly step preserves well-formedness, and a data message it
/// emits never exceeds the size limit.
pub proof fn lemma_step_preserves_wf(max: nat, st: FragState, f: FrameView)
    requires
        state_wf(st, max),
    ensures
        state_wf(reassembly_step(max, st, f).0, max),
        match reassembly_step(max, st, f).1 {
            StepOut::Emit(g) => !g.opcode.spec_is_control() ==> g.data.len() <= max,
            _ => true,
        },
{
    if !f.opcode.spec_is_control() && (f.opcode == Opcode::Text || f.opcode == Opcode::Binary)
        && st is Idle && f.data.len() <= max && !f.fin && f.opcode == Opcode::Text {
        let v = scan_valid_len(f.data);
        let rem = f.data.skip(v);
        if rem.len() == 0 || incomplete_suffix(rem) {
            lemma_scan_valid_len_bounds(f.data);
            lemma_scan_prefix_valid(f.data);
        }
    }
    if f.opcode == Opcode::Continuation {
        match st {
            FragState::TextFrag { buf, trail } => {
                if buf.len() + trail.len() + f.data.len() <= max {
                    let c = trail + f.data;
                    let v = scan_valid_len(c);
                    let rem = c.skip(v);
                    if rem.len() == 0 || incomplete_suffix(rem) {
                        lemma_scan_valid_len_bounds(c);
                        lemma_scan_prefix_valid(c);
                        valid_utf8_concat(buf, c.take(scan_valid_len(c)));
                        if f.fin && rem.len() == 0 {
                            lemma_scan_complete_iff_valid(c);
                        }
                    }
                }
            },
            _ => {},
        }
    }
}

/// The fragment in progress, if any, with its buffered payload.  For text
/// the stash holds a trailing incomplete scalar encoding of at most 3
/// bytes, carried across frame boundaries.
pub enum Fragment {
    Text { trailing: Vec<u8>, buffer: Vec<u8> },
    Binary { buffer: Vec<u8> },
}

/// The message reassembler: the fragment state of one connection plus the
/// total payload size it is willing to buffer or emit.
pub struct Fragments {
    fragments: Option<Fragment>,
    max_payload_size: usize,
}

impl View for Fragments {
    type V = FragState;

    closed spec fn view(&self) -> FragState {
        match self.fragments {
            Option::None => FragState::Idle,
            Option::Some(Fragment::Text { trailing, buffer }) => FragState::TextFrag {
                buf: buffer@,
                trail: trailing@,
            },
            Option::Some(Fragment::Binary { buffer }) => FragState::BinFrag { buf: buffer@ },
        }
    }
}

impl Fragments {
    /// The configured limit on a reassembled message's total payload.
    pub closed spec fn spec_max(&self) -> nat {
        self.max_payload_size as nat
    }

    /// The state invariant of the reassembler.
    pub open spec fn wf(&self) -> bool {
        state_wf(self@, self.spec_max())
    }

    /// A fresh reassembler with no message in progress.
    pub fn new(max_payload_size: usize) -> (r: Fragments)
        ensures
            r.wf(),
            r@ is Idle,
            r.spec_max() == max_payload_size,
    {
        Fragments { fragments: None, max_payload_size }
    }

    /// Feed one decoded frame: pass a control frame through, or start,
    /// extend or finish a data message.  Behaves exactly as
    /// `reassembly_step` on the state it holds.
    pub fn accumulate(&mut self, frame: Frame) -> (r: Result<Option<Frame>, FrameError>)
        requires
            old(self).wf(),
            frame.wf(),
        ensures
            final(self).wf(),
            final(self).spec_max() == old(self).spec_max(),
            final(self)@ == reassembly_step(old(self).spec_max(), old(self)@, frame@).0,
            ({
                let out = reassembly_step(old(self).spec_max(), old(self)@, frame@).1;
                match out {
                    StepOut::More => r matches Ok(x) && x is None,
                    StepOut::Emit(g) => r matches Ok(x) && x matches Some(e) && e.wf() && e@ == g,
                    StepOut::Fail(err) => r matches Err(e2) && e2 == err,
                }
            }),
    {
        proof {
            lemma_step_preserves_wf(old(self).spec_max(), old(self)@, frame@);
        }
        if frame.opcode.is_control() {
            return Ok(Some(frame));
        }
        match frame.opcode {
            Opcode::Text | Opcode::Binary => {
                if self.fragments.is_some() {
                    return Err(FrameError::InvalidFragment);
                }
                if frame.data.len() > self.max_payload_size {
                    return Err(FrameError::FrameTooLarge);
                }
                if frame.fin {
                    if matches!(frame.opcode, Opcode::Text) && !is_valid_utf8(&frame.data) {
                        return Err(FrameError::InvalidUTF8);
                    }
                    return Ok(Some(frame));
                }
                if matches!(frame.opcode, Opcode::Binary) {
                    self.fragments = Some(Fragment::Binary { buffer: frame.data });
                    return Ok(None);
                }
                let mut chunk = frame.data;
                match decode_chunk(&chunk) {
                    Utf8Chunk::Complete => {
                        proof {
                            lemma_scan_valid_len_bounds(chunk@);
                        }
                        self.fragments = Some(
                            Fragment::Text { trailing: Vec::new(), buffer: chunk },
                        );
                        assert(chunk@.take(scan_valid_len(chunk@)) =~= chunk@);
                        assert(Seq::<u8>::empty() =~= chunk@.skip(scan_valid_len(chunk@)));
                        Ok(None)
                    },
                    Utf8Chunk::Split { valid_len } => {
                        proof {
                            lemma_scan_valid_len_bounds(chunk@);
                        }
                        let trailing = chunk.split_off(valid_len);
                        self.fragments = Some(Fragment::Text { trailing, buffer: chunk });
                        Ok(None)
                    },
                    Utf8Chunk::Malformed => Err(FrameError::InvalidUTF8),
                }
            },
            _ => {
                let frag = self.fragments.take();
                match frag {
                    Option::None => Err(FrameError::InvalidContinuation(0)),
                    Option::Some(Fragment::Binary { mut buffer }) => {
                        if frame.data.len() > self.max_payload_size - buffer.len() {
                            self.fragments = Some(Fragment::Binary { buffer });
                            return Err(FrameError::FrameTooLarge);
                        }
                        let mut data = frame.data;
                        buffer.append(&mut data);
                        if frame.fin {
                            return Ok(Some(Frame::new(Opcode::Binary, buffer)));
                        }
                        self.fragments = Some(Fragment::Binary { buffer });
                        Ok(None)
                    },
                    Option::Some(Fragment::Text { trailing, mut buffer }) => {
                        if frame.data.len() > self.max_payload_size - buffer.len()
                            - trailing.len() {
                            self.fragments = Some(Fragment::Text { trailing, buffer });
                            return Err(FrameError::FrameTooLarge);
                        }
                        let mut combined: Vec<u8> = Vec::new();
                        combined.extend_from_slice(trailing.as_slice());
                        let mut data = frame.data;
                        combined.append(&mut data);
                        assert(combined@ =~= trailing@ + frame.data@);
                        match decode_chunk(&combined) {
                            Utf8Chunk::Complete => {
                                proof {
                                    lemma_scan_valid_len_bounds(combined@);
                                }
                                assert(combined@.take(scan_valid_len(combined@)) =~= combined@);
                                assert(Seq::<u8>::empty() =~= combined@.skip(
                                    scan_valid_len(combined@),
                                ));
                                buffer.append(&mut combined);
                                if frame.fin {
                                    return Ok(Some(Frame::new(Opcode::Text, buffer)));
                                }
                                self.fragments = Some(
                                    Fragment::Text { trailing: combined, buffer },
                                );
                                Ok(None)
                            },
                            Utf8Chunk::Split { valid_len } => {
                                proof {
                                    lemma_scan_valid_len_bounds(combined@);
                                }
                                if frame.fin {
                                    self.fragments = Some(
                                        Fragment::Text { trailing, buffer },
                                    );
                                    return Err(FrameError::InvalidUTF8);
                                }
                                let rest = combined.split_off(valid_len);
                                buffer.append(&mut combined);
                                self.fragments = Some(
                                    Fragment::Text { trailing: rest, buffer },
                                );
                                Ok(None)
                            },
                            Utf8Chunk::Malformed => {
                                self.fragments = Some(Fragment::Text { trailing, buffer });
                                Err(FrameError::InvalidUTF8)
                            },
                        }
                    },
                }
            },
        }
    }
}

/// Payload bytes after removing the client mask: byte `i` of the payload
/// XORed with byte `i mod 4` of the key.
pub open spec fn spec_unmask(p: Seq<u8>, k: Seq<u8>) -> Seq<u8> {
    Seq::new(p.len(), |i: int| p[i] ^ k[i % 4])
}

/// The value of a 16-bit extended payload length, big-endian.
pub open spec fn spec_len16(b0: u8, b1: u8) -> int {
    b0 as int * 256 + b1 as int
}

/// The value of a 64-bit extended payload length, big-endian.
pub open spec fn spec_len64(b: Seq<u8>) -> int {
    b[0] as int * 0x100000000000000 + b[1] as int * 0x1000000000000 + b[2] as int * 0x10000000000
        + b[3] as int * 0x100000000 + b[4] as int * 0x1000000 + b[5] as int * 0x10000 + b[6] as int
        * 0x100 + b[7] as int
}

/// What a byte buffer holds at its front: not enough bytes yet for one
/// frame (`needed` gives the total required so far), a protocol error, or
/// one parsed frame together with the bytes it spans.
pub enum WireParse {
    Partial { needed: int },
    Bad { err: FrameError },
    Parsed { fin: bool, opcode: Opcode, data: Seq<u8>, used: int },
}

/// The frame decoder as a function of the buffered bytes: header bits,
/// reserved-bit and opcode checks, the three payload-length forms, the
/// control-frame rules, the size limit, and unmasking.
pub open spec fn spec_decode(s: Seq<u8>, max: nat) -> WireParse {
    if s.len() < 2 {
        WireParse::Partial { needed: 2 }
    } else {
        let h0 = s[0];
        let h1 = s[1];
        if h0 & 0x70 != 0 {
            WireParse::Bad { err: FrameError::ReservedBitsNotZero }
        } else {
            match Opcode::spec_from_u8(h0 & 0x0f) {
                Option::None => WireParse::Bad { err: FrameError::InvalidOpCode(h0 & 0x0f) },
                Option::Some(op) => {
                    let fin = (h0 & 0x80) != 0;
                    if op.spec_is_control() && !fin {
                        WireParse::Bad { err: FrameError::InvalidControlFin(op.spec_wire()) }
                    } else {
                        let len7 = h1 & 0x7f;
                        let ext: int = if len7 == 126 {
                            2
                        } else if len7 == 127 {
                            8
                        } else {
                            0
                        };
                        if s.len() < 2 + ext {
                            WireParse::Partial { needed: 2 + ext }
                        } else {
                            let plen: int = if len7 == 126 {
                                spec_len16(s[2], s[3])
                            } else if len7 == 127 {
                                spec_len64(s.subrange(2, 10))
                            } else {
                                len7 as int
                            };
                            if op == Opcode::Ping && plen > 125 {
                                WireParse::Bad { err: FrameError::PingFrameTooLarge }
                            } else if op == Opcode::Close && plen == 1 {
                                WireParse::Bad { err: FrameError::InvalidCloseFrame }
                            } else if plen > max {
                                WireParse::Bad { err: FrameError::FrameTooLarge }
                            } else {
                                let masked = (h1 & 0x80) != 0;
                                let mlen: int = if masked {
                                    4
                                } else {
                                    0
                                };
                                let total = 2 + ext + mlen + plen;
                                if s.len() < total {
                                    WireParse::Partial { needed: total }
                                } else {
                                    let raw = s.subrange(2 + ext + mlen, total);
                                    let data = if masked {
                                        spec_unmask(raw, s.subrange(2 + ext, 2 + ext + 4))
                                    } else {
                                        raw
                                    };
                                    WireParse::Parsed { fin, opcode: op, data, used: total }
                                }
                            }
                        }
                    }
                }
            }
        }
    }
}

/// What `decode_frame` hands back on success: one frame and the number of
/// buffer bytes it consumed, or the total byte count still needed.
pub enum Decoded {
    Frame { frame: Frame, used: usize },
    NeedMore { needed: usize },
}

/// Decode one frame from the front of `buf`.  Behaves exactly as
/// `spec_decode` on the buffered bytes.
pub fn decode_frame(buf: &Vec<u8>, max_payload_size: usize) -> (r: Result<Decoded, FrameError>)
    requires
        max_payload_size <= usize::MAX - 14,
    ensures
        match spec_decode(buf@, max_payload_size as nat) {
            WireParse::Partial { needed } => r matches Ok(Decoded::NeedMore { needed: n }) && n
                == needed,
            WireParse::Bad { err } => r matches Err(e) && e == err,
            WireParse::Parsed { fin, opcode, data, used } => r matches Ok(
                Decoded::Frame { frame, used: u },
            ) && frame.wf() && frame@ == (FrameView { fin, opcode, data }) && u == used,
        },
{
    if buf.len() < 2 {
        return Ok(Decoded::NeedMore { needed: 2 });
    }
    let h0 = buf[0];
    let h1 = buf[1];
    if h0 & 0x70 != 0 {
        return Err(FrameError::ReservedBitsNotZero);
    }
    let opcode = match Opcode::from_u8(h0 & 0x0f) {
        Ok(op) => op,
        Err(e) => {
            return Err(e);
        },
    };
    let fin = h0 & 0x80 != 0;
    if opcode.is_control() && !fin {
        return Err(FrameError::InvalidControlFin(opcode.wire()));
    }
    let len7 = h1 & 0x7f;
    let ext: usize = if len7 == 126 {
        2
    } else if len7 == 127 {
        8
    } else {
        0
    };
    if buf.len() < 2 + ext {
        return Ok(Decoded::NeedMore { needed: 2 + ext });
    }
    let payload_len64: u64 = if len7 == 126 {
        buf[2] as u64 * 256 + buf[3] as u64
    } else if len7 == 127 {
        buf[2] as u64 * 0x100000000000000 + buf[3] as u64 * 0x1000000000000 + buf[4] as u64
            * 0x10000000000 + buf[5] as u64 * 0x100000000 + buf[6] as u64 * 0x1000000
            + buf[7] as u64 * 0x10000 + buf[8] as u64 * 0x100 + buf[9] as u64
    } else {
        len7 as u64
    };
    proof {
        if len7 == 127 {
            assert(payload_len64 == spec_len64(buf@.subrange(2, 10)));
        }
    }
    if matches!(opcode, Opcode::Ping) && payload_len64 > 125 {
        return Err(FrameError::PingFrameTooLarge);
    }
    if matches!(opcode, Opcode::Close) && payload_len64 == 1 {
        return Err(FrameError::InvalidCloseFrame);
    }
    if payload_len64 > max_payload_size as u64 {
        return Err(FrameError::FrameTooLarge);
    }
    let payload_len = payload_len64 as usize;
    let masked = h1 & 0x80 != 0;
    let mlen: usize = if masked {
        4
    } else {
        0
    };
    let header = 2 + ext + mlen;
    let total = header + payload_len;
    if buf.len() < total {
        return Ok(Decoded::NeedMore { needed: total });
    }
    let ghost raw = buf@.subrange(header as int, total as int);
    let mut data: Vec<u8> = Vec::new();
    if masked {
        let k0 = buf[2 + ext];
        let k1 = buf[2 + ext + 1];
        let k2 = buf[2 + ext + 2];
        let k3 = buf[2 + ext + 3];
        let ghost key = buf@.subrange(2 + ext as int, 2 + ext as int + 4);
        assert(key[0] == k0 && key[1] == k1 && key[2] == k2 && key[3] == k3);
        let mut i: usize = 0;
        while i < payload_len
            invariant
                i <= payload_len,
                header + payload_len == total <= buf@.len(),
                data@.len() == i,
                key.len() == 4,
                key[0] == k0 && key[1] == k1 && key[2] == k2 && key[3] == k3,
                raw == buf@.subrange(header as int, total as int),
                forall|j: int| 0 <= j < i ==> data@[j] == raw[j] ^ key[j % 4],
            decreases payload_len - i,
        {
            let b = buf[header + i];
            let k = if i % 4 == 0 {
                k0
            } else if i % 4 == 1 {
                k1
            } else if i % 4 == 2 {
                k2
            } else {
                k3
            };
            data.push(b ^ k);
            i += 1;
        }
        assert(data@ =~= spec_unmask(raw, key));
    } else {
        let mut i: usize = 0;
        while i < payload_len
            invariant
                i <= payload_len,
                header + payload_len == total <= buf@.len(),
                data@.len() == i,
                raw == buf@.subrange(header as int, total as int),
                forall|j: int| 0 <= j < i ==> data@[j] == raw[j],
            decreases payload_len - i,
        {
            data.push(buf[header + i]);
            i += 1;
        }
        assert(data@ =~= raw);
    }
    Ok(Decoded::Frame { frame: Frame { fin, opcode, len: payload_len, data }, used: total })
}

/// What one call to `Reader::process` achieved: a complete message, one
/// frame absorbed into the reassembly, or a request for more bytes.
pub enum ReadStep {
    Message { frame: Frame, used: usize },
    Buffered { used: usize },
    NeedMore { needed: usize },
}

/// The inbound half of a connection: the size limit and the reassembler.
/// The caller owns the byte buffer and refills it from the transport when
/// `process` asks for more.
pub struct Reader {
    max_payload_size: usize,
    fragments: Fragments,
}

impl Reader {
    /// The configured limit on a message's total payload.
    pub closed spec fn spec_max(&self) -> nat {
        self.max_payload_size as nat
    }

    /// The reassembly state.
    pub closed spec fn frag_state(&self) -> FragState {
        self.fragments@
    }

    /// The reader invariant.
    pub closed spec fn wf(&self) -> bool {
        &&& self.fragments.wf()
        &&& self.fragments.spec_max() == self.spec_max()
        &&& self.spec_max() <= usize::MAX - 14
    }

    /// A fresh reader with no message in progress.
    pub fn new(max_payload_size: usize) -> (r: Reader)
        requires
            max_payload_size <= usize::MAX - 14,
        ensures
            r.wf(),
            r.frag_state() is Idle,
            r.spec_max() == max_payload_size,
    {
        Reader { max_payload_size, fragments: Fragments::new(max_payload_size) }
    }

    /// Decode one frame from the front of `buf` and feed it to the
    /// reassembler: exactly `spec_decode` followed by `reassembly_step`.
    /// `used` says how many buffer bytes the frame spanned; the caller
    /// drains them.
    pub fn process(&mut self, buf: &Vec<u8>) -> (r: Result<ReadStep, FrameError>)
        requires
            old(self).wf(),
        ensures
            final(self).wf(),
            final(self).spec_max() == old(self).spec_max(),
            match spec_decode(buf@, old(self).spec_max()) {
                WireParse::Partial { needed } => final(self).frag_state() == old(
                    self,
                ).frag_state() && (r matches Ok(ReadStep::NeedMore { needed: n }) && n == needed),
                WireParse::Bad { err } => final(self).frag_state() == old(self).frag_state() && (
                r matches Err(e) && e == err),
                WireParse::Parsed { fin, opcode, data, used } => ({
                    let fv = FrameView { fin, opcode, data };
                    let st = reassembly_step(old(self).spec_max(), old(self).frag_state(), fv);
                    final(self).frag_state() == st.0 && match st.1 {
                        StepOut::More => r matches Ok(ReadStep::Buffered { used: u }) && u == used,
                        StepOut::Emit(g) => r matches Ok(ReadStep::Message { frame, used: u })
                            && frame.wf() && frame@ == g && u == used,
                        StepOut::Fail(err) => r matches Err(e) && e == err,
                    }
                }),
            },
    {
        match decode_frame(buf, self.max_payload_size) {
            Err(e) => Err(e),
            Ok(Decoded::NeedMore { needed }) => Ok(ReadStep::NeedMore { needed }),
            Ok(Decoded::Frame { frame, used }) => match self.fragments.accumulate(frame) {
                Err(e) => Err(e),
                Ok(Option::None) => Ok(ReadStep::Buffered { used }),
                Ok(Option::Some(message)) => Ok(ReadStep::Message { frame: message, used }),
            },
        }
    }
}

} // verus!
