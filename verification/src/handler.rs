//! The per-connection dispatch policy: what reply, if any, each complete
//! message earns, and when the connection closes.

use vstd::prelude::*;
use vstd::utf8::valid_utf8;
use crate::frame::{
    spec_be16, spec_code_allowed, spec_parse_be16, Frame, FrameError, FrameView, Opcode,
};

verus! {

/// The dispatcher's decision for one complete message: send a reply and
/// go on, send nothing, or close the connection with or without a close
/// frame.
pub enum Action {
    Reply(Frame),
    Ignore,
    CloseWithReply(Frame),
    CloseSilent,
}

/// The echo policy of this endpoint.
pub struct Handler {}

impl Handler {
    /// Decide the reply owed to one complete message: echo data frames,
    /// answer a ping with a pong carrying the same payload, ignore pongs,
    /// and answer a close with the close reply (or close silently when the
    /// close payload is malformed).
    pub fn dispatch(frame: Frame) -> (r: Action)
        requires
            frame.wf(),
        ensures
            match frame@.opcode {
                Opcode::Pong => r is Ignore,
                Opcode::Ping => r matches Action::Reply(f) && f.wf() && f@ == (FrameView {
                    fin: true,
                    opcode: Opcode::Pong,
                    data: frame@.data,
                }),
                Opcode::Close => ({
                    let d = frame@.data;
                    if d.len() == 0 {
                        r matches Action::CloseWithReply(f) && f.wf() && f@ == (FrameView {
                            fin: true,
                            opcode: Opcode::Close,
                            data: d,
                        })
                    } else if d.len() == 1 {
                        r is CloseSilent
                    } else {
                        let code = spec_parse_be16(d[0], d[1]);
                        let reason = d.skip(2);
                        if !spec_code_allowed(code) {
                            r matches Action::CloseWithReply(f) && f.wf() && f@ == (FrameView {
                                fin: true,
                                opcode: Opcode::Close,
                                data: spec_be16(1002) + reason,
                            })
                        } else if reason.len() > 0 && !valid_utf8(reason) {
                            r is CloseSilent
                        } else {
                            r matches Action::CloseWithReply(f) && f.wf() && f@ == (FrameView {
                                fin: true,
                                opcode: Opcode::Close,
                                data: d,
                            })
                        }
                    }
                }),
                _ => r matches Action::Reply(f) && f.wf() && f@ == frame@,
            },
    {
        match frame.opcode {
            Opcode::Close => match Frame::new_close_reply(frame.data) {
                Ok(reply) => Action::CloseWithReply(reply),
                Err(_) => Action::CloseSilent,
            },
            Opcode::Ping => Action::Reply(Frame::new(Opcode::Pong, frame.data)),
            Opcode::Pong => Action::Ignore,
            _ => Action::Reply(frame),
        }
    }
}

} // verus!
