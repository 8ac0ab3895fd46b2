//! The core of a server-side WebSocket endpoint: the frame model, the
//! wire-frame codec, the message reassembler with streaming UTF-8
//! validation, the HTTP Upgrade handshake, and the echo dispatch policy.
//! Each piece carries a contract against a mathematical model of the
//! protocol, and the protocol laws are proved once over those models.

pub mod frame;
pub mod handler;
pub mod handshake;
pub mod laws;
pub mod reader;
pub mod text;
pub mod writer;
