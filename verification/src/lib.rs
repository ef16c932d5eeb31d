//! A minimal line-delimited JSON-RPC endpoint library.
//!
//! The library holds everything about the endpoint that can be stated
//! and proved without I/O: the wire codec (one JSON object per
//! newline-terminated frame), the method registry with its handlers,
//! and the per-connection session step that turns one received line
//! into at most one response frame. A thin caller owns the socket: it
//! reads lines, hands each to `session::handle_line`, and writes back
//! whatever frame comes out.

pub mod json;
pub mod parse;
pub mod protocol;
pub mod dispatch;
pub mod session;
pub mod laws;
