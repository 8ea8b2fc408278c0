//! Verified core of a line-oriented multi-client chat relay.
//!
//! Clients connect over a byte-stream transport, register a unique nickname,
//! and then exchange newline-terminated text messages that are broadcast to
//! every other registered client.  This crate holds everything about that
//! protocol which can be stated and proved: the registry of connected
//! clients and its uniqueness invariant, the registration handshake, the
//! broadcast fan-out plan, and the exact text of every server message.
//!
//! The crate performs no I/O itself.  A caller owns the sockets, hands each
//! received line to the functions in [`protocol`], and performs the sends
//! that the returned plans describe.

pub mod errors;
pub mod messages;
pub mod protocol;
pub mod registry;
pub mod text;
