//! A minimal in-memory key-value service: framed commands over a byte stream,
//! a shared keyspace, one connection handler per peer.
//!
//! The crate verifies the protocol and the state it governs: the frame codec
//! ([`codec`]), the command parser ([`command`]), the shared store ([`store`]),
//! and the per-connection handler state machine ([`conn`]). Transport — binding
//! a socket, accepting peers, moving bytes — stays outside, handing the
//! library plain bytes and taking plain bytes back.

pub mod bytes;
pub mod digits;
pub mod codec;
pub mod command;
pub mod conn;
pub mod frame;
pub mod laws;
pub mod store;
pub mod wire;
