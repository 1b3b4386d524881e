//! A minimal in-memory key-value server core speaking a length-prefixed,
//! binary-safe wire protocol with a primary/replica role distinction.
//!
//! The crate holds the three verified pieces: the wire codec ([`resp`] and
//! [`parser`]), the command interpreter and store ([`server`]), and the
//! replica handshake state machine (also in [`server`]). Sockets, argument
//! parsing and the per-connection loop live outside the library.

pub mod dec;
pub mod parser;
pub mod resp;
pub mod server;
