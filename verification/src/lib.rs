//! The logic of an HTTP tunnel.
//!
//! A server with a public address takes HTTP connections and hands each of them to the client
//! that registered the host name; the client connects back and the two sides are joined.
//! Everything here works on plain values: bytes that were read, commands that arrived, the
//! outcome of a wait. Sockets, TLS and timers belong to the program around the library.
pub mod client;
pub mod frame;
pub mod protocol;
pub mod server;
pub mod text;
pub mod tunnel;
pub mod util;
