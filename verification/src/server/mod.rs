//! The server side of the tunnel.
pub mod coordinator;
pub mod host;
pub mod pem;
pub mod response;
pub mod serve;
