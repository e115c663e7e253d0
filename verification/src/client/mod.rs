//! The client side of the tunnel.
pub mod options;
pub mod run;
