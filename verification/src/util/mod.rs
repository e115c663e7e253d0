//! Small pieces that both sides of the tunnel use.
pub mod async_drop;
pub mod error;
pub mod io;
pub mod select;
