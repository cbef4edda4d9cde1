//! Language server support: capabilities, and conversion between byte
//! offsets and line/character positions.

pub mod capabilities;
pub mod position;

pub use capabilities::ServerCapabilities;
