//! Packets and the types their fields are made of.

pub mod slp_handshake;
pub mod types;
