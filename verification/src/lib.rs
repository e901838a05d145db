//! Server List Ping building blocks for the Minecraft protocol: variable-length
//! integers, length-prefixed strings, the handshake packet, and the decisions of
//! a minimal status server and of the TCP servers around it.

mod byte_order;
pub mod codec;
pub mod groups;
pub mod protocol;
pub mod server;
pub mod session;
pub mod types;

pub use codec::{Codec, DecodeError, Decoder, EncodeError, Encoder, Sizeable};
