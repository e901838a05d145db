//! The packet layer: errors, the `VarLong` of the packet codec, packet
//! metadata and the handshake packet.

pub mod errors;
pub mod packet_frame;
pub mod packets;
