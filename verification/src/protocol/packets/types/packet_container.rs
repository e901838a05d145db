//! A framed packet: its length, its id and its data.
use crate::types::vars::VarInt;
use bytes::BytesMut;
use vstd::prelude::*;

verus! {

/// A framed packet.
pub struct PacketContainer {
    length: VarInt,
    id: VarInt,
    data: BytesMut,
}

} // verus!
