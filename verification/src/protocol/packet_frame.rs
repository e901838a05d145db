//! A packet cut out of a stream.
use bytes::BytesMut;
use vstd::prelude::*;

verus! {

/// The bytes of a packet buffer (`bytes::BytesMut`), carried through unread.
#[verifier::external_type_specification]
#[verifier::external_body]
pub struct ExBytesMut(BytesMut);

/// `BytesMut::clone`: a buffer with the same bytes; nothing of them is modelled here.
pub assume_specification[ <BytesMut as Clone>::clone ](b: &BytesMut) -> BytesMut;

/// A packet whose leading id has been read.
#[derive(Clone, Debug)]
pub struct PacketFrame {
    /// The ID of the decoded packet.
    pub id: i32,
    /// The contents of the packet after the leading VarInt ID.
    pub body: BytesMut,
}

} // verus!
