//! Big-endian 16-bit fields, read and written with byteorder.
use vstd::prelude::*;

verus! {

/// byteorder's `WriteBytesExt::write_u16::<BigEndian>` on a `Vec<u8>`: appends the two
/// bytes of `n`, high byte first (writing to a `Vec` does not fail).
#[verifier::external_body]
pub(crate) fn write_u16_be(w: &mut Vec<u8>, n: u16)
    ensures
        final(w)@ == old(w)@ + seq![(n / 256) as u8, (n % 256) as u8],
{
    let _ = byteorder::WriteBytesExt::write_u16::<byteorder::BigEndian>(w, n);
}

/// byteorder's `ReadBytesExt::read_u16::<BigEndian>` on a byte slice: the first two bytes
/// as a big-endian number, and the slice advanced past them; `None` when fewer than two
/// bytes remain (what is left of the slice then is not stated).
#[verifier::external_body]
pub(crate) fn read_u16_be(r: &mut &[u8]) -> (res: Option<u16>)
    ensures
        old(r)@.len() >= 2 ==> (res matches Some(v) && v as nat == old(r)@[0] as nat * 256
            + old(r)@[1] as nat && final(r)@ == old(r)@.skip(2)),
        old(r)@.len() < 2 ==> res is None,
{
    byteorder::ReadBytesExt::read_u16::<byteorder::BigEndian>(r).ok()
}

} // verus!
