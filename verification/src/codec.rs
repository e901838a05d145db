//! What a value of the protocol can do: tell its encoded size, write itself
//! to a byte buffer and read itself back from a byte reader.
use vstd::prelude::*;

verus! {

/// Writing an encoded value failed.
#[derive(Debug, Copy, Clone)]
pub struct EncodeError;

/// Reading an encoded value failed.
#[derive(Debug, Copy, Clone)]
pub enum DecodeError {
    /// The input ended, or held something that is not the expected value
    /// ("malformed packet").
    Incomplete,
    /// The value needs more bytes than it may take ("item too long").
    TooLong,
}

/// A value that knows how many bytes it occupies.
pub trait Sizeable: Sized {
    /// The number of bytes of the value.
    spec fn spec_size(&self) -> nat;

    fn size(&self) -> (r: usize)
        requires
            self.spec_size() <= usize::MAX,
        ensures
            r as nat == self.spec_size(),
    ;
}

/// A value of the protocol that can be written out and read back.
///
/// `spec_decode` gives, for the bytes a reader holds, the outcome of reading a
/// value and how many bytes the read took from the reader, whether it
/// succeeded or not.
pub trait Codec: Sizeable + View {
    /// The bytes written for a value.
    spec fn spec_encode(v: Self::V) -> Seq<u8>;

    /// The outcome of reading a value from `s`, and the number of bytes taken.
    spec fn spec_decode(s: Seq<u8>) -> (Result<Self::V, DecodeError>, nat);

    /// The inputs on which reading a value cannot complete.
    spec fn spec_decode_panics(s: Seq<u8>) -> bool;

    /// Appends the encoding of the value to `w`.
    fn encode_to(self, w: &mut Vec<u8>) -> (r: Result<(), EncodeError>)
        ensures
            r is Ok,
            final(w)@ == old(w)@ + Self::spec_encode(self@),
    ;

    /// Reads a value from the front of `r` and advances `r` past the bytes read.
    fn decode_from(r: &mut &[u8]) -> (res: Result<Self, DecodeError>)
        requires
            !Self::spec_decode_panics(old(r)@),
        ensures
            Self::spec_decode(old(r)@).1 <= old(r)@.len(),
            final(r)@ == old(r)@.skip(Self::spec_decode(old(r)@).1 as int),
            match Self::spec_decode(old(r)@).0 {
                Ok(v) => res matches Ok(x) && x@ == v,
                Err(e) => res matches Err(f) && f == e,
            },
    ;
}

/// A byte sink that values can be encoded into.
pub trait Encoder: Sized {
    /// Everything written to the sink so far.
    spec fn written(&self) -> Seq<u8>;

    fn encode<T: Codec>(&mut self, data: T) -> (r: Result<(), EncodeError>)
        ensures
            r is Ok,
            final(self).written() == old(self).written() + T::spec_encode(data@),
    ;
}

/// A byte source that values can be decoded from.
pub trait Decoder: Sized {
    /// The bytes not read yet.
    spec fn remaining(&self) -> Seq<u8>;

    /// Reads a value as `T::decode_from` does on a reader holding `remaining()`:
    /// the same outcome, and the same bytes taken.
    fn decode<T: Codec>(&mut self) -> (res: Result<T, DecodeError>)
        requires
            !T::spec_decode_panics(old(self).remaining()),
        ensures
            T::spec_decode(old(self).remaining()).1 <= old(self).remaining().len(),
            final(self).remaining() == old(self).remaining().skip(
                T::spec_decode(old(self).remaining()).1 as int,
            ),
            match T::spec_decode(old(self).remaining()).0 {
                Ok(v) => res matches Ok(x) && x@ == v,
                Err(e) => res matches Err(f) && f == e,
            },
    ;
}

impl Encoder for Vec<u8> {
    open spec fn written(&self) -> Seq<u8> {
        self@
    }

    fn encode<T: Codec>(&mut self, data: T) -> (r: Result<(), EncodeError>) {
        data.encode_to(self)
    }
}

impl<'a> Decoder for &'a [u8] {
    open spec fn remaining(&self) -> Seq<u8> {
        (*self)@
    }

    fn decode<T: Codec>(&mut self) -> (res: Result<T, DecodeError>) {
        T::decode_from(self)
    }
}

/// Decoding through a byte-slice `Decoder` is `Codec::decode_from`: on two readers
/// that hold the same bytes, `decode` and `decode_from` give the same outcome (values
/// with the same view, or the same error) and leave the same bytes unread.
pub proof fn lemma_decoder_forwards<T: Codec>(
    a: &mut &[u8],
    b: &mut &[u8],
    ra: Result<T, DecodeError>,
    rb: Result<T, DecodeError>,
)
    requires
        old(a)@ == old(b)@,
        call_ensures(<&[u8] as Decoder>::decode::<T>, (a,), ra),
        call_ensures(T::decode_from, (b,), rb),
    ensures
        final(a)@ == final(b)@,
        ra is Ok <==> rb is Ok,
        ra matches Ok(x) ==> rb matches Ok(y) && x@ == y@,
        ra matches Err(e) ==> rb matches Err(f) && e == f,
{
}

} // verus!

