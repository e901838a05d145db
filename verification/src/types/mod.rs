//! Values of the protocol: variable-length integers and length-prefixed strings.

pub mod vars;
pub mod wide;

use crate::codec::{Codec, DecodeError, EncodeError, Sizeable};
use crate::groups::{group_bytes, group_count, lemma_group_bytes_len, scan_groups, GroupScan};
use vars::{lemma_decode_encoded, lemma_decode_extend, Var, VarInt, VarInteger};
use vstd::prelude::*;
use vstd::slice::slice_to_vec;
use vstd::utf8::{decode_utf8, encode_utf8, valid_utf8};

verus! {

broadcast use vstd::utf8::encode_utf8_decode_utf8, vstd::utf8::encode_utf8_valid_utf8;

/// `String::from_utf8`: the string the bytes encode, or `None` when they are not UTF-8.
#[verifier::external_body]
fn string_from_utf8(bytes: Vec<u8>) -> (r: Option<String>)
    ensures
        r is Some <==> valid_utf8(bytes@),
        r matches Some(s) ==> s@ == decode_utf8(bytes@),
{
    String::from_utf8(bytes).ok()
}

/// A string as the protocol carries it: its UTF-8 length as a variable-length
/// integer, then its UTF-8 bytes.
#[derive(Debug)]
pub struct McStr(String);

impl View for McStr {
    type V = Seq<char>;

    closed spec fn view(&self) -> Seq<char> {
        self.0@
    }
}

impl McStr {
    /// The UTF-8 bytes of a string.
    pub open spec fn spec_bytes_of(s: Seq<char>) -> Seq<u8> {
        encode_utf8(s)
    }

    /// A string with the characters of `s`.
    pub fn from_str(s: &str) -> (r: McStr)
        ensures
            r@ == s@,
    {
        McStr(s.to_owned())
    }

    /// The string as a `str`.
    pub fn as_str(&self) -> (r: &str)
        ensures
            r@ == self@,
    {
        self.0.as_str()
    }

    /// The number of UTF-8 bytes of the string.
    pub fn len(&self) -> (r: usize)
        ensures
            r as nat == Self::spec_bytes_of(self@).len(),
    {
        self.0.as_str().as_bytes().len()
    }
}

impl McStr {
    /// Appends the encoding of the string to `w`, as `encode_to` does.
    pub fn write_to(&self, w: &mut Vec<u8>)
        ensures
            final(w)@ == old(w)@ + McStr::spec_encode(self@),
    {
        let len = Var(self.len());
        proof {
            vstd::arithmetic::power2::lemma2_to64_rest();
            usize::lemma_repr(len.0);
        }
        let _ = len.encode_to(w);
        w.extend_from_slice(self.0.as_str().as_bytes());
    }
}

impl From<String> for McStr {
    /// The string with the characters of `v`, which it takes over.
    fn from(v: String) -> (r: McStr)
        ensures
            r@ == v@,
    {
        McStr(v)
    }
}

impl vstd::std_specs::convert::FromSpecImpl<String> for McStr {
    open spec fn obeys_from_spec() -> bool {
        true
    }

    closed spec fn from_spec(v: String) -> McStr {
        McStr(v)
    }
}

impl Sizeable for McStr {
    /// The size of the length prefix plus the number of UTF-8 bytes.
    open spec fn spec_size(&self) -> nat {
        let len = Self::spec_bytes_of(self@).len();
        group_count(len) + len
    }

    /// The size of the length as a `Var<usize>`, plus the length.
    fn size(&self) -> (r: usize)
        ensures
            r as nat == Var(Self::spec_bytes_of(self@).len() as usize).spec_size()
                + Self::spec_bytes_of(self@).len(),
    {
        let len = Var(self.len());
        proof {
            usize::lemma_repr(len.0);
        }
        len.size() + len.0
    }
}

impl Codec for McStr {
    /// The length prefix (as a `Var<usize>` writes it), then the UTF-8 bytes.
    open spec fn spec_encode(v: Seq<char>) -> Seq<u8> {
        group_bytes(Self::spec_bytes_of(v).len()) + Self::spec_bytes_of(v)
    }

    /// A `VarInt` length, then up to that many bytes (fewer when the input ends
    /// first), which must be UTF-8.
    open spec fn spec_decode(s: Seq<u8>) -> (Result<Seq<char>, DecodeError>, nat) {
        let (prefix, n) = VarInt::spec_decode(s);
        match prefix {
            Err(e) => (Err(e), n),
            Ok(len) => {
                let rest = s.skip(n as int);
                let k = if (len as int) < rest.len() {
                    len as nat
                } else {
                    rest.len()
                };
                let body = rest.take(k as int);
                if valid_utf8(body) {
                    (Ok(decode_utf8(body)), n + k)
                } else {
                    (Err(DecodeError::Incomplete), n + k)
                }
            },
        }
    }

    /// A negative length prefix: no buffer can be made for it, so such input is not read.
    open spec fn spec_decode_panics(s: Seq<u8>) -> bool {
        VarInt::spec_decode(s).0 matches Ok(len) && len < 0
    }

    fn encode_to(self, w: &mut Vec<u8>) -> (r: Result<(), EncodeError>) {
        self.write_to(w);
        Ok(())
    }

    fn decode_from(r: &mut &[u8]) -> (res: Result<Self, DecodeError>) {
        let len = match VarInt::decode_from(r) {
            Ok(Var(len)) => len,
            Err(e) => return Err(e),
        };
        let avail = r.len();
        let k: usize = if (len as usize) < avail {
            len as usize
        } else {
            avail
        };
        let (body, rest) = r.split_at(k);
        *r = rest;
        match string_from_utf8(slice_to_vec(body)) {
            Some(s) => Ok(McStr(s)),
            None => Err(DecodeError::Incomplete),
        }
    }
}

/// The size a `McStr` reports is the number of bytes `encode_to` writes for it exactly
/// when the string is not empty (the length zero is written as nothing).
pub proof fn lemma_str_size_is_encoded_len(s: McStr)
    ensures
        McStr::spec_encode(s@).len() == s.spec_size() <==> McStr::spec_bytes_of(s@).len() != 0,
{
    lemma_group_bytes_len(McStr::spec_bytes_of(s@).len());
}

/// The size of a string is the size of its length as a `Var<usize>` plus that length,
/// the number of its UTF-8 bytes.
pub proof fn lemma_str_size_parts(s: McStr)
    requires
        McStr::spec_bytes_of(s@).len() <= usize::MAX,
    ensures
        s.spec_size() == Var(McStr::spec_bytes_of(s@).len() as usize).spec_size()
            + McStr::spec_bytes_of(s@).len(),
{
}

/// Reading back what `encode_to` wrote for a string, followed by any bytes, gives the
/// string and takes exactly the written bytes, whenever its length prefix is read back
/// by a `VarInt` reader: the length is below `2^31` and its written groups end the
/// reader's scan at their last byte.
pub proof fn lemma_str_decode_encoded(v: Seq<char>, rest: Seq<u8>)
    requires
        McStr::spec_bytes_of(v).len() < 0x8000_0000,
        scan_groups(
            group_bytes(McStr::spec_bytes_of(v).len()),
            Var::<i32>::spec_max_len(),
        ) == GroupScan::Complete(group_bytes(McStr::spec_bytes_of(v).len()).len()),
    ensures
        McStr::spec_decode(McStr::spec_encode(v) + rest) == (Ok::<Seq<char>, DecodeError>(v),
        McStr::spec_encode(v).len()),
        !McStr::spec_decode_panics(McStr::spec_encode(v) + rest),
{
    let bytes = McStr::spec_bytes_of(v);
    let len = bytes.len();
    let prefix = group_bytes(len);
    let n = len as i32;
    assert(n.spec_wide() as nat == len);
    assert(VarInt::spec_encode(n) == prefix);
    lemma_decode_encoded::<i32>(n, bytes + rest);
    assert(McStr::spec_encode(v) + rest =~= prefix + (bytes + rest));
    assert((prefix + (bytes + rest)).skip(prefix.len() as int) =~= bytes + rest);
    assert((bytes + rest).take(len as int) =~= bytes);
}

/// Whether reading a string from `s` runs past the end of `s`: its length prefix is cut
/// short, or fewer bytes follow it than it announces.
pub open spec fn str_runs_out(s: Seq<u8>) -> bool {
    let (prefix, n) = VarInt::spec_decode(s);
    match prefix {
        Err(_) => scan_groups(s, Var::<i32>::spec_max_len()) == GroupScan::Incomplete,
        Ok(len) => 0 <= len && s.len() - n < len,
    }
}

/// A string read that did not run past the end of its input reads the same on any
/// extension of the input.
pub proof fn lemma_str_decode_extend(s: Seq<u8>, t: Seq<u8>)
    requires
        !str_runs_out(s),
        !McStr::spec_decode_panics(s),
    ensures
        McStr::spec_decode(s + t) == McStr::spec_decode(s),
        !McStr::spec_decode_panics(s + t),
{
    let max = Var::<i32>::spec_max_len();
    crate::groups::lemma_scan_shape(s, max, 0);
    match scan_groups(s, max) {
        GroupScan::Incomplete => {},
        _ => {
            lemma_decode_extend::<i32>(s, t);
            let (prefix, n) = VarInt::spec_decode(s);
            match prefix {
                Ok(len) => {
                    assert((s + t).skip(n as int) =~= s.skip(n as int) + t);
                    assert((s.skip(n as int) + t).take(len as int) =~= s.skip(n as int).take(
                        len as int,
                    ));
                },
                Err(_) => {},
            }
        },
    }
}

} // verus!
