//! The handshake packet a client opens a connection with.
use crate::byte_order::{read_u16_be, write_u16_be};
use crate::codec::{Codec, DecodeError as VarError};
use crate::protocol::errors::{DecodeError, EncodeError};
use crate::groups::{group_bytes, scan_groups, GroupScan};
use crate::types::vars::{lemma_decode_encoded, Var, VarInt, VarInteger};
use crate::types::{lemma_str_decode_encoded, McStr};
use vstd::prelude::*;

verus! {

broadcast use vstd::string::axiom_spec_iter;

/// Whether `s` has more than `max` characters.
fn exceeds_chars(s: &str, max: usize) -> (r: bool)
    ensures
        r == (s@.len() > max),
{
    let mut n: usize = 0;
    for c in it: s.chars()
        invariant
            n == it.index(),
            n <= max,
            it.seq() == s@,
    {
        assert(it.index() < it.seq().len());
        if n == max {
            return true;
        }
        n = n + 1;
    }
    false
}

/// The error of the packet codec for an error of a field reader.
pub open spec fn spec_field_error(e: VarError) -> DecodeError {
    match e {
        VarError::Incomplete => DecodeError::Incomplete,
        VarError::TooLong => DecodeError::TooLong,
    }
}

fn field_error(e: VarError) -> (r: DecodeError)
    ensures
        r == spec_field_error(e),
{
    match e {
        VarError::Incomplete => DecodeError::Incomplete,
        VarError::TooLong => DecodeError::TooLong,
    }
}

/// The state a client asks for after the handshake, written as a `VarInt` tag.
#[derive(Debug)]
pub enum HandshakeNextState {
    /// Tag 1.
    Status,
    /// Tag 2.
    Login,
}

impl HandshakeNextState {
    pub open spec fn spec_tag(&self) -> i32 {
        match self {
            HandshakeNextState::Status => 1,
            HandshakeNextState::Login => 2,
        }
    }

    /// The state of a tag: `Status` for 1, `Login` for 2, `InvalidValue` otherwise.
    pub open spec fn spec_from_tag(tag: i32) -> Result<HandshakeNextState, DecodeError> {
        if tag == 1 {
            Ok(HandshakeNextState::Status)
        } else if tag == 2 {
            Ok(HandshakeNextState::Login)
        } else {
            Err(DecodeError::InvalidValue)
        }
    }

    /// The state read from the front of `s`, and the bytes taken.
    pub open spec fn spec_decode(s: Seq<u8>) -> Result<(HandshakeNextState, nat), DecodeError> {
        let (tag, n) = VarInt::spec_decode(s);
        match tag {
            Err(e) => Err(spec_field_error(e)),
            Ok(tag) => match Self::spec_from_tag(tag) {
                Ok(v) => Ok((v, n)),
                Err(e) => Err(e),
            },
        }
    }

    /// Writes the tag of the state.
    pub fn encode(&self, w: &mut Vec<u8>) -> (r: Result<(), EncodeError>)
        ensures
            r is Ok,
            final(w)@ == old(w)@ + VarInt::spec_encode(self.spec_tag()),
    {
        let tag: i32 = match self {
            HandshakeNextState::Status => 1,
            HandshakeNextState::Login => 2,
        };
        let _ = Var(tag).encode_to(w);
        Ok(())
    }

    /// Reads a state from the front of `r`, advancing `r` past the bytes of its tag
    /// (those the tag reader took, when it fails).
    pub fn decode(r: &mut &[u8]) -> (res: Result<HandshakeNextState, DecodeError>)
        ensures
            VarInt::spec_decode(old(r)@).1 <= old(r)@.len(),
            final(r)@ == old(r)@.skip(VarInt::spec_decode(old(r)@).1 as int),
            match Self::spec_decode(old(r)@) {
                Ok((v, n)) => res matches Ok(x) && x == v && n <= old(r)@.len() && final(r)@
                    == old(r)@.skip(n as int),
                Err(e) => res matches Err(f) && f == e,
            },
    {
        let tag = match VarInt::decode_from(r) {
            Ok(Var(tag)) => tag,
            Err(e) => return Err(field_error(e)),
        };
        if tag == 1 {
            Ok(HandshakeNextState::Status)
        } else if tag == 2 {
            Ok(HandshakeNextState::Login)
        } else {
            Err(DecodeError::InvalidValue)
        }
    }
}

/// The handshake packet (state handshaking): protocol version, server address of at most
/// 255 characters, server port and the next state, in that order.
#[derive(Debug)]
pub struct SlpHandshakeC2S {
    pub protocol_version: VarInt,
    pub server_address: McStr,
    pub server_port: u16,
    pub next_state: HandshakeNextState,
}

/// The most characters the server address may have.
pub const MAX_ADDRESS_LEN: usize = 255;

impl SlpHandshakeC2S {
    /// The bytes written for a handshake: the fields one after the other.
    pub open spec fn spec_encode(&self) -> Seq<u8> {
        VarInt::spec_encode(self.protocol_version.0) + McStr::spec_encode(self.server_address@)
            + seq![(self.server_port / 256) as u8, (self.server_port % 256) as u8]
            + VarInt::spec_encode(self.next_state.spec_tag())
    }

    /// The fields read from the front of `s` (protocol version, address, port, next state)
    /// and the bytes taken. A negative address length is an invalid value.
    pub open spec fn spec_decode(s: Seq<u8>) -> Result<
        (i32, Seq<char>, u16, HandshakeNextState, nat),
        DecodeError,
    > {
        let (pv, n1) = VarInt::spec_decode(s);
        let s1 = s.skip(n1 as int);
        let (addr, n2) = McStr::spec_decode(s1);
        let s2 = s1.skip(n2 as int);
        if pv is Err {
            Err(spec_field_error(pv->Err_0))
        } else if McStr::spec_decode_panics(s1) {
            Err(DecodeError::InvalidValue)
        } else if addr is Err {
            Err(spec_field_error(addr->Err_0))
        } else if addr->Ok_0.len() > MAX_ADDRESS_LEN {
            Err(DecodeError::TooLong)
        } else if s2.len() < 2 {
            Err(DecodeError::Incomplete)
        } else {
            let port = (s2[0] as nat * 256 + s2[1] as nat) as u16;
            match HandshakeNextState::spec_decode(s2.skip(2)) {
                Err(e) => Err(e),
                Ok((next, n3)) => Ok((pv->Ok_0, addr->Ok_0, port, next, n1 + n2 + 2 + n3)),
            }
        }
    }

    /// How many bytes reading a handshake from `s` takes from the reader, whether it
    /// succeeds or not; `None` where the port is cut short.
    pub open spec fn spec_decode_taken(s: Seq<u8>) -> Option<nat> {
        let (pv, n1) = VarInt::spec_decode(s);
        let s1 = s.skip(n1 as int);
        let (addr, n2) = McStr::spec_decode(s1);
        let s2 = s1.skip(n2 as int);
        if pv is Err {
            Some(n1)
        } else if McStr::spec_decode_panics(s1) {
            Some(n1 + VarInt::spec_decode(s1).1)
        } else if addr is Err || addr->Ok_0.len() > MAX_ADDRESS_LEN {
            Some(n1 + n2)
        } else if s2.len() < 2 {
            None
        } else {
            Some(n1 + n2 + 2 + VarInt::spec_decode(s2.skip(2)).1)
        }
    }

    /// Writes the fields one after the other; fails when the address is longer than 255
    /// characters (nothing is written then).
    pub fn encode(&self, w: &mut Vec<u8>) -> (r: Result<(), EncodeError>)
        ensures
            r is Ok <==> self.server_address@.len() <= MAX_ADDRESS_LEN,
            r is Ok ==> final(w)@ == old(w)@ + self.spec_encode(),
            r is Err ==> final(w)@ == old(w)@,
    {
        if exceeds_chars(self.server_address.as_str(), MAX_ADDRESS_LEN) {
            return Err(EncodeError);
        }
        let _ = self.protocol_version.encode_to(w);
        self.server_address.write_to(w);
        write_u16_be(w, self.server_port);
        let _ = self.next_state.encode(w);
        Ok(())
    }

    /// Reads a handshake from the front of `r`, advancing `r` past it when it is read.
    /// A negative address length is refused as an invalid value, after its prefix.
    pub fn decode(r: &mut &[u8]) -> (res: Result<SlpHandshakeC2S, DecodeError>)
        ensures
            match Self::spec_decode(old(r)@) {
                Ok((pv, addr, port, next, n)) => res matches Ok(x) && x.protocol_version.0 == pv
                    && x.server_address@ == addr && x.server_port == port && x.next_state == next
                    && n <= old(r)@.len() && final(r)@ == old(r)@.skip(n as int),
                Err(e) => res matches Err(f) && f == e,
            },
            Self::spec_decode_taken(old(r)@) matches Some(n) ==> n <= old(r)@.len()
                && final(r)@ == old(r)@.skip(n as int),
    {
        let ghost s = r@;
        let protocol_version = match VarInt::decode_from(r) {
            Ok(v) => v,
            Err(e) => return Err(field_error(e)),
        };
        let mut peek: &[u8] = *r;
        if let Ok(Var(len)) = VarInt::decode_from(&mut peek) {
            if len < 0 {
                *r = peek;
                return Err(DecodeError::InvalidValue);
            }
        }
        let server_address = match McStr::decode_from(r) {
            Ok(a) => a,
            Err(e) => return Err(field_error(e)),
        };
        if exceeds_chars(server_address.as_str(), MAX_ADDRESS_LEN) {
            return Err(DecodeError::TooLong);
        }
        let server_port = match read_u16_be(r) {
            Some(p) => p,
            None => return Err(DecodeError::Incomplete),
        };
        let next_state = match HandshakeNextState::decode(r) {
            Ok(n) => n,
            Err(e) => return Err(e),
        };
        assert(s.skip((s.len() - r@.len()) as int) =~= r@);
        Ok(SlpHandshakeC2S { protocol_version, server_address, server_port, next_state })
    }
}

/// Reading back the tag written for a state, followed by any bytes, gives the state and
/// takes the one written byte.
pub proof fn lemma_next_state_decode_encoded(v: HandshakeNextState, rest: Seq<u8>)
    ensures
        VarInt::spec_encode(v.spec_tag()).len() == 1,
        HandshakeNextState::spec_decode(VarInt::spec_encode(v.spec_tag()) + rest) == Ok::<
            (HandshakeNextState, nat),
            DecodeError,
        >((v, 1)),
{
    let t = v.spec_tag();
    let bytes = VarInt::spec_encode(t);
    assert(t.spec_wide() as nat == t as nat);
    assert(bytes =~= seq![t as u8]) by {
        assert(group_bytes((t / 128) as nat) =~= Seq::<u8>::empty());
    }
    assert(scan_groups(bytes, Var::<i32>::spec_max_len()) == GroupScan::Complete(1));
    lemma_decode_encoded::<i32>(t, rest);
}

/// Reading back what `encode` wrote for a handshake, followed by any bytes, gives the
/// handshake and takes exactly the written bytes, whenever its protocol version and its
/// address are read back by their readers (see `lemma_decode_encoded` and
/// `lemma_str_decode_encoded`) and the address has at most 255 characters.
pub proof fn lemma_handshake_decode_encoded(h: SlpHandshakeC2S, rest: Seq<u8>)
    requires
        scan_groups(VarInt::spec_encode(h.protocol_version.0), Var::<i32>::spec_max_len())
            == GroupScan::Complete(VarInt::spec_encode(h.protocol_version.0).len()),
        McStr::spec_bytes_of(h.server_address@).len() < 0x8000_0000,
        scan_groups(
            group_bytes(McStr::spec_bytes_of(h.server_address@).len()),
            Var::<i32>::spec_max_len(),
        ) == GroupScan::Complete(
            group_bytes(McStr::spec_bytes_of(h.server_address@).len()).len(),
        ),
        h.server_address@.len() <= MAX_ADDRESS_LEN,
    ensures
        SlpHandshakeC2S::spec_decode(h.spec_encode() + rest) == Ok::<
            (i32, Seq<char>, u16, HandshakeNextState, nat),
            DecodeError,
        >(
            (
                h.protocol_version.0,
                h.server_address@,
                h.server_port,
                h.next_state,
                h.spec_encode().len(),
            ),
        ),
{
    let pv = VarInt::spec_encode(h.protocol_version.0);
    let addr = McStr::spec_encode(h.server_address@);
    let port = seq![(h.server_port / 256) as u8, (h.server_port % 256) as u8];
    let next = VarInt::spec_encode(h.next_state.spec_tag());
    let all = h.spec_encode() + rest;
    assert(all =~= pv + (addr + (port + (next + rest))));
    lemma_decode_encoded::<i32>(h.protocol_version.0, addr + (port + (next + rest)));
    assert((pv + (addr + (port + (next + rest)))).skip(pv.len() as int) =~= addr + (port + (next
        + rest)));
    lemma_str_decode_encoded(h.server_address@, port + (next + rest));
    assert((addr + (port + (next + rest))).skip(addr.len() as int) =~= port + (next + rest));
    assert((port + (next + rest)).skip(2) =~= next + rest);
    lemma_next_state_decode_encoded(h.next_state, rest);
}

/// A handshake is read only with an address of at most 255 characters; an address
/// field that holds more is refused with `TooLong`.
pub proof fn lemma_handshake_address_bounded(s: Seq<u8>)
    ensures
        SlpHandshakeC2S::spec_decode(s) matches Ok((_, addr, _, _, _)) ==> addr.len()
            <= MAX_ADDRESS_LEN,
        ({
            let (pv, n1) = VarInt::spec_decode(s);
            let s1 = s.skip(n1 as int);
            &&& pv is Ok
            &&& !McStr::spec_decode_panics(s1)
            &&& McStr::spec_decode(s1).0 matches Ok(a) && a.len() > MAX_ADDRESS_LEN
        }) ==> SlpHandshakeC2S::spec_decode(s) == Err::<
            (i32, Seq<char>, u16, HandshakeNextState, nat),
            DecodeError,
        >(DecodeError::TooLong),
{
}

/// A handshake read fails with the kind of error its first unreadable field gives: a
/// `VarInt` field (the protocol version, the address length, the next state) that runs
/// out of input gives `Incomplete`, one with more than five bytes gives `TooLong`.
pub proof fn lemma_handshake_field_errors(s: Seq<u8>)
    ensures
        scan_groups(s, 5) == GroupScan::Incomplete ==> SlpHandshakeC2S::spec_decode(s) == Err::<
            (i32, Seq<char>, u16, HandshakeNextState, nat),
            DecodeError,
        >(DecodeError::Incomplete),
        scan_groups(s, 5) == GroupScan::TooLong ==> SlpHandshakeC2S::spec_decode(s) == Err::<
            (i32, Seq<char>, u16, HandshakeNextState, nat),
            DecodeError,
        >(DecodeError::TooLong),
        ({
            let (pv, n1) = VarInt::spec_decode(s);
            pv is Ok && scan_groups(s.skip(n1 as int), 5) == GroupScan::Incomplete
        }) ==> SlpHandshakeC2S::spec_decode(s) == Err::<
            (i32, Seq<char>, u16, HandshakeNextState, nat),
            DecodeError,
        >(DecodeError::Incomplete),
        ({
            let (pv, n1) = VarInt::spec_decode(s);
            pv is Ok && scan_groups(s.skip(n1 as int), 5) == GroupScan::TooLong
        }) ==> SlpHandshakeC2S::spec_decode(s) == Err::<
            (i32, Seq<char>, u16, HandshakeNextState, nat),
            DecodeError,
        >(DecodeError::TooLong),
        scan_groups(s, 5) == GroupScan::Incomplete ==> HandshakeNextState::spec_decode(s) == Err::<
            (HandshakeNextState, nat),
            DecodeError,
        >(DecodeError::Incomplete),
        scan_groups(s, 5) == GroupScan::TooLong ==> HandshakeNextState::spec_decode(s) == Err::<
            (HandshakeNextState, nat),
            DecodeError,
        >(DecodeError::TooLong),
{
    assert(Var::<i32>::spec_max_len() == 5);
}

} // verus!

