//! The decisions of a minimal Server List Ping server.
//!
//! A connection starts in state 0 (handshaking). Each packet is a `VarInt`
//! length, then a `VarInt` id read from at most that many bytes. In state 0 a
//! packet with id 0 is a handshake: a `VarInt` protocol version, a string host,
//! a big-endian `u16` port and a `VarInt` next state, which becomes the state.
//! In state 1 a packet with id 0 is a status request, answered with the status
//! string. Any other packet makes the server dump the rest of the stream.
//!
//! The server reads from a blocking stream. Here the bytes that have arrived so
//! far are handed in; when a decision would need bytes beyond them, the answer
//! is to wait for more, and a decision taken on them is the one taken on the
//! whole stream (see `lemma_decision_stable`).
use crate::codec::{Codec, DecodeError, Encoder, Sizeable};
use crate::groups::{group_bytes, lemma_group_bytes_len, scan_groups, GroupScan};
use crate::types::vars::{lemma_decode_extend, lemma_decode_len, Var, VarInt, VarInteger};
use crate::byte_order::read_u16_be;
use crate::protocol::packets::slp_handshake::SlpHandshakeC2S;
use crate::types::{lemma_str_decode_extend, str_runs_out, McStr};
use vstd::prelude::*;

verus! {

/// Why the server gives up on a connection.
#[derive(Debug, Clone, Copy)]
pub enum StepError {
    /// A value could not be read.
    Decode(DecodeError),
    /// The stream ended in the middle of the port of a handshake.
    UnexpectedEof,
}

/// What the server does with the next packet.
#[derive(Debug)]
pub enum Step {
    /// The bytes at hand end before the next decision: read more and ask again.
    NeedMore,
    /// A handshake: the connection moves to `next_state`.
    Handshake {
        len: i32,
        id: i32,
        protocol_version: i32,
        host: McStr,
        port: u16,
        next_state: i32,
    },
    /// A status request: `response` is the packet to send back.
    Status { len: i32, id: i32, response: Vec<u8> },
    /// Any other packet: the rest of the stream is to be dumped.
    Other { len: i32, id: i32 },
}

/// The contents of a [`Step`].
pub enum StepView {
    NeedMore,
    Handshake {
        len: i32,
        id: i32,
        protocol_version: i32,
        host: Seq<char>,
        port: u16,
        next_state: i32,
    },
    Status { len: i32, id: i32, response: Seq<u8> },
    Other { len: i32, id: i32 },
}

impl View for Step {
    type V = StepView;

    open spec fn view(&self) -> StepView {
        match self {
            Step::NeedMore => StepView::NeedMore,
            Step::Handshake { len, id, protocol_version, host, port, next_state } =>
                StepView::Handshake {
                len: *len,
                id: *id,
                protocol_version: *protocol_version,
                host: host@,
                port: *port,
                next_state: *next_state,
            },
            Step::Status { len, id, response } => StepView::Status {
                len: *len,
                id: *id,
                response: response@,
            },
            Step::Other { len, id } => StepView::Other { len: *len, id: *id },
        }
    }
}

/// The bytes the packet id is read from: at most `len` bytes (a negative `len`, read as an
/// unsigned 64-bit limit, puts no limit).
pub open spec fn id_region(s: Seq<u8>, len: i32) -> Seq<u8> {
    if 0 <= len && (len as int) < s.len() {
        s.take(len as int)
    } else {
        s
    }
}

/// The status response packet: its length (the status string's size plus one) as a
/// `Var<usize>`, the packet id 0, then the status string.
pub open spec fn spec_status_response(status: Seq<char>) -> Seq<u8> {
    let size = McStr::spec_bytes_of(status).len();
    group_bytes(crate::groups::group_count(size) + size + 1) + seq![0u8] + McStr::spec_encode(
        status,
    )
}

/// The fields of a handshake read from `s`, and the number of bytes they take.
pub open spec fn handshake_fields(s: Seq<u8>) -> Result<(i32, Seq<char>, u16, i32, nat), StepError> {
    let (pv, n1) = VarInt::spec_decode(s);
    match pv {
        Err(e) => Err(StepError::Decode(e)),
        Ok(pv) => {
            let s1 = s.skip(n1 as int);
            let (host, n2) = McStr::spec_decode(s1);
            match host {
                Err(e) => Err(StepError::Decode(e)),
                Ok(host) => {
                    let s2 = s1.skip(n2 as int);
                    if s2.len() < 2 {
                        Err(StepError::UnexpectedEof)
                    } else {
                        let port = (s2[0] as nat * 256 + s2[1] as nat) as u16;
                        let s3 = s2.skip(2);
                        let (next, n3) = VarInt::spec_decode(s3);
                        match next {
                            Err(e) => Err(StepError::Decode(e)),
                            Ok(next) => Ok((pv, host, port, next, n1 + n2 + 2 + n3)),
                        }
                    }
                },
            }
        },
    }
}

/// Whether reading the handshake fields from `s` runs past the end of `s`.
pub open spec fn handshake_runs_out(s: Seq<u8>) -> bool {
    let (pv, n1) = VarInt::spec_decode(s);
    match pv {
        Err(_) => scan_groups(s, 5) == GroupScan::Incomplete,
        Ok(_) => {
            let s1 = s.skip(n1 as int);
            if str_runs_out(s1) {
                true
            } else {
                match McStr::spec_decode(s1) {
                    (Err(_), _) => false,
                    (Ok(_), n2) => {
                        let s2 = s1.skip(n2 as int);
                        s2.len() < 2 || scan_groups(s2.skip(2), 5) == GroupScan::Incomplete
                    },
                }
            }
        },
    }
}

/// Whether reading the handshake fields from `s` reads a negative string length.
pub open spec fn handshake_panics(s: Seq<u8>) -> bool {
    let (pv, n1) = VarInt::spec_decode(s);
    pv is Ok && McStr::spec_decode_panics(s.skip(n1 as int))
}

/// The packet header read from `s`: the packet length, the id, and the bytes taken.
pub open spec fn header(s: Seq<u8>) -> Result<(i32, i32, nat), DecodeError> {
    let (len, n1) = VarInt::spec_decode(s);
    match len {
        Err(e) => Err(e),
        Ok(len) => {
            let s1 = s.skip(n1 as int);
            let (id, n2) = VarInt::spec_decode(id_region(s1, len));
            match id {
                Err(e) => Err(e),
                Ok(id) => Ok((len, id, n1 + n2)),
            }
        },
    }
}

/// Whether reading the packet header from `s` runs past the end of `s` (the id running
/// into the packet's own length limit does not count).
pub open spec fn header_runs_out(s: Seq<u8>) -> bool {
    let (len, n1) = VarInt::spec_decode(s);
    match len {
        Err(_) => scan_groups(s, 5) == GroupScan::Incomplete,
        Ok(len) => {
            let s1 = s.skip(n1 as int);
            scan_groups(id_region(s1, len), 5) == GroupScan::Incomplete && (len < 0 || s1.len()
                < len)
        },
    }
}

/// What the server decides on a stream that holds exactly `s` and then ends, in state
/// `state`, and how many bytes of `s` the packet takes.
pub open spec fn decide(state: i32, s: Seq<u8>, status: Seq<char>) -> Result<(StepView, nat), StepError> {
    match header(s) {
        Err(e) => Err(StepError::Decode(e)),
        Ok((len, id, n)) => {
            if state == 0 && id == 0 {
                match handshake_fields(s.skip(n as int)) {
                    Err(e) => Err(e),
                    Ok((pv, host, port, next, m)) => Ok(
                        (
                            StepView::Handshake {
                                len,
                                id,
                                protocol_version: pv,
                                host,
                                port,
                                next_state: next,
                            },
                            n + m,
                        ),
                    ),
                }
            } else if state == 1 && id == 0 {
                Ok((StepView::Status { len, id, response: spec_status_response(status) }, n))
            } else {
                Ok((StepView::Other { len, id }, n))
            }
        },
    }
}

/// Whether deciding on `s` in state `state` needs bytes beyond the end of `s`.
pub open spec fn runs_out(state: i32, s: Seq<u8>) -> bool {
    if header_runs_out(s) {
        true
    } else {
        match header(s) {
            Err(_) => false,
            Ok((len, id, n)) => state == 0 && id == 0 && handshake_runs_out(s.skip(n as int)),
        }
    }
}

/// Whether deciding on `s` in state `state` reads a negative string length, for which no
/// buffer can be made.
pub open spec fn decision_panics(state: i32, s: Seq<u8>) -> bool {
    match header(s) {
        Err(_) => false,
        Ok((len, id, n)) => state == 0 && id == 0 && handshake_panics(s.skip(n as int)),
    }
}

/// The state after a decision.
pub open spec fn next_state(state: i32, v: StepView) -> i32 {
    match v {
        StepView::Handshake { next_state, .. } => next_state,
        _ => state,
    }
}

/// The status response packet for the status string `status`.
pub fn status_response(status: &str) -> (r: Vec<u8>)
    requires
        McStr::spec_bytes_of(status@).len() + 12 <= usize::MAX,
    ensures
        r@ == spec_status_response(status@),
{
    let status = McStr::from_str(status);
    let ghost size = McStr::spec_bytes_of(status@).len();
    proof {
        lemma_group_bytes_len(size);
        vstd::arithmetic::power2::lemma2_to64_rest();
        crate::groups::lemma_group_count_small(size);
    }
    let mut out: Vec<u8> = Vec::new();
    let len = Var(status.size() + 1);
    proof {
        usize::lemma_repr(len.0);
    }
    let _ = out.encode(len);
    out.push(0u8);
    let _ = out.encode(status);
    out
}

/// Reads the packet header from the front of `input`; the flag says whether the read
/// ran past the end of `input`.
pub fn read_header(input: &[u8]) -> (r: (Result<(i32, i32, usize), DecodeError>, bool))
    ensures
        r.1 == header_runs_out(input@),
        match header(input@) {
            Ok((len, id, n)) => r.0 matches Ok((l, i, m)) && l == len && i == id && m == n && n
                <= input@.len(),
            Err(e) => r.0 matches Err(f) && f == e,
        },
{
    let mut r = input;
    let len = match VarInt::decode_from(&mut r) {
        Ok(Var(len)) => len,
        Err(e) => {
            let ran_out = match e {
                DecodeError::Incomplete => true,
                _ => false,
            };
            return (Err(e), ran_out);
        },
    };
    let ghost s1 = r@;
    let avail = r.len();
    let region_len: usize = if len >= 0 && (len as usize) < avail {
        len as usize
    } else {
        avail
    };
    let (region_full, _) = r.split_at(region_len);
    assert(region_full@ == id_region(s1, len));
    let mut region = region_full;
    let id = match VarInt::decode_from(&mut region) {
        Ok(Var(id)) => id,
        Err(e) => {
            let ran_out = match e {
                DecodeError::Incomplete => len < 0 || avail < len as usize,
                _ => false,
            };
            return (Err(e), ran_out);
        },
    };
    let n2 = region_len - region.len();
    (Ok((len, id, (input.len() - avail) + n2)), false)
}

/// Reads the fields of a handshake from the front of `s`; the flag says whether the read
/// ran past the end of `s`.
fn read_handshake(s: &[u8]) -> (r: (Result<(i32, McStr, u16, i32, usize), StepError>, bool))
    requires
        !handshake_panics(s@),
    ensures
        r.1 == handshake_runs_out(s@),
        match handshake_fields(s@) {
            Ok((pv, host, port, next, n)) => r.0 matches Ok((a, b, c, d, m)) && a == pv && b@
                == host && c == port && d == next && m == n && n <= s@.len(),
            Err(e) => r.0 matches Err(f) && f == e,
        },
{
    let mut r = s;
    let pv = match VarInt::decode_from(&mut r) {
        Ok(Var(pv)) => pv,
        Err(e) => {
            let ran_out = match e {
                DecodeError::Incomplete => true,
                _ => false,
            };
            return (Err(StepError::Decode(e)), ran_out);
        },
    };
    let ghost s1 = r@;
    let mut ran_out = false;
    let mut peek = r;
    match VarInt::decode_from(&mut peek) {
        Ok(Var(host_len)) => {
            if host_len >= 0 && peek.len() < host_len as usize {
                ran_out = true;
            }
        },
        Err(DecodeError::Incomplete) => {
            ran_out = true;
        },
        Err(_) => {},
    }
    assert(ran_out == str_runs_out(s1));
    let host = match McStr::decode_from(&mut r) {
        Ok(host) => host,
        Err(e) => {
            return (Err(StepError::Decode(e)), ran_out);
        },
    };
    let ghost s2 = r@;
    let port = match read_u16_be(&mut r) {
        Some(port) => port,
        None => {
            return (Err(StepError::UnexpectedEof), true);
        },
    };
    assert(s2.skip(2) == r@);
    let next = match VarInt::decode_from(&mut r) {
        Ok(Var(next)) => next,
        Err(e) => {
            let out = match e {
                DecodeError::Incomplete => true,
                _ => false,
            };
            return (Err(StepError::Decode(e)), ran_out || out);
        },
    };
    (Ok((pv, host, port, next, s.len() - r.len())), ran_out)
}

/// The connection as the server tracks it.
pub struct Session {
    /// 0 while handshaking, then the next state the client asked for (1 is status).
    pub state: i32,
}

impl Session {
    /// A connection that has not shaken hands yet.
    pub fn new() -> (r: Session)
        ensures
            r.state == 0,
    {
        Session { state: 0 }
    }

    /// Whether deciding on `input` would read a negative string length.
    pub fn decision_panics(&self, input: &[u8]) -> (r: bool)
        ensures
            r == decision_panics(self.state, input@),
    {
        let (hdr, _) = read_header(input);
        match hdr {
            Err(_) => false,
            Ok((_, id, n)) => {
                if !(self.state == 0 && id == 0) {
                    return false;
                }
                let (_, s) = input.split_at(n);
                let mut r = s;
                match VarInt::decode_from(&mut r) {
                    Ok(_) => {},
                    Err(_) => return false,
                }
                match VarInt::decode_from(&mut r) {
                    Ok(Var(host_len)) => host_len < 0,
                    Err(_) => false,
                }
            },
        }
    }

    /// Decides what to do with the next packet, given the bytes that have arrived so far
    /// and whether the stream has ended after them.
    pub fn step(&mut self, input: &[u8], at_end: bool, status: &str) -> (r: Result<
        (Step, usize),
        StepError,
    >)
        requires
            !decision_panics(old(self).state, input@),
            McStr::spec_bytes_of(status@).len() + 12 <= usize::MAX,
        ensures
            !at_end && runs_out(old(self).state, input@) ==> (r matches Ok((st, m)) && st is NeedMore
                && m == 0 && final(self).state == old(self).state),
            !(!at_end && runs_out(old(self).state, input@)) ==> match decide(
                old(self).state,
                input@,
                status@,
            ) {
                Ok((v, n)) => r matches Ok((st, m)) && st@ == v && m == n && final(self).state
                    == next_state(old(self).state, v),
                Err(e) => r matches Err(f) && f == e && final(self).state == old(self).state,
            },
    {
        let state = self.state;
        let (hdr, hdr_out) = read_header(input);
        if !at_end && hdr_out {
            return Ok((Step::NeedMore, 0));
        }
        let (len, id, n) = match hdr {
            Ok(h) => h,
            Err(e) => return Err(StepError::Decode(e)),
        };
        assert(header(input@) is Ok);
        assert(n <= input@.len());
        if state == 0 && id == 0 {
            let (_, rest) = input.split_at(n);
            let (fields, out) = read_handshake(rest);
            if !at_end && out {
                return Ok((Step::NeedMore, 0));
            }
            match fields {
                Ok((pv, host, port, next, m)) => {
                    assert(handshake_fields(rest@) is Ok);
                    assert(m <= rest@.len());
                    assert(rest@.len() == input@.len() - n);
                    let consumed = input.len() - (rest.len() - m);
                    self.state = next;
                    Ok(
                        (
                            Step::Handshake {
                                len,
                                id,
                                protocol_version: pv,
                                host,
                                port,
                                next_state: next,
                            },
                            consumed,
                        ),
                    )
                },
                Err(e) => Err(e),
            }
        } else if state == 1 && id == 0 {
            let response = status_response(status);
            Ok((Step::Status { len, id, response }, n))
        } else {
            Ok((Step::Other { len, id }, n))
        }
    }
}

proof fn lemma_scan_stable(s: Seq<u8>, t: Seq<u8>, max: nat)
    requires
        scan_groups(s, max) != GroupScan::Incomplete,
    ensures
        scan_groups(s + t, max) == scan_groups(s, max),
{
    match scan_groups(s, max) {
        GroupScan::Complete(n) => crate::groups::lemma_scan_extend(s, t, max, 0, n),
        _ => crate::groups::lemma_scan_extend_too_long(s, t, max, 0),
    }
}

proof fn lemma_int_stable(s: Seq<u8>, t: Seq<u8>)
    requires
        scan_groups(s, 5) != GroupScan::Incomplete,
    ensures
        VarInt::spec_decode(s + t) == VarInt::spec_decode(s),
        scan_groups(s + t, 5) == scan_groups(s, 5),
{
    assert(Var::<i32>::spec_max_len() == 5);
    lemma_decode_extend::<i32>(s, t);
    lemma_scan_stable(s, t, 5);
}

proof fn lemma_header_len(s: Seq<u8>)
    ensures
        header(s) matches Ok((_, _, n)) ==> n <= s.len(),
{
    lemma_decode_len::<i32>(s);
    let (len, n1) = VarInt::spec_decode(s);
    if let Ok(len) = len {
        lemma_decode_len::<i32>(id_region(s.skip(n1 as int), len));
    }
}

proof fn lemma_header_stable(s: Seq<u8>, t: Seq<u8>)
    requires
        !header_runs_out(s),
    ensures
        header(s + t) == header(s),
        !header_runs_out(s + t),
{
    assert(Var::<i32>::spec_max_len() == 5);
    lemma_int_stable(s, t);
    let (len, n1) = VarInt::spec_decode(s);
    match len {
        Err(_) => {},
        Ok(len) => {
            let s1 = s.skip(n1 as int);
            lemma_decode_len::<i32>(s);
            assert((s + t).skip(n1 as int) =~= s1 + t);
            let region = id_region(s1, len);
            let region2 = id_region(s1 + t, len);
            if 0 <= len && (len as int) <= s1.len() {
                assert(region2 =~= region);
            } else {
                lemma_int_stable(region, t);
                if 0 <= len && (len as int) < (s1 + t).len() {
                    let u = t.take(len - s1.len());
                    assert(region2 =~= region + u);
                    lemma_int_stable(region, u);
                } else {
                    assert(region2 =~= region + t);
                }
            }
        },
    }
}

proof fn lemma_handshake_stable(h: Seq<u8>, t: Seq<u8>)
    requires
        !handshake_runs_out(h),
        !handshake_panics(h),
    ensures
        handshake_fields(h + t) == handshake_fields(h),
        !handshake_runs_out(h + t),
        !handshake_panics(h + t),
{
    lemma_int_stable(h, t);
    let (pv, n1) = VarInt::spec_decode(h);
    match pv {
        Err(_) => {},
        Ok(_) => {
            let h1 = h.skip(n1 as int);
            lemma_decode_len::<i32>(h);
            assert((h + t).skip(n1 as int) =~= h1 + t);
            lemma_str_decode_extend(h1, t);
            let max = Var::<i32>::spec_max_len();
            crate::groups::lemma_scan_shape(h1, max, 0);
            if scan_groups(h1, max) != GroupScan::Incomplete {
                lemma_int_stable(h1, t);
            }
            match McStr::spec_decode(h1) {
                (Err(_), _) => {},
                (Ok(_), n2) => {
                    let h2 = h1.skip(n2 as int);
                    assert((h1 + t).skip(n2 as int) =~= h2 + t);
                    assert((h2 + t).skip(2) =~= h2.skip(2) + t);
                    lemma_int_stable(h2.skip(2), t);
                },
            }
        },
    }
}

/// A decision taken on the bytes that have arrived, when it does not need bytes beyond
/// them, is the decision taken on the whole stream, whatever bytes follow; and it still
/// needs no more bytes once more have arrived.
pub proof fn lemma_decision_stable(state: i32, s: Seq<u8>, t: Seq<u8>, status: Seq<char>)
    requires
        !runs_out(state, s),
        !decision_panics(state, s),
    ensures
        decide(state, s + t, status) == decide(state, s, status),
        !runs_out(state, s + t),
        !decision_panics(state, s + t),
{
    lemma_header_stable(s, t);
    match header(s) {
        Err(_) => {},
        Ok((len, id, n)) => {
            if state == 0 && id == 0 {
                lemma_header_len(s);
                assert((s + t).skip(n as int) =~= s.skip(n as int) + t);
                lemma_handshake_stable(s.skip(n as int), t);
            }
        },
    }
}

/// Only the handshaking state (0) and the status state (1) act on a packet: in any
/// other state every packet whose header reads is dumped, and the state stays.
pub proof fn lemma_other_states_dump(state: i32, s: Seq<u8>, status: Seq<char>)
    requires
        state != 0,
        state != 1,
        header(s) is Ok,
    ensures
        decide(state, s, status) == Ok::<(StepView, nat), StepError>(
            (
                StepView::Other { len: header(s)->Ok_0.0, id: header(s)->Ok_0.1 },
                header(s)->Ok_0.2,
            ),
        ),
        next_state(state, decide(state, s, status)->Ok_0.0) == state,
{
}

/// A status response is sent only for a packet with id 0 in the status state (1); in
/// that state every packet with another id is dumped, with the state unchanged.
pub proof fn lemma_status_only_for_request(state: i32, s: Seq<u8>, status: Seq<char>)
    ensures
        decide(state, s, status) matches Ok((StepView::Status { len, id, .. }, _)) ==> (id == 0
            && state == 1 && header(s) is Ok && header(s)->Ok_0.0 == len && header(s)->Ok_0.1
            == 0),
        (state == 1 && header(s) is Ok && header(s)->Ok_0.1 != 0) ==> decide(state, s, status)
            == Ok::<(StepView, nat), StepError>(
            (
                StepView::Other { len: header(s)->Ok_0.0, id: header(s)->Ok_0.1 },
                header(s)->Ok_0.2,
            ),
        ),
        (state == 1 && header(s) is Ok && header(s)->Ok_0.1 == 0) ==> (decide(state, s, status)
            matches Ok((StepView::Status { len: l, id: i, .. }, m)) && l == header(s)->Ok_0.0
            && i == 0 && m == header(s)->Ok_0.2),
        state == 1 && decide(state, s, status) is Ok ==> next_state(
            state,
            decide(state, s, status)->Ok_0.0,
        ) == 1,
{
}

/// The status response is a well-framed packet: a length `k` in 7-bit groups, then
/// exactly `k` bytes, the packet id 0 and the encoded status string (for a status
/// string that is not empty; the empty string's length prefix is written as nothing).
pub proof fn lemma_status_response_framed(status: Seq<char>)
    requires
        McStr::spec_bytes_of(status).len() != 0,
    ensures
        spec_status_response(status) == group_bytes(1 + McStr::spec_encode(status).len()) + (
        seq![0u8] + McStr::spec_encode(status)),
        spec_status_response(status).len() == group_bytes(
            1 + McStr::spec_encode(status).len(),
        ).len() + 1 + McStr::spec_encode(status).len(),
        (seq![0u8] + McStr::spec_encode(status)).len() == 1 + McStr::spec_encode(status).len(),
{
    let size = McStr::spec_bytes_of(status).len();
    lemma_group_bytes_len(size);
    let k = 1 + McStr::spec_encode(status).len();
    assert(k == crate::groups::group_count(size) + size + 1);
    assert(spec_status_response(status) =~= group_bytes(k) + (seq![0u8] + McStr::spec_encode(
        status,
    )));
}

/// In the handshaking state (0), a packet with id 0 is a handshake whose next state
/// becomes the state, and the decision takes the header and the handshake's fields;
/// a packet with another id is dumped and the state stays 0.
pub proof fn lemma_handshake_moves_state(s: Seq<u8>, status: Seq<char>)
    ensures
        (header(s) is Ok && header(s)->Ok_0.1 != 0) ==> decide(0, s, status) == Ok::<
            (StepView, nat),
            StepError,
        >(
            (
                StepView::Other { len: header(s)->Ok_0.0, id: header(s)->Ok_0.1 },
                header(s)->Ok_0.2,
            ),
        ),
        ({
            &&& header(s) is Ok
            &&& header(s)->Ok_0.1 == 0
            &&& handshake_fields(s.skip(header(s)->Ok_0.2 as int)) is Ok
        }) ==> ({
            let f = handshake_fields(s.skip(header(s)->Ok_0.2 as int))->Ok_0;
            &&& decide(0, s, status) is Ok
            &&& decide(0, s, status)->Ok_0.0 is Handshake
            &&& next_state(0, decide(0, s, status)->Ok_0.0) == f.3
            &&& decide(0, s, status)->Ok_0.1 == header(s)->Ok_0.2 + f.4
        }),
{
}

/// The server's handshake fields agree with the handshake packet's reader: where the
/// packet reads, the fields read the same protocol version, address, port and bytes,
/// and the next state is the packet's tag.
pub proof fn lemma_handshake_fields_agree(s: Seq<u8>)
    ensures
        SlpHandshakeC2S::spec_decode(s) matches Ok((pv, addr, port, next, n)) ==> handshake_fields(s)
            == Ok::<(i32, Seq<char>, u16, i32, nat), StepError>(
            (pv, addr, port, next.spec_tag(), n),
        ),
{
}

} // verus!

