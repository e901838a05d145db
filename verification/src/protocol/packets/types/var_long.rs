//! The `VarLong` of the packet codec.
use super::var_numbers::VarDecodeError;
use crate::groups::{
    bit_len, group_bytes, group_count, lemma_group_bytes_len, lemma_leading_zeros, read_groups,
    read_value, scan_groups, write_groups, GroupEnd, GroupScan,
};
use crate::protocol::errors::{DecodeError, EncodeError};
use crate::codec::{Codec, DecodeError as VarError};
use crate::types::vars::{lemma_decode_encoded, Var, VarInteger};
use vstd::arithmetic::power2::{lemma2_to64, lemma2_to64_rest, lemma_pow2_pos, pow2};
use vstd::prelude::*;

verus! {

/// An `i64` written in 7-bit groups.
#[derive(Debug, Copy, Clone)]
pub struct VarLong(pub i64);

impl VarLong {
    /// The maximum number of bytes a VarLong occupies when read from and written to the
    /// Minecraft protocol.
    pub const MAX_SIZE: usize = 10;

    /// The bits of the value, read as an unsigned number.
    pub open spec fn spec_pattern(self) -> nat {
        (self.0 as u64) as nat
    }

    /// The number of bytes of the value: one for zero, otherwise `ceil(bits / 7)` where
    /// `bits` is the number of significant bits of its pattern (10 for negative values).
    pub open spec fn spec_written_size(self) -> nat {
        group_count(self.spec_pattern())
    }

    /// The bytes `encode` writes: for each 7-bit group of the 64-bit pattern, least
    /// significant first, the low byte of what is left of the pattern at that group
    /// (its high bit is the lowest bit of the next group); a single `0` for zero.
    pub open spec fn spec_encode(self) -> Seq<u8> {
        if self.spec_pattern() == 0 {
            seq![0u8]
        } else {
            group_bytes(self.spec_pattern())
        }
    }

    /// The outcome of `decode` on `s`, and how many bytes it takes from the reader.
    pub open spec fn spec_decode(s: Seq<u8>) -> (Result<i64, DecodeError>, nat) {
        match scan_groups(s, 10) {
            GroupScan::Complete(n) => (Ok(i64::spec_from_pattern(read_value(s, n))), n),
            GroupScan::Incomplete => (Err(DecodeError::Incomplete), s.len()),
            GroupScan::TooLong => (Err(DecodeError::TooLong), 10),
        }
    }

    /// The outcome of `decode_partial` on `s`, and how many bytes it takes from the reader.
    pub open spec fn spec_decode_partial(s: Seq<u8>) -> (Result<i32, VarDecodeError>, nat) {
        match scan_groups(s, 10) {
            GroupScan::Complete(n) => (Ok(i32::spec_from_pattern(read_value(s, n))), n),
            GroupScan::Incomplete => (Err(VarDecodeError::Incomplete), s.len()),
            GroupScan::TooLong => (Err(VarDecodeError::TooLarge), 10),
        }
    }

    /// The inputs on which `decode_partial` shifts a group past the 32 bits of its
    /// result: six bytes or more whose first five all have the continue bit set.
    pub open spec fn spec_partial_overflows(s: Seq<u8>) -> bool {
        s.len() > 5 && scan_groups(s, 5) == GroupScan::TooLong
    }

    /// Returns the exact number of bytes this varlong will write when `encode` is
    /// called: one for zero, `ceil(bits / 7)` otherwise.
    pub fn written_size(&self) -> (r: usize)
        ensures
            r as nat == self.spec_written_size(),
            r as nat == self.spec_encode().len(),
            r <= Self::MAX_SIZE,
    {
        proof {
            lemma2_to64_rest();
            crate::groups::lemma_group_count_small(self.spec_pattern());
            lemma_group_bytes_len(self.spec_pattern());
        }
        match self.0 {
            0 => 1,
            n => {
                let p = n as u64;
                let lz = p.leading_zeros();
                assert(p != 0) by (bit_vector)
                    requires
                        p == n as u64,
                        n != 0,
                ;
                proof {
                    lemma_leading_zeros(p);
                    assert(bit_len(p as nat) == 1 + bit_len(p as nat / 2));
                }
                (63 - lz as usize) / 7 + 1
            },
        }
    }

    /// Reads a varlong from the front of `r` into an `i32`, as far as its groups fit
    /// in 32 bits, and advances `r` past the bytes read.
    pub fn decode_partial(r: &mut &[u8]) -> (res: Result<i32, VarDecodeError>)
        requires
            !Self::spec_partial_overflows(old(r)@),
        ensures
            Self::spec_decode_partial(old(r)@).1 <= old(r)@.len(),
            final(r)@ == old(r)@.skip(Self::spec_decode_partial(old(r)@).1 as int),
            match Self::spec_decode_partial(old(r)@).0 {
                Ok(v) => res matches Ok(x) && x == v,
                Err(VarDecodeError::Incomplete) => res matches Err(VarDecodeError::Incomplete),
                Err(VarDecodeError::TooLarge) => res matches Err(VarDecodeError::TooLarge),
            },
    {
        let (outcome, n) = read_groups(*r, Self::MAX_SIZE);
        let (_, rest) = r.split_at(n);
        *r = rest;
        proof {
            lemma2_to64_rest();
            lemma_pow2_pos(64);
            crate::groups::lemma_scan_shape(old(r)@, 10, 0);
        }
        match outcome {
            Ok(v) => Ok(i32::from_pattern(v)),
            Err(GroupEnd::Incomplete) => Err(VarDecodeError::Incomplete),
            Err(GroupEnd::TooLong) => Err(VarDecodeError::TooLarge),
        }
    }

    /// Writes the value in 7-bit groups, for each the low byte of what is left of the
    /// value: exactly `written_size` bytes.
    pub fn encode(&self, w: &mut Vec<u8>) -> (r: Result<(), EncodeError>)
        ensures
            r is Ok,
            final(w)@ == old(w)@ + self.spec_encode(),
    {
        let p = self.0 as u64;
        if p == 0 {
            w.push(0);
        } else {
            write_groups(p, w);
        }
        Ok(())
    }

    /// Reads a varlong from the front of `r` and advances `r` past the bytes read.
    pub fn decode(r: &mut &[u8]) -> (res: Result<VarLong, DecodeError>)
        ensures
            Self::spec_decode(old(r)@).1 <= old(r)@.len(),
            Self::spec_decode(old(r)@).1 <= Self::MAX_SIZE,
            final(r)@ == old(r)@.skip(Self::spec_decode(old(r)@).1 as int),
            match Self::spec_decode(old(r)@).0 {
                Ok(v) => res matches Ok(x) && x.0 == v,
                Err(DecodeError::Incomplete) => res matches Err(DecodeError::Incomplete),
                Err(DecodeError::TooLong) => res matches Err(DecodeError::TooLong),
                Err(DecodeError::InvalidValue) => res matches Err(DecodeError::InvalidValue),
            },
    {
        let (outcome, n) = read_groups(*r, Self::MAX_SIZE);
        let (_, rest) = r.split_at(n);
        *r = rest;
        proof {
            lemma2_to64_rest();
            lemma_pow2_pos(64);
            crate::groups::lemma_scan_shape(old(r)@, 10, 0);
        }
        match outcome {
            Ok(v) => Ok(VarLong(i64::from_pattern(v))),
            Err(GroupEnd::Incomplete) => Err(DecodeError::Incomplete),
            Err(GroupEnd::TooLong) => Err(DecodeError::TooLong),
        }
    }
}

/// `written_size` is the number of bytes `encode` writes, for every value.
pub proof fn lemma_written_size_is_encoded_len(v: VarLong)
    ensures
        v.spec_encode().len() == v.spec_written_size(),
        1 <= v.spec_written_size() <= VarLong::MAX_SIZE,
{
    lemma2_to64();
    lemma2_to64_rest();
    lemma_group_bytes_len(v.spec_pattern());
    crate::groups::lemma_group_count_small(v.spec_pattern());
    if v.spec_pattern() != 0 {
        crate::groups::lemma_bit_len_lower(v.spec_pattern(), 0);
    }
}

/// Reading back what `encode` wrote for `v`, followed by any bytes, gives `v` and
/// takes exactly the written bytes if and only if the written bytes end the reader's
/// scan at their last byte (always for zero and for values below 128; never where a
/// written byte before the last has its high bit clear, as for 256).
pub proof fn lemma_decode_encoded_long(v: VarLong, rest: Seq<u8>)
    ensures
        VarLong::spec_decode(v.spec_encode() + rest) == (Ok::<i64, DecodeError>(v.0),
        v.spec_encode().len()) <==> scan_groups(v.spec_encode(), 10) == GroupScan::Complete(
            v.spec_encode().len(),
        ),
{
    lemma2_to64();
    lemma2_to64_rest();
    let x = v.0;
    let all = v.spec_encode() + rest;
    let n = v.spec_encode().len();
    if v.spec_pattern() == 0 {
        assert(x == 0) by (bit_vector)
            requires
                (x as u64) == 0,
        ;
        assert(all[0] == 0u8);
        assert(scan_groups(all, 10) == GroupScan::Complete(1));
        assert(scan_groups(v.spec_encode(), 10) == GroupScan::Complete(1));
        assert(all.take(1) =~= seq![0u8]);
        assert(read_value(all, 1) == 0) by {
            let t = all.take(1);
            assert(t.drop_first() =~= Seq::<u8>::empty());
            assert(t[0] == 0u8);
            assert(crate::groups::digits_value(t.drop_first()) == 0);
            assert(crate::groups::digits_value(t) == 0);
            vstd::arithmetic::power2::lemma_pow2_pos(64);
            vstd::arithmetic::div_mod::lemma_small_mod(0, pow2(64));
        }
        assert(i64::spec_from_pattern(0) == 0);
    } else {
        assert(Var::<i64>::spec_encode(x) == v.spec_encode());
        lemma_decode_encoded::<i64>(x, rest);
        assert(Var::<i64>::spec_max_len() == 10);
        match scan_groups(all, 10) {
            GroupScan::Complete(k) => {
                assert(Var::<i64>::spec_decode(all) == (Ok::<i64, VarError>(
                    i64::spec_from_pattern(read_value(all, k)),
                ), k));
            },
            GroupScan::Incomplete => {
                assert(Var::<i64>::spec_decode(all).0 == Err::<i64, VarError>(VarError::Incomplete));
            },
            GroupScan::TooLong => {
                assert(Var::<i64>::spec_decode(all).0 == Err::<i64, VarError>(VarError::TooLong));
            },
        }
    }
}

} // verus!
