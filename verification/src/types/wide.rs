//! The 128-bit integers: their sizes, and `Var<u128>` / `Var<i128>`.
//!
//! A `Var` of a 128-bit integer writes the groups of the low 64 bits of the value,
//! reports `n * 9 / 64 + 1` bytes for a value of `n` significant bits, and reads up
//! to 19 bytes into 128 bits.
use super::vars::Var;
use crate::codec::{Codec, DecodeError, EncodeError, Sizeable};
use crate::groups::{
    bit_len, group_bytes, group_count, lemma_bit_len_shift, lemma_leading_zeros,
    lemma_pow2_wide, lemma_scan_shape, lemma_size_formula, read_groups_wide, read_value_wide,
    scan_groups, write_groups, GroupEnd, GroupScan,
};
use vstd::arithmetic::power2::{lemma2_to64, lemma2_to64_rest, pow2};
use vstd::prelude::*;

verus! {

/// The number of zero bits above the highest set bit of `x`.
fn leading_zeros_wide(x: u128) -> (r: u32)
    ensures
        bit_len(x as nat) <= 128,
        r as nat == 128 - bit_len(x as nat),
{
    let hi = (x >> 64u32) as u64;
    let lo = x as u64;
    proof {
        lemma2_to64();
        lemma2_to64_rest();
        lemma_pow2_wide();
        assert(hi as nat == x as nat / 0x1_0000_0000_0000_0000) by (bit_vector)
            requires
                hi == (x >> 64u32) as u64,
        ;
        assert(hi == 0 ==> lo as nat == x as nat) by (bit_vector)
            requires
                hi == (x >> 64u32) as u64,
                lo == x as u64,
        ;
        lemma_leading_zeros(hi);
        lemma_leading_zeros(lo);
        if hi != 0 {
            lemma_bit_len_shift(x as nat, 64);
        }
    }
    if hi != 0 {
        hi.leading_zeros()
    } else {
        64 + lo.leading_zeros()
    }
}

/// The size reported for a value of `n` significant bits: `n * 9 / 64 + 1`.
pub open spec fn wide_size(n: nat) -> nat {
    n * 9 / 64 + 1
}

impl Sizeable for u128 {
    /// The number of bytes of the integer type.
    open spec fn spec_size(&self) -> nat {
        vstd::layout::size_of::<u128>()
    }

    fn size(&self) -> (r: usize) {
        core::mem::size_of::<u128>()
    }
}

impl Sizeable for i128 {
    /// The number of bytes of the integer type.
    open spec fn spec_size(&self) -> nat {
        vstd::layout::size_of::<i128>()
    }

    fn size(&self) -> (r: usize) {
        core::mem::size_of::<i128>()
    }
}

impl Sizeable for Var<u128> {
    /// `n * 9 / 64 + 1` for a value of `n` significant bits.
    open spec fn spec_size(&self) -> nat {
        wide_size(bit_len(self.0 as nat))
    }

    fn size(&self) -> (r: usize) {
        let n = 128 - leading_zeros_wide(self.0);
        (n * 9 / 64 + 1) as usize
    }
}

impl Sizeable for Var<i128> {
    /// `n * 9 / 64 + 1` for a value whose bit pattern has `n` significant bits.
    open spec fn spec_size(&self) -> nat {
        wide_size(bit_len((self.0 as u128) as nat))
    }

    fn size(&self) -> (r: usize) {
        let n = 128 - leading_zeros_wide(self.0 as u128);
        (n * 9 / 64 + 1) as usize
    }
}

/// The outcome of a 128-bit reader on `s`, and the bytes it takes.
pub open spec fn decode_wide(s: Seq<u8>) -> (Result<u128, DecodeError>, nat) {
    match scan_groups(s, 19) {
        GroupScan::Complete(n) => (Ok(read_value_wide(s, n) as u128), n),
        GroupScan::Incomplete => (Err(DecodeError::Incomplete), s.len()),
        GroupScan::TooLong => (Err(DecodeError::TooLong), 19),
    }
}

fn read_wide(r: &mut &[u8]) -> (res: Result<u128, DecodeError>)
    ensures
        decode_wide(old(r)@).1 <= old(r)@.len(),
        final(r)@ == old(r)@.skip(decode_wide(old(r)@).1 as int),
        res == decode_wide(old(r)@).0,
{
    let (outcome, n) = read_groups_wide(*r, 19);
    let (_, rest) = r.split_at(n);
    *r = rest;
    proof {
        lemma_scan_shape(old(r)@, 19, 0);
    }
    match outcome {
        Ok(v) => Ok(v),
        Err(GroupEnd::Incomplete) => Err(DecodeError::Incomplete),
        Err(GroupEnd::TooLong) => Err(DecodeError::TooLong),
    }
}

impl Codec for Var<u128> {
    /// The groups of the low 64 bits of the value (nothing when they are zero).
    open spec fn spec_encode(v: u128) -> Seq<u8> {
        group_bytes((v as u64) as nat)
    }

    /// Up to 19 bytes, read into 128 bits.
    open spec fn spec_decode(s: Seq<u8>) -> (Result<u128, DecodeError>, nat) {
        decode_wide(s)
    }

    open spec fn spec_decode_panics(s: Seq<u8>) -> bool {
        false
    }

    fn encode_to(self, w: &mut Vec<u8>) -> (r: Result<(), EncodeError>) {
        write_groups(self.0 as u64, w);
        Ok(())
    }

    fn decode_from(r: &mut &[u8]) -> (res: Result<Self, DecodeError>) {
        match read_wide(r) {
            Ok(v) => Ok(Var(v)),
            Err(e) => Err(e),
        }
    }
}

impl Codec for Var<i128> {
    /// The groups of the low 64 bits of the value (nothing when they are zero).
    open spec fn spec_encode(v: i128) -> Seq<u8> {
        group_bytes((v as u64) as nat)
    }

    /// Up to 19 bytes, read into the 128-bit pattern of the value.
    open spec fn spec_decode(s: Seq<u8>) -> (Result<i128, DecodeError>, nat) {
        let (v, n) = decode_wide(s);
        match v {
            Ok(p) => (Ok(p as i128), n),
            Err(e) => (Err(e), n),
        }
    }

    open spec fn spec_decode_panics(s: Seq<u8>) -> bool {
        false
    }

    fn encode_to(self, w: &mut Vec<u8>) -> (r: Result<(), EncodeError>) {
        write_groups(self.0 as u64, w);
        Ok(())
    }

    fn decode_from(r: &mut &[u8]) -> (res: Result<Self, DecodeError>) {
        match read_wide(r) {
            Ok(v) => Ok(Var(v as i128)),
            Err(e) => Err(e),
        }
    }
}

/// The size reported for a 128-bit value is at most 19, and is its number of 7-bit
/// groups (at least one) as long as it has at most 64 significant bits.
pub proof fn lemma_wide_size(v: Var<u128>)
    ensures
        1 <= v.spec_size() <= 19,
        bit_len(v.0 as nat) <= 64 ==> v.spec_size() == group_count(v.0 as nat),
{
    let x = v.0;
    let n = bit_len(x as nat);
    lemma_pow2_wide();
    crate::groups::lemma_bit_len_bound(x as nat, 128);
    if n <= 64 {
        lemma_size_formula(n as u32);
        if n == 0 {
            assert(x == 0) by {
                if x != 0 {
                    assert(bit_len(x as nat) == 1 + bit_len(x as nat / 2));
                }
            }
        }
    }
}

} // verus!
