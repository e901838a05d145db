//! Variable-length integers (`VarInt`, `VarLong`).
use crate::codec::{Codec, DecodeError, EncodeError, Sizeable};
use crate::groups::{
    bit_len, group_bytes, group_count, lemma_bit_len_lower, lemma_digits_of_group_bytes,
    lemma_group_bytes_last, lemma_group_bytes_len, lemma_leading_zeros, lemma_scan_complete_positive,
    lemma_scan_extend, lemma_scan_extend_too_long, lemma_scan_shape, lemma_size_formula,
    read_groups, read_value, scan_groups, write_groups, GroupEnd, GroupScan,
};
use vstd::arithmetic::div_mod::lemma_small_mod;
use vstd::arithmetic::power2::{lemma2_to64, lemma2_to64_rest, lemma_pow2_pos, pow2};
use vstd::prelude::*;

verus! {

/// The integer types a [`Var`] can carry.
///
/// Every value has a bit pattern of the type's width (`spec_pattern`), and a
/// 64-bit widening (`spec_wide`, what `as u64` gives: sign-extended for signed
/// types).
pub trait VarInteger: Copy + Sized {
    /// Width of the type in bits.
    spec fn spec_bits() -> nat;

    /// The value widened to 64 bits, as `as u64` does.
    spec fn spec_wide(self) -> u64;

    /// The bits of the value read as an unsigned number.
    spec fn spec_pattern(self) -> nat;

    /// The value whose bit pattern is the low `spec_bits()` bits of `p`.
    spec fn spec_from_pattern(p: nat) -> Self;

    fn bits() -> (r: u32)
        ensures
            r as nat == Self::spec_bits(),
    ;

    /// The value widened to 64 bits (`as u64`).
    fn wide(self) -> (r: u64)
        ensures
            r == self.spec_wide(),
    ;

    /// The number of zero bits above the highest set bit of the value's pattern.
    fn leading_zeros(self) -> (r: u32)
        ensures
            r as nat == Self::spec_bits() - bit_len(self.spec_pattern()),
    ;

    /// The value whose bit pattern is the low bits of `p`.
    fn from_pattern(p: u64) -> (r: Self)
        ensures
            r == Self::spec_from_pattern(p as nat),
    ;

    proof fn lemma_repr(x: Self)
        ensures
            Self::spec_bits() == 8 || Self::spec_bits() == 16 || Self::spec_bits() == 32
                || Self::spec_bits() == 64,
            x.spec_pattern() < pow2(Self::spec_bits()),
            bit_len(x.spec_pattern()) <= Self::spec_bits(),
            Self::spec_from_pattern(x.spec_wide() as nat) == x,
            Self::spec_from_pattern(x.spec_pattern()) == x,
            x.spec_wide() == x.spec_pattern() || x.spec_wide() >= pow2(63),
            Self::spec_bits() == 64 ==> x.spec_wide() == x.spec_pattern(),
    ;
}

impl VarInteger for i32 {
    open spec fn spec_bits() -> nat {
        32
    }

    open spec fn spec_wide(self) -> u64 {
        self as u64
    }

    open spec fn spec_pattern(self) -> nat {
        (self as u32) as nat
    }

    open spec fn spec_from_pattern(p: nat) -> Self {
        ((p % 0x1_0000_0000) as u32) as i32
    }

    fn bits() -> (r: u32) {
        32
    }

    fn wide(self) -> (r: u64) {
        self as u64
    }

    fn leading_zeros(self) -> (r: u32) {
        let p = (self as u32) as u64;
        proof {
            lemma_leading_zeros(p);
            lemma2_to64();
            crate::groups::lemma_bit_len_bound(p as nat, 32);
        }
        p.leading_zeros() - 32
    }

    fn from_pattern(p: u64) -> (r: Self) {
        assert((p as u32) == (p % 0x1_0000_0000) as u32) by (bit_vector);
        (p as u32) as i32
    }

    proof fn lemma_repr(x: Self) {
        lemma2_to64();
        lemma2_to64_rest();
        let w = x as u64;
        assert(((w % 0x1_0000_0000) as u32) as i32 == x) by (bit_vector)
            requires
                w == x as u64,
        ;
        let p = x as u32;
        assert(((p as u64 % 0x1_0000_0000) as u32) as i32 == x) by (bit_vector)
            requires
                p == x as u32,
        ;
        assert(w == p as u64 || w >= 0x8000_0000_0000_0000u64) by (bit_vector)
            requires
                w == x as u64,
                p == x as u32,
        ;
        crate::groups::lemma_bit_len_bound(p as nat, 32);
    }
}

impl VarInteger for i64 {
    open spec fn spec_bits() -> nat {
        64
    }

    open spec fn spec_wide(self) -> u64 {
        self as u64
    }

    open spec fn spec_pattern(self) -> nat {
        (self as u64) as nat
    }

    open spec fn spec_from_pattern(p: nat) -> Self {
        ((p % 0x1_0000_0000_0000_0000) as u64) as i64
    }

    fn bits() -> (r: u32) {
        64
    }

    fn wide(self) -> (r: u64) {
        self as u64
    }

    fn leading_zeros(self) -> (r: u32) {
        let p = self as u64;
        proof {
            lemma_leading_zeros(p);
        }
        p.leading_zeros()
    }

    fn from_pattern(p: u64) -> (r: Self) {
        assert(p == (p as nat % 0x1_0000_0000_0000_0000) as u64);
        p as i64
    }

    proof fn lemma_repr(x: Self) {
        lemma2_to64();
        lemma2_to64_rest();
        let w = x as u64;
        assert((w as i64) == x) by (bit_vector)
            requires
                w == x as u64,
        ;
        lemma_leading_zeros(w);
    }
}

impl VarInteger for u64 {
    open spec fn spec_bits() -> nat {
        64
    }

    open spec fn spec_wide(self) -> u64 {
        self
    }

    open spec fn spec_pattern(self) -> nat {
        self as nat
    }

    open spec fn spec_from_pattern(p: nat) -> Self {
        (p % 0x1_0000_0000_0000_0000) as u64
    }

    fn bits() -> (r: u32) {
        64
    }

    fn wide(self) -> (r: u64) {
        self
    }

    fn leading_zeros(self) -> (r: u32) {
        proof {
            lemma_leading_zeros(self);
        }
        self.leading_zeros()
    }

    fn from_pattern(p: u64) -> (r: Self) {
        p
    }

    proof fn lemma_repr(x: Self) {
        lemma2_to64();
        lemma2_to64_rest();
        lemma_leading_zeros(x);
    }
}

impl VarInteger for u8 {
    open spec fn spec_bits() -> nat {
        8
    }

    open spec fn spec_wide(self) -> u64 {
        self as u64
    }

    open spec fn spec_pattern(self) -> nat {
        self as nat
    }

    open spec fn spec_from_pattern(p: nat) -> Self {
        (p % 0x100) as u8
    }

    fn bits() -> (r: u32) {
        8
    }

    fn wide(self) -> (r: u64) {
        self as u64
    }

    fn leading_zeros(self) -> (r: u32) {
        let p = self as u64;
        proof {
            lemma_leading_zeros(p);
            lemma2_to64();
            crate::groups::lemma_bit_len_bound(p as nat, 8);
        }
        p.leading_zeros() - 56
    }

    fn from_pattern(p: u64) -> (r: Self) {
        assert((p as u8) == (p % 0x100) as u8) by (bit_vector);
        p as u8
    }

    proof fn lemma_repr(x: Self) {
        lemma2_to64();
        lemma2_to64_rest();
        crate::groups::lemma_bit_len_bound(x as nat, 8);
    }
}

impl VarInteger for u16 {
    open spec fn spec_bits() -> nat {
        16
    }

    open spec fn spec_wide(self) -> u64 {
        self as u64
    }

    open spec fn spec_pattern(self) -> nat {
        self as nat
    }

    open spec fn spec_from_pattern(p: nat) -> Self {
        (p % 0x1_0000) as u16
    }

    fn bits() -> (r: u32) {
        16
    }

    fn wide(self) -> (r: u64) {
        self as u64
    }

    fn leading_zeros(self) -> (r: u32) {
        let p = self as u64;
        proof {
            lemma_leading_zeros(p);
            lemma2_to64();
            crate::groups::lemma_bit_len_bound(p as nat, 16);
        }
        p.leading_zeros() - 48
    }

    fn from_pattern(p: u64) -> (r: Self) {
        assert((p as u16) == (p % 0x1_0000) as u16) by (bit_vector);
        p as u16
    }

    proof fn lemma_repr(x: Self) {
        lemma2_to64();
        lemma2_to64_rest();
        crate::groups::lemma_bit_len_bound(x as nat, 16);
    }
}

impl VarInteger for u32 {
    open spec fn spec_bits() -> nat {
        32
    }

    open spec fn spec_wide(self) -> u64 {
        self as u64
    }

    open spec fn spec_pattern(self) -> nat {
        self as nat
    }

    open spec fn spec_from_pattern(p: nat) -> Self {
        (p % 0x1_0000_0000) as u32
    }

    fn bits() -> (r: u32) {
        32
    }

    fn wide(self) -> (r: u64) {
        self as u64
    }

    fn leading_zeros(self) -> (r: u32) {
        let p = self as u64;
        proof {
            lemma_leading_zeros(p);
            lemma2_to64();
            crate::groups::lemma_bit_len_bound(p as nat, 32);
        }
        p.leading_zeros() - 32
    }

    fn from_pattern(p: u64) -> (r: Self) {
        assert((p as u32) == (p % 0x1_0000_0000) as u32) by (bit_vector);
        p as u32
    }

    proof fn lemma_repr(x: Self) {
        lemma2_to64();
        lemma2_to64_rest();
        crate::groups::lemma_bit_len_bound(x as nat, 32);
    }
}

impl VarInteger for i8 {
    open spec fn spec_bits() -> nat {
        8
    }

    open spec fn spec_wide(self) -> u64 {
        self as u64
    }

    open spec fn spec_pattern(self) -> nat {
        (self as u8) as nat
    }

    open spec fn spec_from_pattern(p: nat) -> Self {
        ((p % 0x100) as u8) as i8
    }

    fn bits() -> (r: u32) {
        8
    }

    fn wide(self) -> (r: u64) {
        self as u64
    }

    fn leading_zeros(self) -> (r: u32) {
        let p = (self as u8) as u64;
        proof {
            lemma_leading_zeros(p);
            lemma2_to64();
            crate::groups::lemma_bit_len_bound(p as nat, 8);
        }
        p.leading_zeros() - 56
    }

    fn from_pattern(p: u64) -> (r: Self) {
        assert((p as u8) == (p % 0x100) as u8) by (bit_vector);
        (p as u8) as i8
    }

    proof fn lemma_repr(x: Self) {
        lemma2_to64();
        lemma2_to64_rest();
        let w = x as u64;
        assert(((w % 0x100) as u8) as i8 == x) by (bit_vector)
            requires
                w == x as u64,
        ;
        let p = x as u8;
        assert(((p as u64 % 0x100) as u8) as i8 == x) by (bit_vector)
            requires
                p == x as u8,
        ;
        assert(w == p as u64 || w >= 0x8000_0000_0000_0000u64) by (bit_vector)
            requires
                w == x as u64,
                p == x as u8,
        ;
        crate::groups::lemma_bit_len_bound(p as nat, 8);
    }
}

impl VarInteger for i16 {
    open spec fn spec_bits() -> nat {
        16
    }

    open spec fn spec_wide(self) -> u64 {
        self as u64
    }

    open spec fn spec_pattern(self) -> nat {
        (self as u16) as nat
    }

    open spec fn spec_from_pattern(p: nat) -> Self {
        ((p % 0x1_0000) as u16) as i16
    }

    fn bits() -> (r: u32) {
        16
    }

    fn wide(self) -> (r: u64) {
        self as u64
    }

    fn leading_zeros(self) -> (r: u32) {
        let p = (self as u16) as u64;
        proof {
            lemma_leading_zeros(p);
            lemma2_to64();
            crate::groups::lemma_bit_len_bound(p as nat, 16);
        }
        p.leading_zeros() - 48
    }

    fn from_pattern(p: u64) -> (r: Self) {
        assert((p as u16) == (p % 0x1_0000) as u16) by (bit_vector);
        (p as u16) as i16
    }

    proof fn lemma_repr(x: Self) {
        lemma2_to64();
        lemma2_to64_rest();
        let w = x as u64;
        assert(((w % 0x1_0000) as u16) as i16 == x) by (bit_vector)
            requires
                w == x as u64,
        ;
        let p = x as u16;
        assert(((p as u64 % 0x1_0000) as u16) as i16 == x) by (bit_vector)
            requires
                p == x as u16,
        ;
        assert(w == p as u64 || w >= 0x8000_0000_0000_0000u64) by (bit_vector)
            requires
                w == x as u64,
                p == x as u16,
        ;
        crate::groups::lemma_bit_len_bound(p as nat, 16);
    }
}

impl VarInteger for usize {
    open spec fn spec_bits() -> nat {
        usize::BITS as nat
    }

    open spec fn spec_wide(self) -> u64 {
        self as u64
    }

    open spec fn spec_pattern(self) -> nat {
        self as nat
    }

    open spec fn spec_from_pattern(p: nat) -> Self {
        if usize::BITS == 32 {
            (p % 0x1_0000_0000) as usize
        } else {
            (p % 0x1_0000_0000_0000_0000) as usize
        }
    }

    fn bits() -> (r: u32) {
        usize::BITS
    }

    fn wide(self) -> (r: u64) {
        self as u64
    }

    fn leading_zeros(self) -> (r: u32) {
        let p = self as u64;
        proof {
            lemma_leading_zeros(p);
            lemma2_to64();
            lemma2_to64_rest();
            crate::groups::lemma_bit_len_bound(p as nat, usize::BITS as nat);
        }
        p.leading_zeros() - (64 - usize::BITS)
    }

    fn from_pattern(p: u64) -> (r: Self) {
        if usize::BITS == 32 {
            assert((p as usize) == (p % 0x1_0000_0000) as usize) by (bit_vector)
                requires
                    usize::BITS == 32,
            ;
        } else {
            assert((p as usize) == (p as nat % 0x1_0000_0000_0000_0000) as usize) by (bit_vector)
                requires
                    usize::BITS == 64,
            ;
        }
        p as usize
    }

    proof fn lemma_repr(x: Self) {
        lemma2_to64();
        lemma2_to64_rest();
        assert(usize::BITS == 32 || usize::BITS == 64);
        if usize::BITS == 32 {
            assert(x < 0x1_0000_0000) by (bit_vector)
                requires
                    usize::BITS == 32,
            ;
            assert(x as nat % 0x1_0000_0000 == x as nat);
            assert((x as u64) as nat == x as nat);
            assert(Self::spec_from_pattern(x as nat) == x);
        } else {
            assert(x as nat <= 0xffff_ffff_ffff_ffff);
            assert(x as nat % 0x1_0000_0000_0000_0000 == x as nat);
            assert((x as u64) as nat == x as nat);
            assert(Self::spec_from_pattern(x as nat) == x);
        }
        assert(x.spec_pattern() < pow2(Self::spec_bits()));
        assert(x.spec_wide() as nat == x as nat);
        assert(x.spec_wide() == x.spec_pattern());
        assert(Self::spec_from_pattern(x.spec_wide() as nat) == x);
        crate::groups::lemma_bit_len_bound(x as nat, usize::BITS as nat);
    }
}

impl VarInteger for isize {
    open spec fn spec_bits() -> nat {
        usize::BITS as nat
    }

    open spec fn spec_wide(self) -> u64 {
        self as u64
    }

    open spec fn spec_pattern(self) -> nat {
        (self as usize) as nat
    }

    open spec fn spec_from_pattern(p: nat) -> Self {
        if usize::BITS == 32 {
            ((p % 0x1_0000_0000) as usize) as isize
        } else {
            ((p % 0x1_0000_0000_0000_0000) as usize) as isize
        }
    }

    fn bits() -> (r: u32) {
        usize::BITS
    }

    fn wide(self) -> (r: u64) {
        self as u64
    }

    fn leading_zeros(self) -> (r: u32) {
        let p = (self as usize) as u64;
        proof {
            lemma_leading_zeros(p);
            lemma2_to64();
            lemma2_to64_rest();
            assert(usize::BITS == 32 || usize::BITS == 64);
            if usize::BITS == 32 {
                assert(p < 0x1_0000_0000) by (bit_vector)
                    requires
                        usize::BITS == 32,
                        p == (self as usize) as u64,
                ;
            }
            crate::groups::lemma_bit_len_bound(p as nat, usize::BITS as nat);
        }
        p.leading_zeros() - (64 - usize::BITS)
    }

    fn from_pattern(p: u64) -> (r: Self) {
        if usize::BITS == 32 {
            assert((p as usize) as isize == ((p % 0x1_0000_0000) as usize) as isize)
                by (bit_vector)
                requires
                    usize::BITS == 32,
            ;
        } else {
            assert((p as usize) as isize == ((p as nat % 0x1_0000_0000_0000_0000) as usize)
                as isize) by (bit_vector)
                requires
                    usize::BITS == 64,
            ;
        }
        (p as usize) as isize
    }

    proof fn lemma_repr(x: Self) {
        lemma2_to64();
        lemma2_to64_rest();
        assert(usize::BITS == 32 || usize::BITS == 64);
        let w = x as u64;
        let p = x as usize;
        if usize::BITS == 32 {
            assert(p < 0x1_0000_0000) by (bit_vector)
                requires
                    usize::BITS == 32,
                    p == x as usize,
            ;
            assert(((w % 0x1_0000_0000) as usize) as isize == x) by (bit_vector)
                requires
                    usize::BITS == 32,
                    w == x as u64,
            ;
            assert(((p as nat % 0x1_0000_0000) as usize) as isize == x) by (bit_vector)
                requires
                    usize::BITS == 32,
                    p == x as usize,
            ;
            assert(w == p as u64 || w >= 0x8000_0000_0000_0000u64) by (bit_vector)
                requires
                    usize::BITS == 32,
                    w == x as u64,
                    p == x as usize,
            ;
        } else {
            assert(((w as nat % 0x1_0000_0000_0000_0000) as usize) as isize == x) by (bit_vector)
                requires
                    usize::BITS == 64,
                    w == x as u64,
            ;
            assert(((p as nat % 0x1_0000_0000_0000_0000) as usize) as isize == x) by (bit_vector)
                requires
                    usize::BITS == 64,
                    p == x as usize,
            ;
            assert(w == p as u64) by (bit_vector)
                requires
                    usize::BITS == 64,
                    w == x as u64,
                    p == x as usize,
            ;
        }
        crate::groups::lemma_bit_len_bound(p as nat, usize::BITS as nat);
    }
}

impl<I: VarInteger> Sizeable for I {
    /// The number of bytes of the integer type.
    open spec fn spec_size(&self) -> nat {
        vstd::layout::size_of::<I>()
    }

    fn size(&self) -> (r: usize) {
        core::mem::size_of::<I>()
    }
}

/// An integer written to the wire in 7-bit groups.
#[derive(Debug, Copy, Clone)]
pub struct Var<I>(pub I);

/// A variable-length `i64`.
pub type VarLong = Var<i64>;

/// A variable-length `i32`.
pub type VarInt = Var<i32>;

impl<I> View for Var<I> {
    type V = I;

    open spec fn view(&self) -> I {
        self.0
    }
}

impl<I: VarInteger> Var<I> {
    /// The most bytes a reader of this type takes: the size of the value with every bit set.
    pub open spec fn spec_max_len() -> nat {
        ((I::spec_bits() + 6) / 7) as nat
    }

    /// The value read from the first `n` bytes of `s`.
    pub open spec fn spec_value_of(s: Seq<u8>, n: nat) -> I {
        I::spec_from_pattern(read_value(s, n))
    }
}

impl<I: VarInteger> Sizeable for Var<I> {
    /// The number of 7-bit groups of the value's bit pattern, at least one:
    /// `ceil(bits / 7)` where `bits` is the number of significant bits.
    open spec fn spec_size(&self) -> nat {
        group_count(self.0.spec_pattern())
    }

    fn size(&self) -> (r: usize) {
        proof {
            I::lemma_repr(self.0);
        }
        let n = I::bits() - self.0.leading_zeros();
        proof {
            lemma_size_formula(n);
        }
        (n * 9 / 64 + 1) as usize
    }
}

impl<I: VarInteger> Codec for Var<I> {
    /// The groups of the value widened to 64 bits (nothing for zero).
    open spec fn spec_encode(v: I) -> Seq<u8> {
        group_bytes(v.spec_wide() as nat)
    }

    /// A reader takes at most as many bytes as the widest value of the type needs.
    open spec fn spec_decode(s: Seq<u8>) -> (Result<I, DecodeError>, nat) {
        match scan_groups(s, Self::spec_max_len()) {
            GroupScan::Complete(n) => (Ok(Self::spec_value_of(s, n)), n),
            GroupScan::Incomplete => (Err(DecodeError::Incomplete), s.len()),
            GroupScan::TooLong => (Err(DecodeError::TooLong), Self::spec_max_len()),
        }
    }

    open spec fn spec_decode_panics(s: Seq<u8>) -> bool {
        false
    }

    fn encode_to(self, w: &mut Vec<u8>) -> (r: Result<(), EncodeError>) {
        write_groups(self.0.wide(), w);
        Ok(())
    }

    fn decode_from(r: &mut &[u8]) -> (res: Result<Self, DecodeError>) {
        let bits = I::bits();
        proof {
            I::lemma_repr(I::spec_from_pattern(0));
            lemma_size_formula(bits);
        }
        let max = (bits * 9 / 64 + 1) as usize;
        let (outcome, n) = read_groups(*r, max);
        let (_, rest) = r.split_at(n);
        *r = rest;
        proof {
            lemma2_to64_rest();
            vstd::arithmetic::power2::lemma_pow2_pos(64);
        }
        match outcome {
            Ok(v) => Ok(Var(I::from_pattern(v))),
            Err(GroupEnd::Incomplete) => Err(DecodeError::Incomplete),
            Err(GroupEnd::TooLong) => Err(DecodeError::TooLong),
        }
    }
}

/// The size a `Var` reports is the number of bytes `encode_to` writes for it exactly
/// when the value is not zero and widening it to 64 bits keeps its bit pattern (always
/// for 64-bit types, for non-negative values of 32-bit signed types).
pub proof fn lemma_size_is_encoded_len<I: VarInteger>(v: Var<I>)
    ensures
        Var::<I>::spec_encode(v@).len() == v.spec_size() <==> (v.0.spec_pattern() != 0
            && v.0.spec_wide() == v.0.spec_pattern()),
{
    I::lemma_repr(v.0);
    let w = v.0.spec_wide() as nat;
    let p = v.0.spec_pattern();
    lemma_group_bytes_len(w);
    if w != p {
        lemma_pow2_pos(63);
        lemma_bit_len_lower(w, 63);
        lemma2_to64_rest();
        crate::groups::lemma_bit_len_bound(w, 64);
        assert(I::spec_bits() <= 32);
        assert(group_count(w) == 10);
        if p != 0 {
            assert(group_count(p) <= 5);
        }
    }
}

/// Reading back what `encode_to` wrote for `v`, followed by any bytes, gives `v` and
/// takes exactly the written bytes, if and only if the written bytes end the reader's
/// scan at their last byte, within the most bytes the type may take (so never for zero,
/// which is written as nothing).
pub proof fn lemma_decode_encoded<I: VarInteger>(v: I, rest: Seq<u8>)
    ensures
        Var::<I>::spec_decode(Var::<I>::spec_encode(v) + rest) == (Ok::<I, DecodeError>(v), Var::<
            I,
        >::spec_encode(v).len())
            <==> scan_groups(Var::<I>::spec_encode(v), Var::<I>::spec_max_len())
            == GroupScan::Complete(Var::<I>::spec_encode(v).len()),
{
    I::lemma_repr(v);
    let bytes = Var::<I>::spec_encode(v);
    let all = bytes + rest;
    let max = Var::<I>::spec_max_len();
    let w = v.spec_wide() as nat;
    lemma_scan_shape(bytes, max, 0);
    lemma_scan_complete_positive(all, max, 0);
    match scan_groups(bytes, max) {
        GroupScan::Complete(n) => {
            lemma_scan_extend(bytes, rest, max, 0, n);
            if n == bytes.len() {
                assert(all.take(n as int) =~= bytes);
                lemma_digits_of_group_bytes(w);
                lemma2_to64_rest();
                lemma_pow2_pos(64);
                lemma_small_mod(w, pow2(64));
            }
        },
        GroupScan::Incomplete => {
            if bytes.len() > 0 {
                lemma_group_bytes_last(w);
            }
        },
        GroupScan::TooLong => {
            lemma_scan_extend_too_long(bytes, rest, max, 0);
        },
    }
}

/// A read that did not run out of input reads the same on any extension of the input.
pub proof fn lemma_decode_extend<I: VarInteger>(s: Seq<u8>, t: Seq<u8>)
    requires
        scan_groups(s, Var::<I>::spec_max_len()) != GroupScan::Incomplete,
    ensures
        Var::<I>::spec_decode(s + t) == Var::<I>::spec_decode(s),
{
    let max = Var::<I>::spec_max_len();
    match scan_groups(s, max) {
        GroupScan::Complete(n) => {
            lemma_scan_extend(s, t, max, 0, n);
            assert((s + t).take(n as int) =~= s.take(n as int));
        },
        _ => {
            lemma_scan_extend_too_long(s, t, max, 0);
        },
    }
}

/// A read never takes more bytes than it has, nor more than the widest value of the type
/// needs.
pub proof fn lemma_decode_len<I: VarInteger>(s: Seq<u8>)
    ensures
        Var::<I>::spec_decode(s).1 <= s.len(),
        Var::<I>::spec_decode(s).1 <= Var::<I>::spec_max_len(),
{
    lemma_scan_shape(s, Var::<I>::spec_max_len(), 0);
}

} // verus!
