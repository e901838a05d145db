//! The wire format shared by every variable-length number of the protocol:
//! a number is cut into 7-bit groups, least significant group first, and a
//! reader keeps taking bytes while their high bit (the continue bit) is set.
//!
//! Writing and reading are not mirror images here. A writer emits, for each
//! 7-bit group, the whole low byte of what is left of the number (so the high
//! bit of a written byte is the lowest bit of the next group). A reader takes
//! the low 7 bits of each byte.
use vstd::arithmetic::div_mod::*;
use vstd::arithmetic::mul::*;
use vstd::arithmetic::power2::*;
use vstd::bits::*;
use vstd::std_specs::bits::u64_leading_zeros;
use vstd::prelude::*;

verus! {

/// Where a reader that may take at most `max` bytes stops on `s`.
pub enum GroupScan {
    /// The byte at index `n - 1` is the first one with the continue bit clear.
    Complete(nat),
    /// The input ran out before a byte with the continue bit clear and before `max` bytes.
    Incomplete,
    /// `max` bytes were taken and every one of them had the continue bit set.
    TooLong,
}

/// Scan of `s` from index `i` on, for a reader that takes at most `max` bytes.
pub open spec fn scan_groups_from(s: Seq<u8>, max: nat, i: nat) -> GroupScan
    decreases max - i,
{
    if i >= max {
        GroupScan::TooLong
    } else if i >= s.len() {
        GroupScan::Incomplete
    } else if s[i as int] < 128 {
        GroupScan::Complete(i + 1)
    } else {
        scan_groups_from(s, max, i + 1)
    }
}

/// Where a reader that takes at most `max` bytes stops on `s`.
pub open spec fn scan_groups(s: Seq<u8>, max: nat) -> GroupScan {
    scan_groups_from(s, max, 0)
}

/// The number whose base-128 digits, least significant first, are the low 7 bits of the bytes of `s`.
pub open spec fn digits_value(s: Seq<u8>) -> nat
    decreases s.len(),
{
    if s.len() == 0 {
        0
    } else {
        (s[0] % 128) as nat + 128 * digits_value(s.drop_first())
    }
}

/// The bytes a writer emits for `u`: for each base-128 digit of `u`, the low byte
/// of what is left of `u` at that digit. Nothing for zero.
pub open spec fn group_bytes(u: nat) -> Seq<u8>
    decreases u,
{
    if u == 0 {
        Seq::empty()
    } else {
        seq![(u % 256) as u8] + group_bytes(u / 128)
    }
}

/// Number of significant bits of `u`.
pub open spec fn bit_len(u: nat) -> nat
    decreases u,
{
    if u == 0 {
        0
    } else {
        1 + bit_len(u / 2)
    }
}

/// Number of 7-bit groups needed for `u`: at least one, `ceil(bit_len / 7)` otherwise.
pub open spec fn group_count(u: nat) -> nat {
    if u == 0 {
        1
    } else {
        ((bit_len(u) + 6) / 7) as nat
    }
}

pub proof fn lemma_bit_len_div128(u: nat)
    requires
        u >= 128,
    ensures
        bit_len(u / 128) + 7 == bit_len(u),
{
    assert(u / 128 == ((((((u / 2) / 2) / 2) / 2) / 2) / 2) / 2) by {
        lemma_div_denominator(u as int, 2, 2);
        lemma_div_denominator(u as int, 4, 2);
        lemma_div_denominator(u as int, 8, 2);
        lemma_div_denominator(u as int, 16, 2);
        lemma_div_denominator(u as int, 32, 2);
        lemma_div_denominator(u as int, 64, 2);
    }
    assert(bit_len(u) == 1 + bit_len(u / 2));
    assert(bit_len(u / 2) == 1 + bit_len(u / 2 / 2));
    assert(bit_len(u / 2 / 2) == 1 + bit_len(u / 2 / 2 / 2));
    assert(bit_len(u / 2 / 2 / 2) == 1 + bit_len(u / 2 / 2 / 2 / 2));
    assert(bit_len(u / 2 / 2 / 2 / 2) == 1 + bit_len(u / 2 / 2 / 2 / 2 / 2));
    assert(bit_len(u / 2 / 2 / 2 / 2 / 2) == 1 + bit_len(u / 2 / 2 / 2 / 2 / 2 / 2));
    assert(bit_len(u / 2 / 2 / 2 / 2 / 2 / 2) == 1 + bit_len(u / 2 / 2 / 2 / 2 / 2 / 2 / 2));
}

pub proof fn lemma_bit_len_small(u: nat)
    requires
        0 < u < 128,
    ensures
        1 <= bit_len(u) <= 7,
{
    reveal_with_fuel(bit_len, 8);
}

pub proof fn lemma_bit_len_bound(u: nat, k: nat)
    requires
        u < pow2(k),
    ensures
        bit_len(u) <= k,
    decreases k,
{
    if u > 0 {
        if k == 0 {
            assert(pow2(0) == 1) by {
                lemma2_to64();
            }
        } else {
            lemma_pow2_unfold(k);
            lemma_bit_len_bound(u / 2, (k - 1) as nat);
        }
    }
}

/// The writer emits one byte per 7-bit group of a nonzero number.
pub proof fn lemma_group_bytes_len(u: nat)
    ensures
        u != 0 ==> group_bytes(u).len() == group_count(u),
        u == 0 ==> group_bytes(u).len() == 0,
    decreases u,
{
    if u != 0 {
        lemma_group_bytes_len(u / 128);
        if u < 128 {
            lemma_bit_len_small(u);
            assert(u / 128 == 0);
        } else {
            lemma_bit_len_div128(u);
        }
    }
}

/// Reading back the low 7 bits of the written bytes gives the number.
pub proof fn lemma_digits_of_group_bytes(u: nat)
    ensures
        digits_value(group_bytes(u)) == u,
    decreases u,
{
    if u != 0 {
        lemma_digits_of_group_bytes(u / 128);
        let s = group_bytes(u);
        assert(s.drop_first() =~= group_bytes(u / 128));
        assert(((u % 256) as u8) % 128 == u % 128) by {
            lemma_mod_mod(u as int, 128, 2);
        }
    }
}

/// The last byte the writer emits has its continue bit clear.
pub proof fn lemma_group_bytes_last(u: nat)
    requires
        u != 0,
    ensures
        group_bytes(u).last() < 128,
    decreases u,
{
    if u / 128 == 0 {
        assert(group_bytes(u / 128) =~= Seq::<u8>::empty());
        assert(group_bytes(u) =~= seq![(u % 256) as u8]);
    } else {
        lemma_group_bytes_last(u / 128);
    }
}

pub proof fn lemma_digits_push(t: Seq<u8>, b: u8)
    ensures
        digits_value(t.push(b)) == digits_value(t) + (b % 128) as nat * pow2(7 * t.len()),
    decreases t.len(),
{
    let c = (b % 128) as nat;
    if t.len() == 0 {
        assert(t.push(b).drop_first() =~= Seq::<u8>::empty());
        assert(pow2(0) == 1) by {
            lemma2_to64();
        }
        assert(t.push(b)[0] == b);
        assert(digits_value(t.push(b)) == c + 128 * digits_value(t.push(b).drop_first()));
        assert(digits_value(Seq::<u8>::empty()) == 0);
        assert(c * pow2(0) == c);
    } else {
        let rest = t.drop_first();
        assert(t.push(b).drop_first() =~= rest.push(b));
        lemma_digits_push(rest, b);
        let k = (7 * (t.len() - 1)) as nat;
        assert(pow2(7 * t.len()) == 128 * pow2(k)) by {
            lemma_pow2_adds(k, 7);
            lemma2_to64();
        }
        let p = pow2(k);
        let d = digits_value(rest);
        assert(t.push(b)[0] == t[0]);
        assert(digits_value(rest.push(b)) == d + c * p);
        assert(digits_value(t.push(b)) == (t[0] % 128) as nat + 128 * digits_value(rest.push(b)));
        assert(digits_value(t) == (t[0] % 128) as nat + 128 * d);
        assert(128 * (d + c * p) == 128 * d + c * (128 * p)) by (nonlinear_arith);
    }
}

pub proof fn lemma_digits_bound(t: Seq<u8>)
    ensures
        digits_value(t) < pow2(7 * t.len()),
    decreases t.len(),
{
    if t.len() == 0 {
        assert(pow2(0) == 1) by {
            lemma2_to64();
        }
    } else {
        lemma_digits_bound(t.drop_first());
        let k = (7 * (t.len() - 1)) as nat;
        assert(pow2(7 * t.len()) == 128 * pow2(k)) by {
            lemma_pow2_adds(k, 7);
            lemma2_to64();
        }
        let d = digits_value(t.drop_first());
        let c = (t[0] % 128) as nat;
        assert(c + 128 * d < 128 * pow2(k)) by (nonlinear_arith)
            requires
                c < 128,
                d < pow2(k),
        ;
    }
}

/// A reader that stops inside `s` stops at the same place on any extension of `s`.
pub proof fn lemma_scan_extend(s: Seq<u8>, t: Seq<u8>, max: nat, i: nat, n: nat)
    requires
        scan_groups_from(s, max, i) == GroupScan::Complete(n),
    ensures
        scan_groups_from(s + t, max, i) == GroupScan::Complete(n),
        i < n <= s.len(),
        n <= max,
    decreases max - i,
{
    if i < max && i < s.len() && s[i as int] >= 128 {
        lemma_scan_extend(s, t, max, i + 1, n);
    }
}

/// What the scan says about the bytes it walked over.
pub proof fn lemma_scan_shape(s: Seq<u8>, max: nat, i: nat)
    requires
        i <= s.len(),
    ensures
        match scan_groups_from(s, max, i) {
            GroupScan::Complete(n) => {
                &&& i < n <= s.len()
                &&& n <= max
                &&& s[n - 1] < 128
                &&& forall|j: int| i <= j < n - 1 ==> s[j] >= 128
            },
            GroupScan::Incomplete => {
                &&& s.len() < max
                &&& forall|j: int| i <= j < s.len() ==> s[j] >= 128
            },
            GroupScan::TooLong => {
                &&& max <= s.len()
                &&& forall|j: int| i <= j < max ==> s[j] >= 128
            },
        },
    decreases max - i,
{
    if i < max && i < s.len() && s[i as int] >= 128 {
        lemma_scan_shape(s, max, i + 1);
    }
}

/// Cuts `n` into groups and appends the bytes the writer emits for it.
pub fn write_groups(n: u64, w: &mut Vec<u8>)
    ensures
        final(w)@ == old(w)@ + group_bytes(n as nat),
{
    let mut n = n;
    let ghost orig = n;
    let ghost start = w@;
    while n != 0
        invariant
            w@ + group_bytes(n as nat) == start + group_bytes(orig as nat),
        decreases n,
    {
        let b = n as u8;
        assert(b == (n % 256) as u8) by (bit_vector)
            requires
                b == n as u8,
        ;
        assert(b & 0x7f | b & 0x80 == b) by (bit_vector);
        let ghost before = w@;
        let ghost rest = group_bytes((n / 128) as nat);
        assert(group_bytes(n as nat) == seq![b] + rest);
        w.push(b & 0x7f | b & 0x80);
        assert(n >> 7 == n / 128) by (bit_vector);
        n = n >> 7;
        assert(w@ + group_bytes(n as nat) =~= before + (seq![b] + rest));
    }
}

/// Why a reader stopped without a number.
#[derive(Debug, Clone, Copy)]
pub enum GroupEnd {
    /// The input ran out first.
    Incomplete,
    /// The reader took as many bytes as it may and all had the continue bit set.
    TooLong,
}

/// The number a reader assembles from the first `n` bytes of `s`, kept to 64 bits.
pub open spec fn read_value(s: Seq<u8>, n: nat) -> nat {
    digits_value(s.take(n as int)) % pow2(64)
}

proof fn lemma_pow2_le(a: nat, b: nat)
    requires
        a <= b,
    ensures
        pow2(a) <= pow2(b),
{
    if a < b {
        lemma_pow2_strictly_increases(a, b);
    }
}

proof fn lemma_top_group(d: nat, c: nat)
    requires
        d < pow2(63),
    ensures
        (d + c * pow2(63)) % pow2(64) == d + (c % 2) * pow2(63),
        d + (c % 2) * pow2(63) < pow2(64),
{
    let p = pow2(63);
    let q = pow2(64);
    assert(q == 2 * p) by {
        lemma_pow2_adds(63, 1);
        lemma2_to64();
    }
    lemma_pow2_pos(63);
    lemma_fundamental_div_mod(c as int, 2);
    let x = d + (c % 2) * p;
    assert(x < q) by (nonlinear_arith)
        requires
            d < p,
            c % 2 <= 1,
            q == 2 * p,
            x == d + (c % 2) * p,
    ;
    assert(d + c * p == q * (c / 2) + x) by (nonlinear_arith)
        requires
            c == 2 * (c / 2) + c % 2,
            q == 2 * p,
            x == d + (c % 2) * p,
    ;
    lemma_mod_multiples_vanish((c / 2) as int, x as int, q as int);
    lemma_small_mod(x, q);
}

/// One step of a reader: adding the group of the byte at index `i` to what the
/// first `i` bytes gave.
proof fn lemma_read_step(acc: u64, chunk: u64, i: u64, t: Seq<u8>, b: u8)
    requires
        i < 10,
        t.len() == i,
        acc == digits_value(t),
        chunk == b % 128,
    ensures
        (acc | (chunk << (7 * i))) as nat == digits_value(t.push(b)) % pow2(64),
{
    let k = (7 * i) as u64;
    lemma_digits_bound(t);
    lemma_digits_push(t, b);
    lemma_u64_pow2_no_overflow(k as nat);
    lemma_u64_shl_is_mul(1, k);
    assert(acc < (1u64 << k));
    assert((acc | (chunk << k)) == acc + (chunk << k)) by (bit_vector)
        requires
            k < 64,
            acc < (1u64 << k),
    ;
    if i < 9 {
        assert(chunk * pow2(k as nat) <= 127 * pow2(56)) by {
            lemma_pow2_le(k as nat, 56);
            lemma_mul_inequality(chunk as int, 127, pow2(k as nat) as int);
            lemma_mul_inequality(pow2(k as nat) as int, pow2(56) as int, 127);
            lemma_mul_is_commutative(chunk as int, pow2(k as nat) as int);
        }
        assert(127 * pow2(56) < pow2(63) && pow2(63) < u64::MAX) by {
            lemma2_to64();
            lemma2_to64_rest();
        }
        lemma_u64_shl_is_mul(chunk, k);
        assert(pow2(7 * (i + 1) as nat) <= pow2(63)) by {
            lemma_pow2_le((7 * (i + 1)) as nat, 63);
        }
        lemma_digits_bound(t.push(b));
        assert(pow2(63) < pow2(64)) by {
            lemma_pow2_strictly_increases(63, 64);
        }
        lemma_small_mod(digits_value(t.push(b)), pow2(64));
    } else {
        assert(chunk << 63u64 == (chunk % 2) << 63u64) by (bit_vector);
        assert(pow2(63) <= u64::MAX) by {
            lemma2_to64_rest();
        }
        assert((chunk % 2) * pow2(63) <= pow2(63)) by {
            lemma_mul_inequality((chunk % 2) as int, 1, pow2(63) as int);
        }
        lemma_u64_shl_is_mul(chunk % 2, 63);
        lemma_top_group(acc as nat, chunk as nat);
    }
}

/// A reader that takes at most `max` bytes of `s`: the number it read and how many
/// bytes it took, or why it stopped and how many bytes it took until then.
pub fn read_groups(s: &[u8], max: usize) -> (r: (Result<u64, GroupEnd>, usize))
    requires
        max <= 10,
    ensures
        match scan_groups(s@, max as nat) {
            GroupScan::Complete(n) => r.1 == n && r.0 == Ok::<u64, GroupEnd>(
                read_value(s@, n) as u64,
            ),
            GroupScan::Incomplete => r.1 == s@.len() && r.0 == Err::<u64, GroupEnd>(
                GroupEnd::Incomplete,
            ),
            GroupScan::TooLong => r.1 == max && r.0 == Err::<u64, GroupEnd>(GroupEnd::TooLong),
        },
        r.1 <= s@.len(),
{
    let mut val: u64 = 0;
    let mut i: usize = 0;
    proof {
        assert(s@.take(0) =~= Seq::<u8>::empty());
        lemma_pow2_pos(64);
    }
    while i < max
        invariant
            max <= 10,
            i <= max,
            i <= s@.len(),
            scan_groups(s@, max as nat) == scan_groups_from(s@, max as nat, i as nat),
            val as nat == digits_value(s@.take(i as int)) % pow2(64),
            i < 10 ==> val as nat == digits_value(s@.take(i as int)),
        decreases max - i,
    {
        if i >= s.len() {
            return (Err(GroupEnd::Incomplete), i);
        }
        let byte = s[i];
        let chunk = (byte & 0x7f) as u64;
        assert(byte & 0x7f == byte % 128) by (bit_vector);
        proof {
            assert(s@.take(i + 1) =~= s@.take(i as int).push(byte));
            lemma_read_step(val, chunk, i as u64, s@.take(i as int), byte);
        }
        val = val | (chunk << (7 * i as u64));
        i = i + 1;
        proof {
            if i < 10 {
                lemma_digits_bound(s@.take(i as int));
                lemma_pow2_strictly_increases((7 * i) as nat, 64);
                lemma_small_mod(digits_value(s@.take(i as int)), pow2(64));
            }
        }
        assert(byte & 0x80 == 0 <==> byte < 128) by (bit_vector);
        if byte & 0x80 == 0 {
            return (Ok(val), i);
        }
    }
    (Err(GroupEnd::TooLong), max)
}

/// `leading_zeros` of a `u64` counts the bits above its significant ones.
/// The number a reader into 128 bits assembles from the first `n` bytes of `s`.
pub open spec fn read_value_wide(s: Seq<u8>, n: nat) -> nat {
    digits_value(s.take(n as int)) % pow2(128)
}

/// The number of significant bits of `u` is `k` more than that of `u / 2^k`, when
/// `u` has at least `k + 1` bits.
pub proof fn lemma_bit_len_shift(u: nat, k: nat)
    requires
        u >= pow2(k),
    ensures
        bit_len(u) == k + bit_len(u / pow2(k)),
    decreases k,
{
    lemma_pow2_pos(k);
    if k == 0 {
        assert(pow2(0) == 1) by {
            lemma2_to64();
        }
    } else {
        lemma_pow2_unfold(k);
        let pk1 = pow2((k - 1) as nat);
        lemma_pow2_pos((k - 1) as nat);
        assert(u / 2 >= pk1) by {
            lemma_div_is_ordered((2 * pk1) as int, u as int, 2);
            lemma_div_by_multiple(pk1 as int, 2);
            lemma_mul_is_commutative(2, pk1 as int);
        }
        lemma_bit_len_shift(u / 2, (k - 1) as nat);
        lemma_div_denominator(u as int, 2, pk1 as int);
        assert(bit_len(u) == 1 + bit_len(u / 2));
    }
}

/// `pow2(126)` and `pow2(128)` as numbers.
pub proof fn lemma_pow2_wide()
    ensures
        pow2(126) == 0x4000_0000_0000_0000_0000_0000_0000_0000,
        pow2(128) == 0x1_0000_0000_0000_0000_0000_0000_0000_0000,
{
    lemma2_to64();
    lemma2_to64_rest();
    lemma_pow2_adds(64, 64);
    lemma_pow2_adds(62, 64);
}

proof fn lemma_top_group_wide(d: nat, c: nat)
    requires
        d < pow2(126),
    ensures
        (d + c * pow2(126)) % pow2(128) == d + (c % 4) * pow2(126),
        d + (c % 4) * pow2(126) < pow2(128),
{
    let p = pow2(126);
    let q = pow2(128);
    lemma_pow2_wide();
    lemma_fundamental_div_mod(c as int, 4);
    let x = d + (c % 4) * p;
    assert(x < q) by (nonlinear_arith)
        requires
            d < p,
            c % 4 <= 3,
            q == 4 * p,
            x == d + (c % 4) * p,
    ;
    assert(d + c * p == q * (c / 4) + x) by (nonlinear_arith)
        requires
            c == 4 * (c / 4) + c % 4,
            q == 4 * p,
            x == d + (c % 4) * p,
    ;
    lemma_mod_multiples_vanish((c / 4) as int, x as int, q as int);
    lemma_small_mod(x, q);
}

/// A reader into 128 bits that takes at most `max` bytes of `s`: the number it read
/// and how many bytes it took, or why it stopped and how many bytes it took until then.
pub fn read_groups_wide(s: &[u8], max: usize) -> (r: (Result<u128, GroupEnd>, usize))
    requires
        max <= 19,
    ensures
        match scan_groups(s@, max as nat) {
            GroupScan::Complete(n) => r.1 == n && r.0 == Ok::<u128, GroupEnd>(
                read_value_wide(s@, n) as u128,
            ),
            GroupScan::Incomplete => r.1 == s@.len() && r.0 == Err::<u128, GroupEnd>(
                GroupEnd::Incomplete,
            ),
            GroupScan::TooLong => r.1 == max && r.0 == Err::<u128, GroupEnd>(GroupEnd::TooLong),
        },
        r.1 <= s@.len(),
{
    let mut val: u128 = 0;
    let mut mult: u128 = 1;
    let mut i: usize = 0;
    proof {
        assert(s@.take(0) =~= Seq::<u8>::empty());
        lemma_pow2_wide();
        lemma2_to64();
        lemma_pow2_pos(128);
    }
    while i < max
        invariant
            max <= 19,
            i <= max,
            i <= s@.len(),
            scan_groups(s@, max as nat) == scan_groups_from(s@, max as nat, i as nat),
            i <= 18 ==> mult as nat == pow2((7 * i) as nat),
            i <= 18 ==> val as nat == digits_value(s@.take(i as int)),
            val as nat == digits_value(s@.take(i as int)) % pow2(128),
        decreases max - i,
    {
        if i >= s.len() {
            return (Err(GroupEnd::Incomplete), i);
        }
        let byte = s[i];
        let chunk = (byte & 0x7f) as u128;
        assert(byte & 0x7f == byte % 128) by (bit_vector);
        let ghost t = s@.take(i as int);
        proof {
            assert(s@.take(i + 1) =~= t.push(byte));
            lemma_digits_push(t, byte);
            lemma_digits_bound(t);
            lemma_digits_bound(t.push(byte));
            lemma_pow2_wide();
        }
        if i < 18 {
            proof {
                let k = (7 * i) as nat;
                lemma_pow2_adds(k, 7);
                lemma2_to64();
                assert(pow2(k + 7) <= pow2(126)) by {
                    if k + 7 < 126 {
                        lemma_pow2_strictly_increases(k + 7, 126);
                    }
                }
                lemma_pow2_pos(k);
                assert(chunk * mult < pow2(k + 7)) by (nonlinear_arith)
                    requires
                        pow2(k) > 0,
                        chunk < 128,
                        mult == pow2(k),
                        pow2(k + 7) == pow2(k) * 128,
                ;
                assert((7 * (i + 1)) as nat == k + 7);
                lemma_small_mod(digits_value(t.push(byte)), pow2(128));
            }
            val = val + chunk * mult;
            mult = mult * 128;
        } else {
            proof {
                assert(mult == pow2(126));
                lemma_top_group_wide(val as nat, chunk as nat);
                assert((chunk % 4) * mult <= 3 * pow2(126)) by (nonlinear_arith)
                    requires
                        chunk % 4 <= 3,
                        mult == pow2(126),
                ;
            }
            val = val + (chunk % 4) * mult;
        }
        i = i + 1;
        assert(byte & 0x80 == 0 <==> byte < 128) by (bit_vector);
        if byte & 0x80 == 0 {
            return (Ok(val), i);
        }
    }
    (Err(GroupEnd::TooLong), max)
}

pub proof fn lemma_leading_zeros(x: u64)
    ensures
        u64_leading_zeros(x) == 64 - bit_len(x as nat),
        bit_len(x as nat) <= 64,
    decreases x,
{
    reveal(u64_leading_zeros);
    lemma2_to64_rest();
    lemma_bit_len_bound(x as nat, 64);
    if x != 0 {
        lemma_leading_zeros(x / 2);
    }
}

/// The size formula of `Var::size`: one group plus `9/64` of a group per bit
/// is exactly the group count for every bit length up to 64.
pub proof fn lemma_size_formula(n: u32)
    requires
        n <= 64,
    ensures
        n == 0 ==> n * 9 / 64 + 1 == 1,
        n > 0 ==> n * 9 / 64 + 1 == (n + 6) / 7,
{
    assert(n <= 64 ==> (n == 0 ==> n * 9 / 64 + 1 == 1)) by (bit_vector);
    assert(n <= 64 ==> (n > 0 ==> n * 9 / 64 + 1 == (n + 6) / 7)) by (bit_vector);
}

pub proof fn lemma_bit_len_lower(u: nat, k: nat)
    requires
        u >= pow2(k),
    ensures
        bit_len(u) >= k + 1,
    decreases k,
{
    lemma_pow2_pos(k);
    if k == 0 {
        assert(bit_len(u) == 1 + bit_len(u / 2));
    } else {
        lemma_pow2_unfold(k);
        lemma_bit_len_lower(u / 2, (k - 1) as nat);
    }
}

/// A reader that gives up inside `s` gives up on any extension of `s` too.
pub proof fn lemma_scan_extend_too_long(s: Seq<u8>, t: Seq<u8>, max: nat, i: nat)
    requires
        scan_groups_from(s, max, i) == GroupScan::TooLong,
    ensures
        scan_groups_from(s + t, max, i) == GroupScan::TooLong,
    decreases max - i,
{
    if i < max && i < s.len() && s[i as int] >= 128 {
        lemma_scan_extend_too_long(s, t, max, i + 1);
    }
}

/// A completed scan always takes at least one byte.
pub proof fn lemma_scan_complete_positive(s: Seq<u8>, max: nat, i: nat)
    ensures
        scan_groups_from(s, max, i) matches GroupScan::Complete(n) ==> n > i,
    decreases max - i,
{
    if i < max && i < s.len() && s[i as int] >= 128 {
        lemma_scan_complete_positive(s, max, i + 1);
    }
}

/// A reader that stops within the first `s.len()` bytes of `s + t` stops at the same
/// place on `s` alone.
pub proof fn lemma_scan_prefix(s: Seq<u8>, t: Seq<u8>, max: nat, i: nat, n: nat)
    requires
        scan_groups_from(s + t, max, i) == GroupScan::Complete(n),
        n <= s.len(),
    ensures
        scan_groups_from(s, max, i) == GroupScan::Complete(n),
    decreases max - i,
{
    lemma_scan_shape(s + t, max, i);
    if i < max && i < (s + t).len() && (s + t)[i as int] >= 128 {
        lemma_scan_prefix(s, t, max, i + 1, n);
    }
}

/// At most ten groups are needed for a number below `2^64`.
pub proof fn lemma_group_count_small(u: nat)
    requires
        u < pow2(64),
    ensures
        group_count(u) <= 10,
{
    lemma_bit_len_bound(u, 64);
}

} // verus!
