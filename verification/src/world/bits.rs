//! Bit-level facts behind the packed entry buffer of a chunk.

use vstd::prelude::*;

verus! {

pub open spec fn low_mask(n: u64) -> u64 {
    ((1u64 << n) - 1) as u64
}

/// Bit `t` of `x`, as 0 or 1.
pub open spec fn bit64(x: u64, t: u64) -> u64 {
    (x >> t) & 1
}

/// The value of bits `t0 .. t0 + n` of `x`, least significant first.
pub open spec fn field64(x: u64, t0: u64, n: nat) -> int
    decreases n,
{
    if n == 0 {
        0
    } else {
        bit64(x, t0) as int + 2 * field64(x, (t0 + 1) as u64, (n - 1) as nat)
    }
}

proof fn lemma_mask_step(x: u64, t: u64, n: u64)
    requires
        1 <= n <= 32,
        t + n <= 64,
    ensures
        (x >> t) & low_mask(n) == ((x >> t) & 1) + 2 * ((x >> (t + 1) as u64) & low_mask((n - 1) as u64)),
{
    assert((x >> t) & (((1u64 << n) - 1) as u64) == ((x >> t) & 1) + 2 * ((x >> (t + 1) as u64) & (((
    1u64 << (n - 1) as u64) - 1) as u64))) by (bit_vector)
        requires
            1 <= n <= 32,
            t + n <= 64,
    ;
}

/// Masking out `n` bits starting at `t` gives the value of that bit field.
pub proof fn lemma_field64(x: u64, t: u64, n: u64)
    requires
        n <= 32,
        t + n <= 64,
    ensures
        ((x >> t) & low_mask(n)) as int == field64(x, t, n as nat),
    decreases n,
{
    if n == 0 {
        assert((x >> t) & (((1u64 << 0u64) - 1) as u64) == 0) by (bit_vector);
    } else {
        lemma_mask_step(x, t, n);
        lemma_field64(x, (t + 1) as u64, (n - 1) as u64);
    }
}

} // verus!

verus! {

/// Bit `k` of the little-endian bit string formed by `words`.
pub open spec fn word_bit(words: Seq<u32>, k: int) -> u64 {
    bit64(words[k / 32] as u64, (k % 32) as u64)
}

/// Value of bits `start .. start + n` of `words`, least significant first.
pub open spec fn bits_value(words: Seq<u32>, start: int, n: nat) -> int
    decreases n,
{
    if n == 0 {
        0
    } else {
        word_bit(words, start) as int + 2 * bits_value(words, start + 1, (n - 1) as nat)
    }
}

/// A bit field of a `u64` equals a bit range of `words` when they agree bit by bit.
pub proof fn lemma_field_matches(x: u64, t0: u64, words: Seq<u32>, start: int, n: nat)
    requires
        t0 + n <= 64,
        forall|k: int|
            start <= k < start + n ==> #[trigger] word_bit(words, k) == bit64(
                x,
                (k - start + t0) as u64,
            ),
    ensures
        field64(x, t0, n) == bits_value(words, start, n),
    decreases n,
{
    if n > 0 {
        assert(word_bit(words, start) == bit64(x, t0));
        lemma_field_matches(x, (t0 + 1) as u64, words, start + 1, (n - 1) as nat);
    }
}

/// Bit ranges that agree bit by bit have the same value.
pub proof fn lemma_bits_value_eq(w1: Seq<u32>, w2: Seq<u32>, start: int, n: nat)
    requires
        forall|k: int| start <= k < start + n ==> #[trigger] word_bit(w1, k) == word_bit(w2, k),
    ensures
        bits_value(w1, start, n) == bits_value(w2, start, n),
    decreases n,
{
    if n > 0 {
        assert(word_bit(w1, start) == word_bit(w2, start));
        lemma_bits_value_eq(w1, w2, start + 1, (n - 1) as nat);
    }
}

/// Bit ranges of all-zero words are worth zero.
pub proof fn lemma_bits_value_zero(words: Seq<u32>, start: int, n: nat)
    requires
        forall|k: int| start <= k < start + n ==> #[trigger] word_bit(words, k) == 0,
    ensures
        bits_value(words, start, n) == 0,
    decreases n,
{
    if n > 0 {
        assert(word_bit(words, start) == 0);
        lemma_bits_value_zero(words, start + 1, (n - 1) as nat);
    }
}

pub proof fn lemma_zero_bit(t: u64)
    ensures
        bit64(0, t) == 0,
{
    assert((0u64 >> t) & 1 == 0) by (bit_vector);
}

pub proof fn lemma_div32(q: int, r: int)
    requires
        0 <= r < 32,
    ensures
        (q * 32 + r) / 32 == q,
        (q * 32 + r) % 32 == r,
{
    vstd::arithmetic::div_mod::lemma_fundamental_div_mod_converse(q * 32 + r, 32, q, r);
}

/// Reading a field that straddles two words: bits of the stitched value.
pub proof fn lemma_read_straddle(lo: u64, hi: u64, off: u64, i: u64)
    requires
        lo < 0x1_0000_0000,
        hi < 0x1_0000_0000,
        off < 32,
        i < 32,
    ensures
        bit64((lo >> off) | (hi << (32 - off) as u64), i) == if i < 32 - off {
            bit64(lo, (off + i) as u64)
        } else {
            bit64(hi, (i - (32 - off)) as u64)
        },
{
    assert(((((lo >> off) | (hi << (32 - off) as u64)) >> i) & 1) == if i < 32 - off {
        (lo >> (off + i) as u64) & 1
    } else {
        (hi >> (i - (32 - off)) as u64) & 1
    }) by (bit_vector)
        requires
            lo < 0x1_0000_0000,
            hi < 0x1_0000_0000,
            off < 32,
            i < 32,
    ;
}

pub proof fn lemma_masked_fits(x: u64, b: u64)
    requires
        b <= 32,
    ensures
        x & low_mask(b) < 0x1_0000_0000,
        x & low_mask(b) <= low_mask(b),
{
    assert(x & (((1u64 << b) - 1) as u64) < 0x1_0000_0000 && x & (((1u64 << b) - 1) as u64) <= (((1u64 << b) - 1) as u64)) by (bit_vector)
        requires
            b <= 32,
    ;
}

pub proof fn lemma_mask_idempotent(v: u64, b: u64)
    requires
        b <= 32,
        v <= low_mask(b),
    ensures
        v & low_mask(b) == v,
        (v >> 0u64) & low_mask(b) == v,
{
    assert(v & (((1u64 << b) - 1) as u64) == v && (v >> 0u64) & (((1u64 << b) - 1) as u64) == v) by (bit_vector)
        requires
            b <= 32,
            v <= (((1u64 << b) - 1) as u64),
    ;
}

/// Writing a field that lies inside one word.
pub proof fn lemma_write_within(w: u64, v: u64, off: u64, b: u64, p: u64)
    requires
        w < 0x1_0000_0000,
        1 <= b <= 32,
        off + b <= 32,
        v <= low_mask(b),
        p < 32,
    ensures
        (w & !(low_mask(b) << off)) | (v << off) < 0x1_0000_0000,
        bit64((w & !(low_mask(b) << off)) | (v << off), p) == if off <= p && p < off + b {
            bit64(v, (p - off) as u64)
        } else {
            bit64(w, p)
        },
{
    assert((w & !((((1u64 << b) - 1) as u64) << off)) | (v << off) < 0x1_0000_0000 && ((((w
        & !((((1u64 << b) - 1) as u64) << off)) | (v << off)) >> p) & 1) == if off <= p && p < off
        + b {
        (v >> (p - off) as u64) & 1
    } else {
        (w >> p) & 1
    }) by (bit_vector)
        requires
            w < 0x1_0000_0000,
            1 <= b <= 32,
            off + b <= 32,
            v <= (((1u64 << b) - 1) as u64),
            p < 32,
    ;
}

/// Writing the low part of a field that straddles two words.
pub proof fn lemma_write_low_part(w0: u64, v: u64, off: u64, b: u64, p: u64)
    requires
        w0 < 0x1_0000_0000,
        1 <= b <= 32,
        off < 32,
        off + b > 32,
        v <= low_mask(b),
        p < 32,
    ensures
        ({
            let lo_mask = low_mask(b) & low_mask((32 - off) as u64);
            let r = (w0 & !(lo_mask << off)) | ((v & lo_mask) << off);
            &&& r < 0x1_0000_0000
            &&& bit64(r, p) == if off <= p {
                bit64(v, (p - off) as u64)
            } else {
                bit64(w0, p)
            }
        }),
{
    assert({
        let lo_mask = (((1u64 << b) - 1) as u64) & (((1u64 << (32 - off) as u64) - 1) as u64);
        let r = (w0 & !(lo_mask << off)) | ((v & lo_mask) << off);
        &&& r < 0x1_0000_0000
        &&& ((r >> p) & 1) == if off <= p {
            (v >> (p - off) as u64) & 1
        } else {
            (w0 >> p) & 1
        }
    }) by (bit_vector)
        requires
            w0 < 0x1_0000_0000,
            1 <= b <= 32,
            off < 32,
            off + b > 32,
            v <= (((1u64 << b) - 1) as u64),
            p < 32,
    ;
}

/// Writing the high part of a field that straddles two words.
pub proof fn lemma_write_high_part(w1: u64, v: u64, off: u64, b: u64, p: u64)
    requires
        w1 < 0x1_0000_0000,
        1 <= b <= 32,
        off < 32,
        off + b > 32,
        v <= low_mask(b),
        p < 32,
    ensures
        ({
            let split = (32 - off) as u64;
            let r = (w1 & !(low_mask(b) >> split)) | (v >> split);
            &&& r < 0x1_0000_0000
            &&& bit64(r, p) == if p < off + b - 32 {
                bit64(v, (p + split) as u64)
            } else {
                bit64(w1, p)
            }
        }),
{
    assert({
        let split = (32 - off) as u64;
        let r = (w1 & !((((1u64 << b) - 1) as u64) >> split)) | (v >> split);
        &&& r < 0x1_0000_0000
        &&& ((r >> p) & 1) == if p < off + b - 32 {
            (v >> (p + split) as u64) & 1
        } else {
            (w1 >> p) & 1
        }
    }) by (bit_vector)
        requires
            w1 < 0x1_0000_0000,
            1 <= b <= 32,
            off < 32,
            off + b > 32,
            v <= (((1u64 << b) - 1) as u64),
            p < 32,
    ;
}

} // verus!

verus! {

/// Number of binary digits of `n` (0 for 0).
pub open spec fn bit_length(n: nat) -> nat
    decreases n,
{
    if n == 0 {
        0
    } else {
        1 + bit_length(n / 2)
    }
}

pub proof fn lemma_bit_length_leading_zeros(i: u64)
    ensures
        64 - vstd::std_specs::bits::u64_leading_zeros(i) == bit_length(i as nat),
    decreases i,
{
    reveal(vstd::std_specs::bits::u64_leading_zeros);
    if i != 0 {
        lemma_bit_length_leading_zeros(i / 2);
    }
}

/// Every `n` below 2^32 fits in `bit_length(n)` bits, and that is at most 32.
pub proof fn lemma_bit_length_fits(n: u64)
    requires
        n < 0x1_0000_0000,
    ensures
        bit_length(n as nat) <= 32,
        n <= low_mask(bit_length(n as nat) as u64),
    decreases n,
{
    assert(n <= (((1u64 << 32u64) - 1) as u64)) by (bit_vector)
        requires
            n < 0x1_0000_0000,
    ;
    lemma_bit_length_bound(n, 32);
    if n == 0 {
        assert(0u64 <= (((1u64 << 0u64) - 1) as u64)) by (bit_vector);
    } else {
        let h = n / 2;
        lemma_bit_length_fits(h);
        let l = bit_length(h as nat) as u64;
        assert(l <= 31);
        assert(n == 2 * h + n % 2);
        assert(n <= (((1u64 << (l + 1) as u64) - 1) as u64)) by (bit_vector)
            requires
                l <= 31,
                h <= (((1u64 << l) - 1) as u64),
                n == 2 * h + n % 2,
        ;
    }
}

/// Values that fit in `k` bits have at most `k` binary digits.
pub proof fn lemma_bit_length_bound(n: u64, k: u64)
    requires
        k <= 32,
        n <= low_mask(k),
    ensures
        bit_length(n as nat) <= k,
    decreases k,
{
    if n != 0 {
        assert(k >= 1 && n / 2 <= (((1u64 << (k - 1) as u64) - 1) as u64)) by (bit_vector)
            requires
                k <= 32,
                n <= (((1u64 << k) - 1) as u64),
                n != 0,
        ;
        lemma_bit_length_bound(n / 2, (k - 1) as u64);
    }
}

} // verus!
