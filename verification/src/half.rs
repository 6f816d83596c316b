//! Single-precision bits to half-precision bits by the base and shift tables: the mantissa
//! is truncated, not rounded.
use vstd::arithmetic::power2::{lemma2_to64, lemma_pow2_pos, pow2};
use vstd::bits::lemma_u32_shr_is_div;
use vstd::prelude::*;

verus! {

/// The sign of a 9-bit sign-and-exponent index as a half-precision sign bit.
pub open spec fn half_sign(i: u32) -> int {
    if (i / 256) % 2 == 1 {
        0x8000
    } else {
        0
    }
}

/// The unbiased single-precision exponent of the index.
pub open spec fn half_exponent(i: u32) -> int {
    (i % 256) as int - 127
}

/// The table entry for the index: the half-precision bits the exponent maps to and how far
/// the 23 mantissa bits shift right. Tiny exponents flush to a signed zero, small ones
/// become subnormals, the half range keeps its exponent, larger ones saturate to infinity,
/// and the all-ones exponent keeps its mantissa (NaN).
pub open spec fn half_entry(i: u32) -> (int, int) {
    let e = half_exponent(i);
    let s = half_sign(i);
    if e < -27 {
        (s, 24)
    } else if e < -14 {
        (s + 1024int / (pow2((-e - 14) as nat) as int), -e - 1)
    } else if e <= 15 {
        (s + (e + 15) * 1024, 13)
    } else if e < 128 {
        (s + 0x7c00, 24)
    } else {
        (s + 0x7c00, 13)
    }
}

/// The half-precision bits of the single-precision bits `f`: the entry of its sign and
/// exponent plus its mantissa shifted right.
pub open spec fn half_of_bits(f: u32) -> int {
    let entry = half_entry(((f as int / 0x80_0000) % 512) as u32);
    entry.0 + (f as int % 0x80_0000) / pow2(entry.1 as nat) as int
}

/// The base and shift table entry of a 9-bit sign-and-exponent index.
pub fn half_table(i: u32) -> (r: (u16, u32))
    ensures
        r.0 as int == half_entry(i).0,
        r.1 as int == half_entry(i).1,
{
    let negative = i & 0x100 != 0;
    assert(((i & 0x100) != 0) == ((i / 256) % 2 == 1)) by (bit_vector);
    let sign: u16 = if negative {
        0x8000
    } else {
        0
    };
    let low = i & 0xff;
    assert((i & 0xff) == i % 256) by (bit_vector);
    let e: i32 = low as i32 - 127;
    if e < -27 {
        (sign, 24)
    } else if e < -14 {
        let k = (-e - 14) as u32;
        let m = 0x0400u32 >> k;
        proof {
            lemma_u32_shr_is_div(0x0400u32, k);
            lemma_pow2_pos(k as nat);
            assert(m <= 1024);
        }
        let m16 = m as u16;
        let base = sign | m16;
        assert(sign | m16 == sign + m16) by (bit_vector)
            requires
                sign == 0 || sign == 0x8000,
                m16 <= 1024,
        ;
        (base, (-e - 1) as u32)
    } else if e <= 15 {
        let t = (e + 15) as u16;
        let x = t << 10;
        assert(t << 10 == t * 1024) by (bit_vector)
            requires
                t <= 30,
        ;
        let base = sign | x;
        assert(sign | x == sign + x) by (bit_vector)
            requires
                sign == 0 || sign == 0x8000,
                x <= 30 * 1024,
        ;
        (base, 13)
    } else {
        let base = sign | 0x7c00;
        assert(sign | 0x7c00 == sign + 0x7c00) by (bit_vector)
            requires
                sign == 0 || sign == 0x8000,
        ;
        if e < 128 {
            (base, 24)
        } else {
            (base, 13)
        }
    }
}

/// The half-precision bits of single-precision bits, by the tables.
pub fn half_from_f32_bits(f: u32) -> (h: u16)
    ensures
        h as int == half_of_bits(f),
{
    let index = (f >> 23) & 0x1ff;
    assert(((f >> 23) & 0x1ff) == (f / 0x80_0000) % 512) by (bit_vector);
    let (base, shift) = half_table(index);
    let mantissa = f & 0x007f_ffff;
    assert((f & 0x007f_ffff) == f % 0x80_0000) by (bit_vector);
    let low = mantissa >> shift;
    proof {
        lemma_u32_shr_is_div(mantissa, shift);
        lemma2_to64();
        lemma_pow2_pos(shift as nat);
        if shift > 13 {
            vstd::arithmetic::power2::lemma_pow2_strictly_increases(13, shift as nat);
        }
        assert(pow2(13) == 8192);
        assert(low <= 1023) by {
            vstd::arithmetic::div_mod::lemma_div_is_ordered_by_denominator(
                mantissa as int,
                8192,
                pow2(shift as nat) as int,
            );
        }
        if shift > 13 {
            assert(pow2(14) == 16384);
            if shift > 14 {
                vstd::arithmetic::power2::lemma_pow2_strictly_increases(14, shift as nat);
            }
            assert(low <= 511) by {
                vstd::arithmetic::div_mod::lemma_div_is_ordered_by_denominator(
                    mantissa as int,
                    16384,
                    pow2(shift as nat) as int,
                );
            }
        }
    }
    (base as u32 + low) as u16
}

} // verus!
