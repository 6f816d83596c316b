//! The z-order key of the triangulator's spatial hash: the bits of two cell coordinates
//! interleaved.
use vstd::prelude::*;

verus! {

/// The low 16 bits of `x` spread to the even bit positions, by the four mask steps.
pub open spec fn spread(x: u32) -> u32 {
    let a = (x | (x << 8u32)) & 0x00ff_00ffu32;
    let b = (a | (a << 4u32)) & 0x0f0f_0f0fu32;
    let c = (b | (b << 2u32)) & 0x3333_3333u32;
    (c | (c << 1u32)) & 0x5555_5555u32
}

/// The key of the cell `(x, y)`: `x` spread to the even bits, `y` to the odd bits.
pub open spec fn z_key(x: i32, y: i32) -> i32 {
    (spread(x as u32) | (spread(y as u32) << 1u32)) as i32
}

/// The z-order key of a cell whose coordinates the triangulator has scaled to integers.
pub fn z_order_bits(x: i32, y: i32) -> (z: i32)
    ensures
        z == z_key(x, y),
{
    let mut a = x as u32;
    a = (a | (a << 8u32)) & 0x00ff_00ff;
    a = (a | (a << 4u32)) & 0x0f0f_0f0f;
    a = (a | (a << 2u32)) & 0x3333_3333;
    a = (a | (a << 1u32)) & 0x5555_5555;
    let mut b = y as u32;
    b = (b | (b << 8u32)) & 0x00ff_00ff;
    b = (b | (b << 4u32)) & 0x0f0f_0f0f;
    b = (b | (b << 2u32)) & 0x3333_3333;
    b = (b | (b << 1u32)) & 0x5555_5555;
    (a | (b << 1u32)) as i32
}

/// For 16-bit coordinates the key interleaves their bits: bit `2k` of the key is bit `k` of
/// `x`, bit `2k + 1` is bit `k` of `y`; below 2^15 the key is not negative.
pub proof fn lemma_z_key_interleaves(x: i32, y: i32, k: u32)
    requires
        0 <= x < 0x1_0000,
        0 <= y < 0x1_0000,
        k < 16,
    ensures
        (z_key(x, y) as u32 >> (2 * k)) & 1 == (x as u32 >> k) & 1,
        (z_key(x, y) as u32 >> (2 * k + 1)) & 1 == (y as u32 >> k) & 1,
        y < 0x8000 ==> z_key(x, y) >= 0,
{
    let xu = x as u32;
    let yu = y as u32;
    assert(xu < 0x1_0000 && yu < 0x1_0000);
    let s = spread(xu) | (spread(yu) << 1u32);
    assert((s >> (2 * k)) & 1 == (xu >> k) & 1) by (bit_vector)
        requires
            xu < 0x1_0000,
            yu < 0x1_0000,
            k < 16,
            s == (spread(xu) | (spread(yu) << 1u32)),
    ;
    assert((s >> (2 * k + 1)) & 1 == (yu >> k) & 1) by (bit_vector)
        requires
            xu < 0x1_0000,
            yu < 0x1_0000,
            k < 16,
            s == (spread(xu) | (spread(yu) << 1u32)),
    ;
    assert((s as i32) as u32 == s) by (bit_vector);
    assert(z_key(x, y) == s as i32);
    if y < 0x8000 {
        assert(s < 0x8000_0000) by (bit_vector)
            requires
                xu < 0x1_0000,
                yu < 0x8000,
                s == (spread(xu) | (spread(yu) << 1u32)),
        ;
    }
}

} // verus!
