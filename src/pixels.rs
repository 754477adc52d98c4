//! How pixels are packed into the framebuffer: six row-banks of 84 columns,
//! bank-major, one byte per column of a bank, bit `y % 8` for row `y`.
use vstd::prelude::*;

verus! {

pub const WIDTH: u32 = 84;

pub const HEIGHT: u32 = 48;

/// Number of bytes in the framebuffer: 6 banks of 84 columns.
pub const BUFFER_LEN: usize = 504;

pub open spec fn in_bounds(x: int, y: int) -> bool {
    0 <= x < 84 && 0 <= y < 48
}

/// Position of the byte that holds pixel `(x, y)`.
pub open spec fn pixel_index(x: int, y: int) -> int {
    (y / 8) * 84 + x
}

/// Bit `i` of `b` is set.
pub open spec fn bit_set(b: u8, i: u8) -> bool {
    (b >> i) & 1u8 == 1u8
}

/// `b` with bit `i` set (`on`) or cleared.
pub open spec fn with_bit(b: u8, i: u8, on: bool) -> u8 {
    if on {
        b | (1u8 << i)
    } else {
        b & !(1u8 << i)
    }
}

/// The pixel at `(x, y)` of framebuffer `fb` is on.
pub open spec fn pixel_on(fb: Seq<u8>, x: int, y: int) -> bool {
    bit_set(fb[pixel_index(x, y)], (y % 8) as u8)
}

pub proof fn lemma_with_bit(b: u8, i: u8, j: u8, on: bool)
    requires
        i < 8,
        j < 8,
    ensures
        bit_set(with_bit(b, i, on), j) == if i == j { on } else { bit_set(b, j) },
{
    if on {
        assert(((b | (1u8 << i)) >> j) & 1u8 == 1u8 <==> (i == j || (b >> j) & 1u8 == 1u8))
            by (bit_vector)
            requires i < 8u8, j < 8u8;
    } else {
        assert(((b & !(1u8 << i)) >> j) & 1u8 == 1u8 <==> (i != j && (b >> j) & 1u8 == 1u8))
            by (bit_vector)
            requires i < 8u8, j < 8u8;
    }
}

/// Every byte set to `0xFF` turns every bit on; every byte `0x00` turns it off.
pub proof fn lemma_filled_bit(i: u8)
    requires
        i < 8,
    ensures
        bit_set(0xffu8, i),
        !bit_set(0u8, i),
{
    assert((0xffu8 >> i) & 1u8 == 1u8) by (bit_vector)
        requires i < 8u8;
    assert((0u8 >> i) & 1u8 == 0u8) by (bit_vector);
}

pub proof fn lemma_pixel_index(x: int, y: int)
    requires
        in_bounds(x, y),
    ensures
        0 <= pixel_index(x, y) < 504,
{
    assert(0 <= y / 8 < 6);
    assert(0 <= (y / 8) * 84 <= 420) by (nonlinear_arith)
        requires 0 <= y / 8 < 6;
}

/// Two pixels share a byte only when they share a column and a bank.
pub proof fn lemma_pixel_index_eq(x1: int, y1: int, x2: int, y2: int)
    requires
        in_bounds(x1, y1),
        in_bounds(x2, y2),
        pixel_index(x1, y1) == pixel_index(x2, y2),
    ensures
        x1 == x2,
        y1 / 8 == y2 / 8,
{
    let b1 = y1 / 8;
    let b2 = y2 / 8;
    assert(b1 == b2) by (nonlinear_arith)
        requires b1 * 84 + x1 == b2 * 84 + x2, 0 <= x1 < 84, 0 <= x2 < 84, 0 <= b1, 0 <= b2;
}

/// Sets (`on`) or clears bit `bit` of `b`.
pub fn set_bit(b: u8, bit: u8, on: bool) -> (r: u8)
    requires
        bit < 8,
    ensures
        r == with_bit(b, bit, on),
{
    let mask: u8 = 1u8 << bit;
    if on {
        b | mask
    } else {
        b & !mask
    }
}

} // verus!
