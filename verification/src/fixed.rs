//! Fixed-point conventions and the scalar conversions built on them.
//!
//! Coordinates are 24.8 fixed point: 256 sub-pixel units per pixel. A pixel
//! row or column with index `p` spans the units `256 * p .. 256 * (p + 1)`.
use vstd::prelude::*;

verus! {

/// Number of fractional bits of a coordinate.
pub const PIXEL_BITS: i32 = 8;

/// One pixel, in sub-pixel units.
pub const ONE_PIXEL: i32 = 256;

/// Mask of the fractional bits of a coordinate.
pub const PIXEL_MASK: i32 = 255;

/// Full-coverage alpha: twice the area of a pixel in square sub-pixel units.
pub const FULL_COVERAGE: i32 = 131072;

/// `v` is representable as an `i32`.
pub open spec fn in_i32(v: int) -> bool {
    i32::MIN <= v <= i32::MAX
}

/// The nearest value to `v` in `lo ..= hi`.
pub open spec fn clamp(v: int, lo: int, hi: int) -> int {
    if v < lo {
        lo
    } else if v > hi {
        hi
    } else {
        v
    }
}

pub open spec fn min(a: int, b: int) -> int {
    if a <= b {
        a
    } else {
        b
    }
}

pub open spec fn max(a: int, b: int) -> int {
    if a >= b {
        a
    } else {
        b
    }
}

pub open spec fn abs(v: int) -> int {
    if v >= 0 {
        v
    } else {
        -v
    }
}

/// Division that truncates toward zero, for `d > 0`.
pub open spec fn trunc_div(n: int, d: int) -> int {
    if n >= 0 {
        n / d
    } else {
        -((-n) / d)
    }
}

/// An alpha in `0 ..= FULL_COVERAGE` scaled to `0 ..= 255`, rounded to
/// nearest.
pub open spec fn alpha_byte(alpha: int) -> int {
    (alpha * 255 + 65536) / 131072
}

/// The value of `v` saturated to the `i32` range.
pub fn clamp_i64_to_i32(v: i64) -> (r: i32)
    ensures
        r == clamp(v as int, i32::MIN as int, i32::MAX as int),
        in_i32(v as int) ==> r == v,
        v < i32::MIN ==> r == i32::MIN,
        v > i32::MAX ==> r == i32::MAX,
{
    if v < i32::MIN as i64 {
        i32::MIN
    } else if v > i32::MAX as i64 {
        i32::MAX
    } else {
        v as i32
    }
}

/// Scale an alpha to a byte, rounding to nearest. Alphas above
/// `FULL_COVERAGE` keep the low eight bits of the scaled value.
pub fn alpha_to_byte(alpha: i32) -> (r: u8)
    requires
        0 <= alpha,
        alpha * 255 + 65536 <= u32::MAX,
    ensures
        r == alpha_byte(alpha as int) % 256,
        alpha <= FULL_COVERAGE ==> r == alpha_byte(alpha as int),
{
    let scaled: u32 = alpha as u32 * 255 + FULL_COVERAGE as u32 / 2;
    assert(scaled >> 17u32 == scaled / 131072) by (bit_vector);
    let shifted: u32 = scaled >> 17;
    assert(shifted as u8 == shifted % 256) by (bit_vector);
    #[verifier::truncate]
    let byte: u8 = shifted as u8;
    byte
}

/// The pixel that holds the coordinate `v`: its floor in whole pixels.
pub(crate) fn pixel_of(v: i32) -> (r: i32)
    ensures
        r == (v as int) / 256,
{
    assert(v >> 8i32 == (v as int) / 256) by (bit_vector);
    v >> PIXEL_BITS
}

/// The position of the coordinate `v` within its pixel.
pub(crate) fn fraction_of(v: i32) -> (r: i32)
    ensures
        r == (v as int) % 256,
{
    assert(v & 255i32 == (v as int) % 256) by (bit_vector);
    v & PIXEL_MASK
}

/// The absolute value of `v`.
pub(crate) fn magnitude(v: i64) -> (r: i64)
    requires
        v > i64::MIN,
    ensures
        r == abs(v as int),
{
    if v < 0 {
        -v
    } else {
        v
    }
}

/// Multiplication by a direction.
pub proof fn lemma_signed(v: int, wind: int)
    by (nonlinear_arith)
    requires
        wind == 1 || wind == -1,
    ensures
        v * wind == if wind == 1 {
            v
        } else {
            -v
        },
{
}

} // verus!
