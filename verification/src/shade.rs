//! Conversion of a row's accumulators to alpha bytes.
use crate::fixed;
use crate::fixed::{alpha_to_byte, magnitude, FULL_COVERAGE};
use vstd::prelude::*;

verus! {

/// Doubled area of a full-width cell per unit of cover.
pub const COVER_SCALE: i64 = 512;

/// Sum of the covers of the columns `from .. to`.
pub open spec fn cover_sum(cover: Seq<i32>, from: int, to: int) -> int
    decreases to - from,
{
    if to <= from {
        0
    } else {
        cover_sum(cover, from, to - 1) + cover[to - 1]
    }
}

/// Alpha of a cell: the doubled area right of the edges, given the cover
/// accumulated through the cell's column and the doubled area left of the
/// edges. Both directions of winding fill, and no cell is filled twice.
pub open spec fn cell_alpha(accum: int, area: int) -> int {
    fixed::min(fixed::abs(512 * accum - area), 131072)
}

/// The byte of a cell from its accumulated cover and its area.
pub(crate) fn cell_byte(accum: i32, area: i32) -> (r: u8)
    ensures
        r == fixed::alpha_byte(cell_alpha(accum as int, area as int)),
{
    // Heavily overlapping edges scale to more than 32 bits.
    let mut alpha: i64 = magnitude(accum as i64 * COVER_SCALE - area as i64);
    if alpha > FULL_COVERAGE as i64 {
        alpha = FULL_COVERAGE as i64;
    }
    alpha_to_byte(alpha as i32)
}

/// Convert cover-delta + area to alpha bytes, then clear them.
/// Returns the final cover accumulator over `[x_min, x_max]`.
pub fn sweep_row_to_alpha(
    row_buf: &mut [u8],
    area: &mut [i32],
    cover: &mut [i32],
    x_min: usize,
    x_max: usize,
) -> (accum: i32)
    requires
        x_min <= x_max ==> {
            &&& x_max < old(row_buf).len()
            &&& x_max < old(area).len()
            &&& x_max < old(cover).len()
        },
        forall|x: int|
            x_min <= x <= x_max ==> fixed::in_i32(
                #[trigger] cover_sum(old(cover)@, x_min as int, x + 1),
            ),
    ensures
        accum == cover_sum(old(cover)@, x_min as int, x_max + 1),
        final(row_buf).len() == old(row_buf).len(),
        final(area).len() == old(area).len(),
        final(cover).len() == old(cover).len(),
        forall|x: int|
            0 <= x < old(row_buf).len() ==> #[trigger] final(row_buf)[x] == if x_min <= x <= x_max {
                fixed::alpha_byte(
                    cell_alpha(
                        cover_sum(old(cover)@, x_min as int, x + 1),
                        old(area)[x] as int,
                    ),
                )
            } else {
                old(row_buf)[x] as int
            },
        forall|x: int|
            0 <= x < old(area).len() ==> #[trigger] final(area)[x] == if x_min <= x <= x_max {
                0
            } else {
                old(area)[x]
            },
        forall|x: int|
            0 <= x < old(cover).len() ==> #[trigger] final(cover)[x] == if x_min <= x <= x_max {
                0
            } else {
                old(cover)[x]
            },
{
    let mut cover_accum: i32 = 0;
    let ghost area0 = area@;
    let ghost cover0 = cover@;
    let ghost buf0 = row_buf@;
    if x_min > x_max {
        return cover_accum;
    }
    let mut x: usize = x_min;
    while x <= x_max
        invariant
            x_min <= x <= x_max + 1,
            x_max < row_buf.len(),
            x_max < area.len(),
            x_max < cover.len(),
            area@.len() == area0.len(),
            cover@.len() == cover0.len(),
            row_buf@.len() == buf0.len(),
            cover_accum == cover_sum(cover0, x_min as int, x as int),
            forall|i: int|
                x_min <= i <= x_max ==> fixed::in_i32(
                    #[trigger] cover_sum(cover0, x_min as int, i + 1),
                ),
            forall|i: int|
                0 <= i < buf0.len() ==> #[trigger] row_buf[i] == if x_min <= i < x {
                    fixed::alpha_byte(
                        cell_alpha(cover_sum(cover0, x_min as int, i + 1), area0[i] as int),
                    )
                } else {
                    buf0[i] as int
                },
            forall|i: int|
                0 <= i < area0.len() ==> #[trigger] area[i] == if x_min <= i < x {
                    0
                } else {
                    area0[i]
                },
            forall|i: int|
                0 <= i < cover0.len() ==> #[trigger] cover[i] == if x_min <= i < x {
                    0
                } else {
                    cover0[i]
                },
        decreases x_max + 1 - x,
    {
        assert(area0[x as int] == area[x as int]);
        assert(cover0[x as int] == cover[x as int]);
        assert(cover_sum(cover0, x_min as int, x + 1) == cover_accum + cover0[x as int]);
        cover_accum = cover_accum + cover[x];
        row_buf[x] = cell_byte(cover_accum, area[x]);
        area[x] = 0;
        cover[x] = 0;
        x = x + 1;
    }
    cover_accum
}

} // verus!
