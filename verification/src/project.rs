//! The projection module: ray distances to screen-space wall columns.
//!
//! A ray cast at angle `theta` while the viewer heads along `r` sees a
//! wall at raw distance `d`; the plane-perpendicular depth is
//! `d * cos(r - theta)`, which removes the fisheye distortion of
//! projecting rays of varying angle onto a flat image plane. The wall
//! column's height is `cell * screen_h` divided by that corrected
//! depth, clamped to the screen height and centered vertically; a
//! column is suppressed (no wall drawn) when no positive height comes
//! out of the division or when the ray found no hit.

use vstd::prelude::*;

verus! {

use crate::fixed::FP_ONE;
use crate::fixed::fp_mul;
use crate::fixed::lemma_tdiv_mul_cancel;
use crate::fixed::tdiv;
use crate::raycast::MAX_CELL;
use vstd::arithmetic::div_mod::lemma_div_is_ordered;
use vstd::arithmetic::div_mod::lemma_div_is_ordered_by_denominator;
use vstd::arithmetic::div_mod::lemma_div_multiples_vanish;
use vstd::arithmetic::div_mod::lemma_div_nonincreasing;

/// Magnitude cap on distances handed to the projection.
pub const MAX_DIST: i64 = 0x4000_0000_0000;

/// Largest accepted screen dimension, in pixels.
pub const MAX_SCREEN: i64 = 0x10000;

/// A drawable wall-column rectangle, in pixels.
#[derive(Clone, Copy, Debug, PartialEq, Eq, Structural)]
pub struct WallColumn {
    /// Leftmost pixel column of the rectangle.
    pub left: i64,
    /// Topmost pixel row of the rectangle.
    pub top: i64,
    /// Width in pixels: one ray's fixed-width column.
    pub width: i64,
    /// Height in pixels.
    pub height: i64,
}

/// The fisheye-corrected depth: the raw distance scaled by the
/// fixed-point cosine of the angular deviation from the centerline.
pub open spec fn corrected_spec(dist: int, cos_dev: int) -> int {
    tdiv(dist * cos_dev, FP_ONE as int)
}

/// The projected wall height before suppression: the cell size times
/// the screen height, divided by the corrected depth and clamped to
/// the screen height.
pub open spec fn wall_height_spec(cell: int, screen_h: int, corrected: int) -> int
    recommends
        corrected > 0,
{
    let raw = (cell * screen_h) / corrected;
    if raw > screen_h {
        screen_h
    } else {
        raw
    }
}

/// The projected wall slice for one ray: `Some((top, height))` with
/// the slice centered vertically, or `None` when the column is
/// suppressed — a non-positive raw distance (no hit found), a
/// non-positive corrected depth, or a height that rounds to zero.
pub open spec fn wall_slice_spec(dist: int, cos_dev: int, cell: int, screen_h: int) -> Option<
    (int, int),
> {
    if dist <= 0 {
        None
    } else {
        let corr = corrected_spec(dist, cos_dev);
        if corr <= 0 {
            None
        } else {
            let h = wall_height_spec(cell, screen_h, corr);
            if h <= 0 {
                None
            } else {
                Some((screen_h / 2 - h / 2, h))
            }
        }
    }
}

/// Applies fisheye correction to a ray distance. At zero angular
/// deviation the cosine is one and the corrected distance equals the
/// raw distance exactly.
pub fn corrected_distance(dist: i64, cos_dev: i64) -> (r: i64)
    requires
        -MAX_DIST <= dist <= MAX_DIST,
        -FP_ONE <= cos_dev <= FP_ONE,
    ensures
        r == corrected_spec(dist as int, cos_dev as int),
        cos_dev == FP_ONE ==> r == dist,
{
    proof {
        if cos_dev == FP_ONE {
            lemma_tdiv_mul_cancel(dist as int, FP_ONE as int);
        }
    }
    fp_mul(cos_dev, dist)
}

/// Computes the wall slice for one ray: the corrected depth, the
/// clamped height, and the vertical centering, or the suppression
/// sentinel. Any hit at corrected depth within one cell size fills the
/// whole screen height.
pub fn wall_slice(dist: i64, cos_dev: i64, cell: i64, screen_h: i64) -> (r: Option<(i64, i64)>)
    requires
        -MAX_DIST <= dist <= MAX_DIST,
        -FP_ONE <= cos_dev <= FP_ONE,
        1 <= cell <= MAX_CELL,
        1 <= screen_h <= MAX_SCREEN,
    ensures
        r is Some <==> wall_slice_spec(dist as int, cos_dev as int, cell as int, screen_h as int)
            is Some,
        r is Some ==> {
            let s = wall_slice_spec(dist as int, cos_dev as int, cell as int, screen_h as int);
            r.unwrap().0 == s.unwrap().0 && r.unwrap().1 == s.unwrap().1
        },
        dist > 0 && 0 < corrected_spec(dist as int, cos_dev as int) <= cell ==> r is Some
            && r.unwrap().1 == screen_h,
{
    if dist <= 0 {
        return None;
    }
    let corr: i64 = fp_mul(cos_dev, dist);
    proof {
        assert((cos_dev as int) * (dist as int) == (dist as int) * (cos_dev as int));
        assert(corr == corrected_spec(dist as int, cos_dev as int));
    }
    if corr <= 0 {
        return None;
    }
    proof {
        assert((cell as int) * (screen_h as int) <= MAX_CELL * (MAX_SCREEN as int)) by (
        nonlinear_arith)
            requires
                1 <= cell <= MAX_CELL,
                1 <= screen_h <= MAX_SCREEN,
        ;
    }
    let num: u64 = (cell as u64) * (screen_h as u64);
    let raw_u: u64 = num / (corr as u64);
    proof {
        lemma_div_nonincreasing(num as int, corr as int);
        if corr <= cell {
            lemma_div_is_ordered_by_denominator(num as int, corr as int, cell as int);
            lemma_div_multiples_vanish(screen_h as int, cell as int);
            assert(cell * screen_h == (cell as int) * (screen_h as int));
            assert(num as int / cell as int == screen_h as int);
        }
    }
    let raw: i64 = raw_u as i64;
    let h: i64 = if raw > screen_h {
        screen_h
    } else {
        raw
    };
    if h <= 0 {
        return None;
    }
    let top: i64 = ((screen_h as u64) / 2 - (h as u64) / 2) as i64;
    proof {
        lemma_div_is_ordered(h as int, screen_h as int, 2);
        lemma_div_nonincreasing(screen_h as int, 2);
    }
    Some((top, h))
}

/// For a fixed hit, the projected wall height is a non-increasing
/// function of the corrected distance: a wall seen at greater depth is
/// never drawn taller.
pub proof fn lemma_wall_height_monotone(cell: int, screen_h: int, c1: int, c2: int)
    requires
        1 <= cell,
        1 <= screen_h,
        0 < c1 <= c2,
    ensures
        wall_height_spec(cell, screen_h, c1) >= wall_height_spec(cell, screen_h, c2),
{
    assert(cell * screen_h >= 0) by (nonlinear_arith)
        requires
            cell >= 1 && screen_h >= 1,
    ;
    lemma_div_is_ordered_by_denominator(cell * screen_h, c1, c2);
}

/// The fixed pixel width of one ray's screen column: the screen width
/// divided by the field of view in degrees, rays being cast at
/// one-degree increments.
pub fn pixels_per_column(screen_w: i64, fov_degrees: i64) -> (r: i64)
    requires
        0 <= screen_w <= MAX_SCREEN,
        1 <= fov_degrees <= MAX_SCREEN,
    ensures
        r == screen_w as int / fov_degrees as int,
{
    ((screen_w as u64) / (fov_degrees as u64)) as i64
}

/// The full drawable rectangle for the ray of column `col_index`
/// (counted from the left edge of the fan): the slice from
/// `wall_slice` placed in the ray's fixed-width column, or the
/// suppression sentinel.
pub fn column_rect(
    col_index: i64,
    ppc: i64,
    dist: i64,
    cos_dev: i64,
    cell: i64,
    screen_h: i64,
) -> (r: Option<WallColumn>)
    requires
        0 <= col_index <= MAX_SCREEN,
        0 <= ppc <= MAX_SCREEN,
        -MAX_DIST <= dist <= MAX_DIST,
        -FP_ONE <= cos_dev <= FP_ONE,
        1 <= cell <= MAX_CELL,
        1 <= screen_h <= MAX_SCREEN,
    ensures
        r is Some <==> wall_slice_spec(dist as int, cos_dev as int, cell as int, screen_h as int)
            is Some,
        r is Some ==> {
            let s = wall_slice_spec(dist as int, cos_dev as int, cell as int, screen_h as int);
            r.unwrap().left == col_index * ppc && r.unwrap().width == ppc && r.unwrap().top
                == s.unwrap().0 && r.unwrap().height == s.unwrap().1
        },
{
    proof {
        assert(0 <= col_index * ppc <= (MAX_SCREEN as int) * (MAX_SCREEN as int)) by (
        nonlinear_arith)
            requires
                0 <= col_index <= MAX_SCREEN,
                0 <= ppc <= MAX_SCREEN,
        ;
    }
    let slice = wall_slice(dist, cos_dev, cell, screen_h);
    match slice {
        None => None,
        Some((top, height)) => Some(
            WallColumn { left: col_index * ppc, top, width: ppc, height },
        ),
    }
}

} // verus!
