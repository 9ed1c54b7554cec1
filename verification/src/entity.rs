//! The entity motion model: a viewer pose of position and heading.
//!
//! Position `(x, z)` is in fixed-point world units; `y` is a reserved
//! vertical coordinate that raycasting never reads. The heading `r` is
//! an angle in fixed-point radians, kept within `(-2pi, 2pi)` by one
//! wrap adjustment after each turn; it is not normalized further.
//!
//! Moves are expressed in the entity's local frame. The trigonometric
//! factors are data, not computed here: the platform layer hands each
//! move the fixed-point sine and cosine of the relevant angle, and the
//! contracts state the new pose exactly in terms of those factors.

use vstd::prelude::*;

verus! {

use crate::fixed::FP_ONE;
use crate::fixed::fp_mul;
use crate::fixed::tdiv;

/// Two pi in fixed-point radians, rounded to the nearest unit.
pub const TWO_PI_FP: i64 = 411775;

/// Magnitude cap on a position coordinate accepted by the move
/// operations.
pub const MAX_POS: i64 = 0x4000_0000_0000;

/// Magnitude cap on a single move distance.
pub const MAX_MOVE: i64 = 0x4_0000_0000;

/// The heading invariant: wrapped into the open interval `(-2pi, 2pi)`.
pub open spec fn heading_wrapped(r: int) -> bool {
    -TWO_PI_FP < r < TWO_PI_FP
}

/// The heading after turning by `delta`: the sum, with exactly one
/// wrap adjustment when it leaves `(-2pi, 2pi)`.
pub open spec fn turn_spec(r: int, delta: int) -> int {
    let t = r + delta;
    if t >= TWO_PI_FP {
        t - TWO_PI_FP
    } else if t < -TWO_PI_FP {
        t + TWO_PI_FP
    } else {
        t
    }
}

/// The camera/viewer pose.
pub struct Entity {
    /// Position along the x axis, fixed-point world units.
    pub x: i64,
    /// Reserved vertical coordinate; not used by raycasting.
    pub y: i64,
    /// Position along the z axis, fixed-point world units.
    pub z: i64,
    /// Heading in fixed-point radians; 0 points along positive z,
    /// increasing values rotate toward positive x.
    pub r: i64,
}

impl Entity {
    /// Advances along the current heading: `sin_r` and `cos_r` are the
    /// fixed-point sine and cosine of the heading `r`. A negative
    /// `dist` reverses.
    pub fn move_forward(&mut self, sin_r: i64, cos_r: i64, dist: i64)
        requires
            -FP_ONE <= sin_r <= FP_ONE,
            -FP_ONE <= cos_r <= FP_ONE,
            -MAX_MOVE <= dist <= MAX_MOVE,
            -MAX_POS <= old(self).x <= MAX_POS,
            -MAX_POS <= old(self).z <= MAX_POS,
        ensures
            final(self).x == old(self).x + tdiv(sin_r * dist, FP_ONE as int),
            final(self).z == old(self).z + tdiv(cos_r * dist, FP_ONE as int),
            final(self).y == old(self).y,
            final(self).r == old(self).r,
    {
        self.x = self.x + fp_mul(sin_r, dist);
        self.z = self.z + fp_mul(cos_r, dist);
    }

    /// Strafes sideways: `sin_s` and `cos_s` are the fixed-point sine
    /// and cosine of `r - pi/2`, a quarter turn from the heading.
    pub fn move_strafe(&mut self, sin_s: i64, cos_s: i64, dist: i64)
        requires
            -FP_ONE <= sin_s <= FP_ONE,
            -FP_ONE <= cos_s <= FP_ONE,
            -MAX_MOVE <= dist <= MAX_MOVE,
            -MAX_POS <= old(self).x <= MAX_POS,
            -MAX_POS <= old(self).z <= MAX_POS,
        ensures
            final(self).x == old(self).x + tdiv(sin_s * dist, FP_ONE as int),
            final(self).z == old(self).z + tdiv(cos_s * dist, FP_ONE as int),
            final(self).y == old(self).y,
            final(self).r == old(self).r,
    {
        self.x = self.x + fp_mul(sin_s, dist);
        self.z = self.z + fp_mul(cos_s, dist);
    }

    /// Turns by `delta` radians and re-wraps the heading once. For any
    /// turn of at most a full revolution, a heading that satisfies the
    /// wrap invariant keeps it: repeated small turns never leave
    /// `(-2pi, 2pi)`. The one sum the wrap test does not catch, landing
    /// on `-2pi` exactly, is excluded.
    pub fn turn(&mut self, delta: i64)
        requires
            -TWO_PI_FP <= delta <= TWO_PI_FP,
            old(self).r + delta != -TWO_PI_FP,
            heading_wrapped(old(self).r as int),
        ensures
            final(self).r == turn_spec(old(self).r as int, delta as int),
            heading_wrapped(final(self).r as int),
            final(self).x == old(self).x,
            final(self).y == old(self).y,
            final(self).z == old(self).z,
    {
        self.r = self.r + delta;
        if self.r >= TWO_PI_FP {
            self.r = self.r - TWO_PI_FP;
        } else if self.r < -TWO_PI_FP {
            self.r = self.r + TWO_PI_FP;
        }
    }
}

} // verus!
