// Tests of the entity motion model and the projection module.

use raycaster3d::entity::{Entity, TWO_PI_FP};
use raycaster3d::project::{
    column_rect, corrected_distance, pixels_per_column, wall_slice, WallColumn,
};

const S: i64 = 65536;

#[test]
fn fisheye_identity_at_zero_deviation() {
    // cos(0) is one in fixed point: the corrected distance equals the
    // raw distance exactly.
    assert_eq!(corrected_distance(12345, S), 12345);
    assert_eq!(corrected_distance(432 * S, S), 432 * S);
    assert_eq!(corrected_distance(-7, S), -7);
}

#[test]
fn fisheye_scales_by_cosine() {
    // cos in fixed point 32768 is one half: the depth halves.
    assert_eq!(corrected_distance(S, 32768), 32768);
    assert_eq!(corrected_distance(100 * S, 32768), 50 * S);
}

#[test]
fn wall_height_non_increasing_in_distance() {
    let heights: Vec<i64> = [64, 96, 128, 256, 512, 1024]
        .iter()
        .map(|d| wall_slice(d * S, S, 64 * S, 480).map_or(0, |(_, h)| h))
        .collect();
    for w in heights.windows(2) {
        assert!(w[0] >= w[1]);
    }
}

#[test]
fn wall_height_clamped_for_close_hits() {
    // Any corrected depth within one cell size fills the screen.
    assert_eq!(wall_slice(64 * S, S, 64 * S, 480), Some((0, 480)));
    assert_eq!(wall_slice(S, S, 64 * S, 480), Some((0, 480)));
}

#[test]
fn wall_slice_exact_midrange_value() {
    // Depth of two cells: height 240 of 480, centered at top 120.
    assert_eq!(wall_slice(128 * S, S, 64 * S, 480), Some((120, 240)));
    // Depth of four cells: height 120, top 180.
    assert_eq!(wall_slice(256 * S, S, 64 * S, 480), Some((180, 120)));
}

#[test]
fn wall_slice_suppressed_without_hit() {
    // A non-positive distance marks a ray that found no wall.
    assert_eq!(wall_slice(0, S, 64 * S, 480), None);
    assert_eq!(wall_slice(-5 * S, S, 64 * S, 480), None);
    // A non-positive corrected depth is suppressed too.
    assert_eq!(wall_slice(100 * S, -S, 64 * S, 480), None);
    assert_eq!(wall_slice(100 * S, 0, 64 * S, 480), None);
    // A wall so distant its height rounds to zero draws nothing.
    assert_eq!(wall_slice(64 * 481 * S, S, 64 * S, 480), None);
}

#[test]
fn column_layout_matches_field_of_view() {
    assert_eq!(pixels_per_column(640, 60), 10);
    assert_eq!(pixels_per_column(640, 64), 10);
    let rect = column_rect(3, 10, 128 * S, S, 64 * S, 480);
    assert_eq!(rect, Some(WallColumn { left: 30, top: 120, width: 10, height: 240 }));
    assert_eq!(column_rect(3, 10, 0, S, 64 * S, 480), None);
}

#[test]
fn turn_wrap_keeps_heading_in_range() {
    // 63 turns of +0.1 radians, about a full revolution in total:
    // the heading never leaves (-2pi, 2pi).
    let mut e = Entity { x: 80 * S, y: 0, z: 80 * S, r: 0 };
    let tenth: i64 = 6554;
    for _ in 0..63 {
        e.turn(tenth);
        assert!(-TWO_PI_FP < e.r && e.r < TWO_PI_FP);
    }
    assert_eq!(e.r, 63 * tenth - TWO_PI_FP);
}

#[test]
fn turn_wraps_in_both_directions() {
    let mut e = Entity { x: 0, y: 0, z: 0, r: 411000 };
    e.turn(1000);
    assert_eq!(e.r, 412000 - TWO_PI_FP);
    let mut e2 = Entity { x: 0, y: 0, z: 0, r: -411000 };
    e2.turn(-1000);
    assert_eq!(e2.r, -412000 + TWO_PI_FP);
    let mut e3 = Entity { x: 0, y: 0, z: 0, r: 100 };
    e3.turn(-200);
    assert_eq!(e3.r, -100);
}

#[test]
fn move_forward_along_heading() {
    // Heading 0 points along positive z: sin 0, cos 1.
    let mut e = Entity { x: 80 * S, y: 0, z: 80 * S, r: 0 };
    e.move_forward(0, S, 2 * S);
    assert_eq!(e.x, 80 * S);
    assert_eq!(e.z, 82 * S);
    e.move_forward(0, S, -2 * S);
    assert_eq!(e.z, 80 * S);
    // A diagonal heading advances both axes, truncating toward zero.
    let mut d = Entity { x: 0, y: 0, z: 0, r: 0 };
    d.move_forward(46341, 46341, 100);
    assert_eq!(d.x, 70);
    assert_eq!(d.z, 70);
}

#[test]
fn move_strafe_quarter_turn_from_heading() {
    // Heading 0: the strafe angle is -pi/2, whose sine and cosine are
    // -1 and 0; a positive distance strafes toward negative x.
    let mut e = Entity { x: 80 * S, y: 0, z: 80 * S, r: 0 };
    e.move_strafe(-S, 0, 2 * S);
    assert_eq!(e.x, 78 * S);
    assert_eq!(e.z, 80 * S);
}
