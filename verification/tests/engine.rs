// Tests of the grid map and the raycast engine.

use raycaster3d::grid::GridMap;
use raycaster3d::raycast::{cast, RayHit};

const S: i64 = 65536;

fn ring_map_with(extra_wall: Option<(usize, usize)>) -> Vec<Vec<u8>> {
    let mut tiles: Vec<Vec<u8>> = Vec::new();
    for x in 0..4usize {
        let mut row: Vec<u8> = Vec::new();
        for z in 0..4usize {
            let border = x == 0 || x == 3 || z == 0 || z == 3;
            let wall = border || extra_wall == Some((x, z));
            row.push(if wall { 1 } else { 0 });
        }
        tiles.push(row);
    }
    tiles
}

#[test]
fn grid_accepts_walled_ring() {
    let m = GridMap::new(ring_map_with(None));
    assert!(m.is_some());
    let m = m.unwrap();
    assert_eq!(m.width(), 4);
    assert_eq!(m.height(), 4);
    assert_eq!(m.tile_at(0, 0), 1);
    assert_eq!(m.tile_at(1, 1), 0);
    assert_eq!(m.tile_at(3, 2), 1);
}

#[test]
fn grid_refuses_open_ring() {
    let mut tiles = ring_map_with(None);
    tiles[0][2] = 0;
    assert!(GridMap::new(tiles).is_none());
}

#[test]
fn grid_refuses_ragged_rows() {
    let mut tiles = ring_map_with(None);
    tiles[2].push(1);
    assert!(GridMap::new(tiles).is_none());
}

#[test]
fn grid_refuses_empty() {
    assert!(GridMap::new(Vec::new()).is_none());
}

#[test]
fn demo_map_matches_maze() {
    let m = GridMap::demo_map();
    assert_eq!(m.width(), 16);
    assert_eq!(m.height(), 16);
    // outer ring
    assert_eq!(m.tile_at(0, 7), 1);
    assert_eq!(m.tile_at(15, 7), 1);
    assert_eq!(m.tile_at(7, 0), 1);
    assert_eq!(m.tile_at(7, 15), 1);
    // inner ring of walls
    assert_eq!(m.tile_at(4, 8), 1);
    assert_eq!(m.tile_at(12, 8), 1);
    assert_eq!(m.tile_at(8, 4), 1);
    assert_eq!(m.tile_at(8, 12), 1);
    // open space
    assert_eq!(m.tile_at(1, 1), 0);
    assert_eq!(m.tile_at(8, 8), 0);
    assert_eq!(m.tile_at(13, 13), 0);
}

#[test]
fn boundary_scenario_exits_at_z_bound() {
    // Origin (80, 80), angle 0, cell size 64, demo maze, bounds
    // 640 x 480: the ray runs up the open column x tile 1, crosses the
    // z bound at 480 before any wall in its lane, and stops just past
    // it with the travel it accumulated.
    let m = GridMap::demo_map();
    let hit = cast(&m, 80 * S, 80 * S, 0, S, 64 * S, 640 * S, 480 * S);
    assert_eq!(hit, RayHit { x: 80 * S, z: 512 * S, dist: 432 * S });
}

#[test]
fn cardinal_ray_distance_is_euclidean() {
    // From the center of open tile (1, 1), straight along negative z
    // at the wall tile (1, 0): the returned distance is exactly the
    // distance to the open/wall boundary at z = 64.
    let m = GridMap::demo_map();
    let hit = cast(&m, 96 * S, 96 * S, 0, -S, 64 * S, 640 * S, 480 * S);
    assert_eq!(hit, RayHit { x: 96 * S, z: 64 * S, dist: 32 * S });
}

#[test]
fn corridor_distance_scales_with_cell_size() {
    // Angle 0 from the center of tile (1, 1): 13 open tiles ahead,
    // wall at tile (1, 15). Distance is n*cell - cell/2 for both cell
    // sizes, proportional to the cell size.
    let m = GridMap::demo_map();
    let hit = cast(&m, 96 * S, 96 * S, 0, S, 64 * S, 2000 * S, 2000 * S);
    assert_eq!(hit, RayHit { x: 96 * S, z: 896 * S, dist: 800 * S });
    let hit2 = cast(&m, 48 * S, 48 * S, 0, S, 32 * S, 2000 * S, 2000 * S);
    assert_eq!(hit2, RayHit { x: 48 * S, z: 448 * S, dist: 400 * S });
}

#[test]
fn cast_is_deterministic() {
    let m = GridMap::demo_map();
    let a = cast(&m, 80 * S, 80 * S, 46341, 46341, 64 * S, 640 * S, 480 * S);
    let b = cast(&m, 80 * S, 80 * S, 46341, 46341, 64 * S, 640 * S, 480 * S);
    assert_eq!(a, b);
}

#[test]
fn adjacent_wall_in_positive_direction_stops_at_origin() {
    // The starting tile index is offset by +1 along a positive
    // direction component, so a ray aimed at a wall in the very next
    // tile stops before travelling: distance 0 at the origin.
    let mut tiles = ring_map_with(Some((1, 2)));
    tiles[1][2] = 1;
    let m = GridMap::new(tiles).unwrap();
    let hit = cast(&m, 96 * S, 96 * S, 0, S, 64 * S, 256 * S, 256 * S);
    assert_eq!(hit, RayHit { x: 96 * S, z: 96 * S, dist: 0 });
}

#[test]
fn cardinal_x_ray_distance_is_euclidean() {
    // A zero z direction component makes the z axis unreachable: the
    // ray advances along x only. From the center of open tile (1, 1)
    // straight along negative x at the ring wall tile (0, 1), the
    // returned distance is exactly the distance to the boundary at
    // x = 64.
    let m = GridMap::demo_map();
    let hit = cast(&m, 96 * S, 96 * S, -S, 0, 64 * S, 640 * S, 480 * S);
    assert_eq!(hit, RayHit { x: 64 * S, z: 96 * S, dist: 32 * S });
}

#[test]
fn cardinal_x_ray_positive_direction() {
    // Straight along positive x from the center of tile (1, 1): the
    // lane at tile row 1 is open all the way, so the ray crosses the
    // x bound at 640 and stops just on it with the travel it
    // accumulated.
    let m = GridMap::demo_map();
    let hit = cast(&m, 96 * S, 96 * S, S, 0, 64 * S, 640 * S, 480 * S);
    assert_eq!(hit, RayHit { x: 640 * S, z: 96 * S, dist: 544 * S });
}

#[test]
fn origin_on_bound_stops_immediately() {
    let m = GridMap::demo_map();
    let hit = cast(&m, 0, 80 * S, 0, S, 64 * S, 640 * S, 480 * S);
    assert_eq!(hit, RayHit { x: 0, z: 80 * S, dist: 0 });
}

#[test]
fn diagonal_ray_accumulates_both_axes() {
    // A 45-degree ray from the center of tile (1, 1): both direction
    // components equal, the tie at each corner goes to the z axis.
    let m = GridMap::demo_map();
    let hit = cast(&m, 96 * S, 96 * S, 46341, 46341, 64 * S, 640 * S, 480 * S);
    // The same call twice is identical, and the hit lies on a grid
    // line within the maze.
    assert_eq!(hit, cast(&m, 96 * S, 96 * S, 46341, 46341, 64 * S, 640 * S, 480 * S));
    assert!(hit.dist > 0);
    assert!(hit.x > 96 * S && hit.z > 96 * S);
}
