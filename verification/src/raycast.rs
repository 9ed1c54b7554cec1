//! The raycast engine: grid DDA traversal.
//!
//! Given an origin, a direction (the fixed-point sine and cosine of the
//! cast angle), a grid cell size and world bounds, the engine walks the
//! grid line by line and returns the final position and accumulated
//! travel distance when it stops: at an occupied tile, on leaving the
//! bounds rectangle, or on leaving the map's index space.
//!
//! The whole traversal is pinned down by the recursive specification
//! `dda_run`: `cast` returns exactly the state that `cast_spec`
//! computes from its arguments, so two casts with identical arguments
//! return identical results.

use vstd::prelude::*;

verus! {

use crate::fixed::FP_ONE;
use crate::fixed::fp_mul;
use crate::fixed::iabs;
use crate::fixed::lemma_tdiv_mul_cancel;
use crate::fixed::tdiv;
use crate::fixed::trunc_div;
use crate::grid::GridMap;
use crate::grid::grid_wf;
use vstd::arithmetic::div_mod::lemma_div_is_ordered;
use vstd::arithmetic::div_mod::lemma_div_is_ordered_by_denominator;
use vstd::arithmetic::div_mod::lemma_div_is_strictly_smaller;
use vstd::arithmetic::div_mod::lemma_div_multiples_vanish;
use vstd::arithmetic::div_mod::lemma_div_of0;
use vstd::arithmetic::div_mod::lemma_div_pos_is_pos;
use vstd::arithmetic::div_mod::lemma_fundamental_div_mod;
use vstd::arithmetic::div_mod::lemma_fundamental_div_mod_converse_div;
use vstd::arithmetic::div_mod::lemma_mod_division_less_than_divisor;

/// Magnitude cap on world bounds and origin coordinates.
pub const MAX_WORLD: i64 = 0x4_0000_0000;

/// Largest accepted grid cell size, in fixed-point world units.
pub const MAX_CELL: i64 = 0x100_0000;

/// The transient result of one raycast: the exit point in fixed-point
/// world units and the accumulated travel distance.
#[derive(Clone, Copy, Debug, PartialEq, Eq, Structural)]
pub struct RayHit {
    pub x: i64,
    pub z: i64,
    pub dist: i64,
}

/// The traversal state: continuous position, accumulated distance, and
/// the tile indices of the next grid-line crossing on each axis.
pub ghost struct DdaState {
    pub x: int,
    pub z: int,
    pub dist: int,
    pub tile_x: int,
    pub tile_z: int,
}

/// The per-axis tile step: +1 for a positive direction component, -1
/// otherwise.
pub open spec fn step_dir(d: int) -> int {
    if d > 0 {
        1
    } else {
        -1
    }
}

/// The starting tile index on one axis: the origin's tile coordinate,
/// offset by +1 where the direction component is positive, selecting
/// the near edge the ray is about to cross.
pub open spec fn start_tile(o: int, cell: int, d: int) -> int {
    o / cell + if d > 0 {
        1int
    } else {
        0int
    }
}

/// Whether the traversal stops in state `s`: the tile indices have
/// left the map's index space, the position has left the (exclusive)
/// bounds rectangle, or the tile at the current indices is occupied.
pub open spec fn ray_stopped(
    m: Seq<Seq<u8>>,
    bx: int,
    bz: int,
    x: int,
    z: int,
    tile_x: int,
    tile_z: int,
) -> bool {
    ||| !(0 <= tile_x < m.len() && 0 <= tile_z < m[0].len())
    ||| x <= 0
    ||| x >= bx
    ||| z <= 0
    ||| z >= bz
    ||| m[tile_x][tile_z] != 0
}

/// One DDA step: the parametric distance along the ray to the next
/// grid line on each axis, then an advance along the axis with the
/// strictly smaller delta — the tie goes to the z axis. An axis whose
/// direction component is exactly zero is unreachable and is never
/// advanced: the other axis is taken whatever the deltas.
pub open spec fn dda_step(cell: int, dir_x: int, dir_z: int, s: DdaState) -> DdaState {
    let line_x = s.tile_x * cell;
    let line_z = s.tile_z * cell;
    let delta_x = if dir_x == 0 {
        0
    } else {
        tdiv((line_x - s.x) * FP_ONE, dir_x)
    };
    let delta_z = if dir_z == 0 {
        0
    } else {
        tdiv((line_z - s.z) * FP_ONE, dir_z)
    };
    if dir_x != 0 && (dir_z == 0 || delta_x < delta_z) {
        DdaState {
            x: s.x + tdiv(dir_x * delta_x, FP_ONE as int),
            z: s.z + tdiv(dir_z * delta_x, FP_ONE as int),
            dist: s.dist + delta_x,
            tile_x: s.tile_x + step_dir(dir_x),
            tile_z: s.tile_z,
        }
    } else {
        DdaState {
            x: s.x + tdiv(dir_x * delta_z, FP_ONE as int),
            z: s.z + tdiv(dir_z * delta_z, FP_ONE as int),
            dist: s.dist + delta_z,
            tile_x: s.tile_x,
            tile_z: s.tile_z + step_dir(dir_z),
        }
    }
}

/// The traversal: steps until stopped, or until the step budget runs
/// out. One axis's tile index moves by one each step, and each index
/// is confined to the map while the traversal runs, so `ray_fuel`
/// steps always suffice to reach a stop.
pub open spec fn dda_run(
    m: Seq<Seq<u8>>,
    cell: int,
    bx: int,
    bz: int,
    dir_x: int,
    dir_z: int,
    s: DdaState,
    fuel: nat,
) -> DdaState
    decreases fuel,
{
    if fuel == 0 || ray_stopped(m, bx, bz, s.x, s.z, s.tile_x, s.tile_z) {
        s
    } else {
        dda_run(m, cell, bx, bz, dir_x, dir_z, dda_step(cell, dir_x, dir_z, s), (fuel - 1) as nat)
    }
}

/// The step budget: one more than the tiles a ray can cross on both
/// axes together before leaving the map's index space.
pub open spec fn ray_fuel(m: Seq<Seq<u8>>) -> nat {
    (m.len() + m[0].len() + 4) as nat
}

/// The initial traversal state for a cast.
pub open spec fn start_state(ox: int, oz: int, cell: int, dir_x: int, dir_z: int) -> DdaState {
    DdaState {
        x: ox,
        z: oz,
        dist: 0,
        tile_x: start_tile(ox, cell, dir_x),
        tile_z: start_tile(oz, cell, dir_z),
    }
}

/// What a cast returns: the full DDA traversal from the origin.
pub open spec fn cast_spec(
    m: Seq<Seq<u8>>,
    ox: int,
    oz: int,
    dir_x: int,
    dir_z: int,
    cell: int,
    bx: int,
    bz: int,
) -> DdaState {
    dda_run(m, cell, bx, bz, dir_x, dir_z, start_state(ox, oz, cell, dir_x, dir_z), ray_fuel(m))
}

/// Whether the traversal stops at the given position and tile indices.
/// The index-space and bounds tests run before the occupancy lookup,
/// so the lookup is performed only on indices inside the map.
fn stop_here(
    map: &GridMap,
    tile_x: i64,
    tile_z: i64,
    pos_x: i64,
    pos_z: i64,
    bounds_x: i64,
    bounds_z: i64,
) -> (b: bool)
    requires
        map.wf(),
    ensures
        b == ray_stopped(
            map@,
            bounds_x as int,
            bounds_z as int,
            pos_x as int,
            pos_z as int,
            tile_x as int,
            tile_z as int,
        ),
{
    let w: usize = map.width();
    let h: usize = map.height();
    if tile_x < 0 || tile_x >= w as i64 || tile_z < 0 || tile_z >= h as i64 {
        return true;
    }
    if pos_x <= 0 || pos_x >= bounds_x || pos_z <= 0 || pos_z >= bounds_z {
        return true;
    }
    map.tile_at(tile_x as usize, tile_z as usize) != 0
}

/// Casts a ray from `(origin_x, origin_z)` in the direction whose
/// fixed-point sine and cosine are `(dir_x, dir_z)`, over `map` with
/// the given cell size, stopping at the first occupied tile or on
/// leaving the rectangle `(0, bounds_x) x (0, bounds_z)`. Returns the
/// final position and accumulated distance: exactly the state that
/// `cast_spec` computes, a pure function of the arguments.
#[verifier::rlimit(60)]
pub fn cast(
    map: &GridMap,
    origin_x: i64,
    origin_z: i64,
    dir_x: i64,
    dir_z: i64,
    cell: i64,
    bounds_x: i64,
    bounds_z: i64,
) -> (hit: RayHit)
    requires
        map.wf(),
        1 <= cell <= MAX_CELL,
        0 <= origin_x <= bounds_x,
        0 <= origin_z <= bounds_z,
        bounds_x <= MAX_WORLD,
        bounds_z <= MAX_WORLD,
        -FP_ONE <= dir_x <= FP_ONE,
        -FP_ONE <= dir_z <= FP_ONE,
        !(dir_x == 0 && dir_z == 0),
    ensures
        ({
            let f = cast_spec(
                map@,
                origin_x as int,
                origin_z as int,
                dir_x as int,
                dir_z as int,
                cell as int,
                bounds_x as int,
                bounds_z as int,
            );
            hit.x == f.x && hit.z == f.z && hit.dist == f.dist
        }),
{
    let ghost m = map@;
    let ghost target = cast_spec(
        m,
        origin_x as int,
        origin_z as int,
        dir_x as int,
        dir_z as int,
        cell as int,
        bounds_x as int,
        bounds_z as int,
    );
    let mut pos_x: i64 = origin_x;
    let mut pos_z: i64 = origin_z;
    let mut dist: i64 = 0;
    let off_x: i64 = if dir_x > 0 {
        1
    } else {
        0
    };
    let off_z: i64 = if dir_z > 0 {
        1
    } else {
        0
    };
    let step_x: i64 = if dir_x > 0 {
        1
    } else {
        -1
    };
    let step_z: i64 = if dir_z > 0 {
        1
    } else {
        -1
    };
    let mut tile_x: i64 = ((origin_x as u64) / (cell as u64)) as i64 + off_x;
    let mut tile_z: i64 = ((origin_z as u64) / (cell as u64)) as i64 + off_z;
    let mut fuel: u64 = (map.width() as u64) + (map.height() as u64) + 4;
    let ghost fuel0 = ray_fuel(m);
    let mut done: bool = false;
    while !done
        invariant
            map.wf(),
            map@ == m,
            1 <= cell <= MAX_CELL,
            bounds_x <= MAX_WORLD,
            bounds_z <= MAX_WORLD,
            -FP_ONE <= dir_x <= FP_ONE,
            -FP_ONE <= dir_z <= FP_ONE,
            step_x == step_dir(dir_x as int),
            step_z == step_dir(dir_z as int),
            fuel <= fuel0,
            fuel0 == ray_fuel(m),
            -0x20_0000_0000_0000 <= pos_x <= 0x20_0000_0000_0000,
            -0x20_0000_0000_0000 <= pos_z <= 0x20_0000_0000_0000,
            -0x5_0000_0000 <= tile_x <= 0x5_0000_0000,
            -0x5_0000_0000 <= tile_z <= 0x5_0000_0000,
            iabs(dist as int) <= (fuel0 - fuel) * 0x8_0000_0000_0000,
            dda_run(
                m,
                cell as int,
                bounds_x as int,
                bounds_z as int,
                dir_x as int,
                dir_z as int,
                (DdaState {
                    x: pos_x as int,
                    z: pos_z as int,
                    dist: dist as int,
                    tile_x: tile_x as int,
                    tile_z: tile_z as int,
                }),
                fuel as nat,
            ) == target,
            done ==> fuel == 0 || ray_stopped(
                m,
                bounds_x as int,
                bounds_z as int,
                pos_x as int,
                pos_z as int,
                tile_x as int,
                tile_z as int,
            ),
        decreases fuel, (if done {
            0int
        } else {
            1int
        }),
    {
        if fuel == 0 {
            done = true;
        } else {
            let stop = stop_here(map, tile_x, tile_z, pos_x, pos_z, bounds_x, bounds_z);
            if stop {
                done = true;
            } else {
                let ghost cur = DdaState {
                    x: pos_x as int,
                    z: pos_z as int,
                    dist: dist as int,
                    tile_x: tile_x as int,
                    tile_z: tile_z as int,
                };
                proof {
                    assert(0 <= tile_x < m.len() && 0 <= tile_z < m[0].len());
                    assert(tile_x * cell <= 1024 * MAX_CELL && tile_x * cell >= 0) by (
                    nonlinear_arith)
                        requires
                            0 <= tile_x <= 1024,
                            1 <= cell <= MAX_CELL,
                    ;
                    assert(tile_z * cell <= 1024 * MAX_CELL && tile_z * cell >= 0) by (
                    nonlinear_arith)
                        requires
                            0 <= tile_z <= 1024,
                            1 <= cell <= MAX_CELL,
                    ;
                }
                let line_x: i64 = tile_x * cell;
                let line_z: i64 = tile_z * cell;
                let num_x: i64 = line_x - pos_x;
                let num_z: i64 = line_z - pos_z;
                let delta_x: i64 = if dir_x == 0 {
                    0
                } else {
                    trunc_div(num_x * FP_ONE, dir_x)
                };
                let delta_z: i64 = if dir_z == 0 {
                    0
                } else {
                    trunc_div(num_z * FP_ONE, dir_z)
                };
                let take_x: bool = dir_x != 0 && (dir_z == 0 || delta_x < delta_z);
                let delta_t: i64 = if take_x {
                    delta_x
                } else {
                    delta_z
                };
                let adv_x: i64 = fp_mul(dir_x, delta_t);
                let adv_z: i64 = fp_mul(dir_z, delta_t);
                if take_x {
                    tile_x = tile_x + step_x;
                } else {
                    tile_z = tile_z + step_z;
                }
                pos_x = pos_x + adv_x;
                pos_z = pos_z + adv_z;
                dist = dist + delta_t;
                fuel = fuel - 1;
                proof {
                    let next = DdaState {
                        x: pos_x as int,
                        z: pos_z as int,
                        dist: dist as int,
                        tile_x: tile_x as int,
                        tile_z: tile_z as int,
                    };
                    assert(next == dda_step(cell as int, dir_x as int, dir_z as int, cur));
                    assert(dda_run(
                        m,
                        cell as int,
                        bounds_x as int,
                        bounds_z as int,
                        dir_x as int,
                        dir_z as int,
                        cur,
                        (fuel + 1) as nat,
                    ) == dda_run(
                        m,
                        cell as int,
                        bounds_x as int,
                        bounds_z as int,
                        dir_x as int,
                        dir_z as int,
                        next,
                        fuel as nat,
                    ));
                }
            }
        }
    }
    proof {
        assert(dda_run(
            m,
            cell as int,
            bounds_x as int,
            bounds_z as int,
            dir_x as int,
            dir_z as int,
            (DdaState {
                x: pos_x as int,
                z: pos_z as int,
                dist: dist as int,
                tile_x: tile_x as int,
                tile_z: tile_z as int,
            }),
            fuel as nat,
        ) == (DdaState {
            x: pos_x as int,
            z: pos_z as int,
            dist: dist as int,
            tile_x: tile_x as int,
            tile_z: tile_z as int,
        }));
    }
    RayHit { x: pos_x, z: pos_z, dist }
}

/// A traversal state from its components.
pub open spec fn mk_state(x: int, z: int, dist: int, tile_x: int, tile_z: int) -> DdaState {
    DdaState { x, z, dist, tile_x, tile_z }
}

/// How many tile indices remain on one axis before the index leaves
/// the map in its step direction.
pub open spec fn tiles_left(extent: int, tile: int, step: int) -> int {
    if step > 0 {
        extent - tile
    } else {
        tile + 1
    }
}

/// The traversal's termination measure: the tiles left on both axes
/// together. Each DDA step moves exactly one index by its step
/// direction, so the measure falls by one per step.
pub open spec fn steps_left(m: Seq<Seq<u8>>, dir_x: int, dir_z: int, s: DdaState) -> int {
    tiles_left(m.len() as int, s.tile_x, step_dir(dir_x)) + tiles_left(
        m[0].len() as int,
        s.tile_z,
        step_dir(dir_z),
    )
}

/// A traversal granted at least its measure in fuel ends stopped: at
/// an occupied tile, outside the bounds rectangle, or outside the
/// map's index space — never by exhausting the budget.
pub proof fn lemma_run_reaches_stop(
    m: Seq<Seq<u8>>,
    cell: int,
    bx: int,
    bz: int,
    dir_x: int,
    dir_z: int,
    s: DdaState,
    fuel: nat,
)
    requires
        fuel >= steps_left(m, dir_x, dir_z, s),
    ensures
        ({
            let f = dda_run(m, cell, bx, bz, dir_x, dir_z, s, fuel);
            ray_stopped(m, bx, bz, f.x, f.z, f.tile_x, f.tile_z)
        }),
    decreases fuel,
{
    if !ray_stopped(m, bx, bz, s.x, s.z, s.tile_x, s.tile_z) {
        assert(0 <= s.tile_x < m.len() && 0 <= s.tile_z < m[0].len());
        assert(steps_left(m, dir_x, dir_z, s) >= 2);
        let s1 = dda_step(cell, dir_x, dir_z, s);
        assert(steps_left(m, dir_x, dir_z, s1) == steps_left(m, dir_x, dir_z, s) - 1);
        lemma_run_reaches_stop(m, cell, bx, bz, dir_x, dir_z, s1, (fuel - 1) as nat);
    }
}

/// Every cast ends at a genuine stop: the step budget of `cast_spec`
/// covers the whole map, so the state a cast returns is stopped at an
/// occupied tile, outside the bounds rectangle, or outside the map's
/// index space. With the map's wall ring, a traversal can never run
/// unbounded.
pub proof fn lemma_cast_reaches_stop(
    m: Seq<Seq<u8>>,
    ox: int,
    oz: int,
    dir_x: int,
    dir_z: int,
    cell: int,
    bx: int,
    bz: int,
)
    ensures
        ({
            let f = cast_spec(m, ox, oz, dir_x, dir_z, cell, bx, bz);
            ray_stopped(m, bx, bz, f.x, f.z, f.tile_x, f.tile_z)
        }),
{
    let s0 = start_state(ox, oz, cell, dir_x, dir_z);
    if ray_stopped(m, bx, bz, s0.x, s0.z, s0.tile_x, s0.tile_z) {
        assert(dda_run(m, cell, bx, bz, dir_x, dir_z, s0, ray_fuel(m)) == s0);
    } else {
        assert(steps_left(m, dir_x, dir_z, s0) <= m.len() + m[0].len());
        lemma_run_reaches_stop(m, cell, bx, bz, dir_x, dir_z, s0, ray_fuel(m));
    }
}

/// A ray that starts already stopped — the starting tile (per the
/// near-edge offset) occupied, or the origin on or past the bounds —
/// returns immediately: distance 0 at the origin coordinates.
pub proof fn lemma_cast_stopped_start(
    m: Seq<Seq<u8>>,
    ox: int,
    oz: int,
    dir_x: int,
    dir_z: int,
    cell: int,
    bx: int,
    bz: int,
)
    requires
        ray_stopped(
            m,
            bx,
            bz,
            ox,
            oz,
            start_tile(ox, cell, dir_x),
            start_tile(oz, cell, dir_z),
        ),
    ensures
        cast_spec(m, ox, oz, dir_x, dir_z, cell, bx, bz) == start_state(
            ox,
            oz,
            cell,
            dir_x,
            dir_z,
        ),
        cast_spec(m, ox, oz, dir_x, dir_z, cell, bx, bz).dist == 0,
{
    let s0 = start_state(ox, oz, cell, dir_x, dir_z);
    assert(dda_run(m, cell, bx, bz, dir_x, dir_z, s0, ray_fuel(m)) == s0);
}

/// On one axis, the next grid line lies ahead of the position in the
/// direction of travel (vacuous for an unreachable axis).
pub open spec fn axis_ahead(pos: int, tile: int, cell: int, d: int) -> bool {
    &&& d > 0 ==> pos <= tile * cell
    &&& d < 0 ==> tile * cell <= pos
}

/// The traversal invariant behind monotone distances: on both axes
/// the next grid line lies ahead, so every delta is non-negative.
pub open spec fn state_ahead(cell: int, dir_x: int, dir_z: int, s: DdaState) -> bool {
    axis_ahead(s.x, s.tile_x, cell, dir_x) && axis_ahead(s.z, s.tile_z, cell, dir_z)
}

/// A reachable axis whose grid line lies ahead has a non-negative
/// delta.
proof fn lemma_axis_delta_nonneg(pos: int, tile: int, cell: int, d: int)
    requires
        d != 0,
        axis_ahead(pos, tile, cell, d),
    ensures
        tdiv((tile * cell - pos) * (FP_ONE as int), d) >= 0,
{
    let fp = FP_ONE as int;
    let n = tile * cell - pos;
    if d > 0 {
        assert(n * fp >= 0) by (nonlinear_arith)
            requires
                n >= 0 && fp > 0,
        ;
        lemma_div_pos_is_pos(n * fp, d);
    } else {
        assert(n * fp <= 0) by (nonlinear_arith)
            requires
                n <= 0 && fp > 0,
        ;
        if n * fp < 0 {
            lemma_div_pos_is_pos(-(n * fp), -d);
        } else {
            lemma_div_of0(-d);
        }
    }
}

/// Advancing a reachable ahead axis by any non-negative share of its
/// delta keeps the position between where it was and the grid line.
proof fn lemma_axis_advance(pos: int, tile: int, cell: int, d: int, t: int)
    requires
        d != 0,
        axis_ahead(pos, tile, cell, d),
        0 <= t,
        t <= tdiv((tile * cell - pos) * (FP_ONE as int), d),
    ensures
        d > 0 ==> pos <= pos + tdiv(d * t, FP_ONE as int) <= tile * cell,
        d < 0 ==> tile * cell <= pos + tdiv(d * t, FP_ONE as int) <= pos,
{
    let fp = FP_ONE as int;
    let n = tile * cell - pos;
    let delta = tdiv(n * fp, d);
    if d > 0 {
        assert(n * fp >= 0) by (nonlinear_arith)
            requires
                n >= 0 && fp > 0,
        ;
        assert(delta == (n * fp) / d);
        assert(d * t >= 0) by (nonlinear_arith)
            requires
                d > 0 && t >= 0,
        ;
        assert(tdiv(d * t, fp) == (d * t) / fp);
        lemma_div_pos_is_pos(d * t, fp);
        assert(d * t <= d * delta) by (nonlinear_arith)
            requires
                d > 0 && t <= delta,
        ;
        lemma_fundamental_div_mod(n * fp, d);
        lemma_mod_division_less_than_divisor(n * fp, d);
        assert(d * delta <= n * fp);
        lemma_div_is_ordered(d * t, n * fp, fp);
        lemma_div_multiples_vanish(n, fp);
        assert(fp * n == n * fp) by (nonlinear_arith);
        assert((d * t) / fp <= n);
    } else {
        if t == 0 {
            assert(d * t == 0) by (nonlinear_arith)
                requires
                    t == 0,
            ;
            lemma_div_of0(fp);
            assert(tdiv(d * t, fp) == 0);
        } else {
            assert(n * fp < 0) by (nonlinear_arith)
                requires
                    n < 0 && fp > 0,
            ;
            assert(n < 0) by {
                if n == 0 {
                    lemma_div_of0(-d);
                    assert(delta == 0);
                }
            }
            assert(delta == ((-n) * fp) / (-d)) by {
                assert(-(n * fp) == (-n) * fp) by (nonlinear_arith);
            }
            assert(d * t < 0) by (nonlinear_arith)
                requires
                    d < 0 && t > 0,
        ;
            assert(tdiv(d * t, fp) == -(((-d) * t) / fp)) by {
                assert(-(d * t) == (-d) * t) by (nonlinear_arith);
            }
            lemma_div_pos_is_pos((-d) * t, fp);
            assert((-d) * t <= (-d) * delta) by (nonlinear_arith)
                requires
                    -d > 0 && t <= delta,
            ;
            lemma_fundamental_div_mod((-n) * fp, -d);
            lemma_mod_division_less_than_divisor((-n) * fp, -d);
            assert((-d) * delta <= (-n) * fp);
            lemma_div_is_ordered((-d) * t, (-n) * fp, fp);
            lemma_div_multiples_vanish(-n, fp);
            assert(fp * (-n) == (-n) * fp) by (nonlinear_arith);
            assert(((-d) * t) / fp <= -n);
        }
    }
}

/// One DDA step preserves the ahead invariant and never decreases the
/// accumulated distance.
proof fn lemma_step_keeps_ahead(cell: int, dir_x: int, dir_z: int, s: DdaState)
    requires
        1 <= cell,
        state_ahead(cell, dir_x, dir_z, s),
    ensures
        state_ahead(cell, dir_x, dir_z, dda_step(cell, dir_x, dir_z, s)),
        dda_step(cell, dir_x, dir_z, s).dist >= s.dist,
{
    let fp = FP_ONE as int;
    let line_x = s.tile_x * cell;
    let line_z = s.tile_z * cell;
    let delta_x = if dir_x == 0 {
        0int
    } else {
        tdiv((line_x - s.x) * fp, dir_x)
    };
    let delta_z = if dir_z == 0 {
        0int
    } else {
        tdiv((line_z - s.z) * fp, dir_z)
    };
    assert((s.tile_x - 1) * cell <= s.tile_x * cell <= (s.tile_x + 1) * cell) by (nonlinear_arith)
        requires
            cell >= 1,
    ;
    assert((s.tile_z - 1) * cell <= s.tile_z * cell <= (s.tile_z + 1) * cell) by (nonlinear_arith)
        requires
            cell >= 1,
    ;
    if dir_x != 0 && (dir_z == 0 || delta_x < delta_z) {
        lemma_axis_delta_nonneg(s.x, s.tile_x, cell, dir_x);
        lemma_axis_advance(s.x, s.tile_x, cell, dir_x, delta_x);
        if dir_z != 0 {
            lemma_axis_advance(s.z, s.tile_z, cell, dir_z, delta_x);
        } else {
            assert(dir_z * delta_x == 0) by (nonlinear_arith)
                requires
                    dir_z == 0,
            ;
            lemma_div_of0(fp);
        }
    } else {
        if dir_z != 0 {
            lemma_axis_delta_nonneg(s.z, s.tile_z, cell, dir_z);
            lemma_axis_advance(s.z, s.tile_z, cell, dir_z, delta_z);
            if dir_x != 0 {
                lemma_axis_advance(s.x, s.tile_x, cell, dir_x, delta_z);
            } else {
                assert(dir_x * delta_z == 0) by (nonlinear_arith)
                    requires
                        dir_x == 0,
                ;
                lemma_div_of0(fp);
            }
        } else {
            assert(delta_z == 0);
            assert(dir_x * delta_z == 0 && dir_z * delta_z == 0) by (nonlinear_arith)
                requires
                    delta_z == 0,
            ;
            lemma_div_of0(fp);
        }
    }
}

/// Along a whole traversal from an ahead state, the accumulated
/// distance never decreases.
proof fn lemma_run_dist_monotone(
    m: Seq<Seq<u8>>,
    cell: int,
    bx: int,
    bz: int,
    dir_x: int,
    dir_z: int,
    s: DdaState,
    fuel: nat,
)
    requires
        1 <= cell,
        state_ahead(cell, dir_x, dir_z, s),
    ensures
        dda_run(m, cell, bx, bz, dir_x, dir_z, s, fuel).dist >= s.dist,
    decreases fuel,
{
    if fuel != 0 && !ray_stopped(m, bx, bz, s.x, s.z, s.tile_x, s.tile_z) {
        lemma_step_keeps_ahead(cell, dir_x, dir_z, s);
        lemma_run_dist_monotone(
            m,
            cell,
            bx,
            bz,
            dir_x,
            dir_z,
            dda_step(cell, dir_x, dir_z, s),
            (fuel - 1) as nat,
        );
    }
}

/// A ray whose start is not already stopped travels: from an origin
/// strictly inside a tile (on both axes) and strictly inside bounds,
/// with the starting tile — per the near-edge offset, the tile the
/// ray is about to cross — open and inside the map, the returned
/// distance is strictly positive. Distance 0 marks exactly the casts
/// that stop where they start.
pub proof fn lemma_cast_positive_distance(
    m: Seq<Seq<u8>>,
    ox: int,
    oz: int,
    dir_x: int,
    dir_z: int,
    cell: int,
    bx: int,
    bz: int,
)
    requires
        1 <= cell,
        -FP_ONE <= dir_x <= FP_ONE,
        -FP_ONE <= dir_z <= FP_ONE,
        !(dir_x == 0 && dir_z == 0),
        ox % cell != 0,
        oz % cell != 0,
        0 < ox < bx,
        0 < oz < bz,
        0 <= start_tile(ox, cell, dir_x) < m.len(),
        0 <= start_tile(oz, cell, dir_z) < m[0].len(),
        m[start_tile(ox, cell, dir_x)][start_tile(oz, cell, dir_z)] == 0,
    ensures
        cast_spec(m, ox, oz, dir_x, dir_z, cell, bx, bz).dist > 0,
{
    let fp = FP_ONE as int;
    let s0 = start_state(ox, oz, cell, dir_x, dir_z);
    lemma_fundamental_div_mod(ox, cell);
    lemma_fundamental_div_mod(oz, cell);
    lemma_mod_division_less_than_divisor(ox, cell);
    lemma_mod_division_less_than_divisor(oz, cell);
    assert((ox / cell + 1) * cell == cell * (ox / cell) + cell) by (nonlinear_arith);
    assert((oz / cell + 1) * cell == cell * (oz / cell) + cell) by (nonlinear_arith);
    assert((ox / cell) * cell == cell * (ox / cell)) by (nonlinear_arith);
    assert((oz / cell) * cell == cell * (oz / cell)) by (nonlinear_arith);
    assert(state_ahead(cell, dir_x, dir_z, s0));
    assert(!ray_stopped(m, bx, bz, s0.x, s0.z, s0.tile_x, s0.tile_z));
    let s1 = dda_step(cell, dir_x, dir_z, s0);
    assert(s1.dist >= 1) by {
        lemma_first_delta_at_least_one(ox, oz, cell, dir_x, dir_z);
    }
    lemma_step_keeps_ahead(cell, dir_x, dir_z, s0);
    lemma_run_dist_monotone(m, cell, bx, bz, dir_x, dir_z, s1, (ray_fuel(m) - 1) as nat);
    assert(cast_spec(m, ox, oz, dir_x, dir_z, cell, bx, bz) == dda_run(
        m,
        cell,
        bx,
        bz,
        dir_x,
        dir_z,
        s1,
        (ray_fuel(m) - 1) as nat,
    ));
}

/// From an origin strictly inside a tile on both axes, the first DDA
/// step takes a delta of at least one representation unit: a reachable
/// axis has at least one unit to its grid line, and dividing its
/// rescaled gap by a direction component of at most one cannot shrink
/// it below that gap.
proof fn lemma_first_delta_at_least_one(ox: int, oz: int, cell: int, dir_x: int, dir_z: int)
    requires
        1 <= cell,
        -FP_ONE <= dir_x <= FP_ONE,
        -FP_ONE <= dir_z <= FP_ONE,
        !(dir_x == 0 && dir_z == 0),
        ox % cell != 0,
        oz % cell != 0,
    ensures
        dda_step(cell, dir_x, dir_z, start_state(ox, oz, cell, dir_x, dir_z)).dist >= 1,
{
    let fp = FP_ONE as int;
    let s0 = start_state(ox, oz, cell, dir_x, dir_z);
    lemma_fundamental_div_mod(ox, cell);
    lemma_fundamental_div_mod(oz, cell);
    lemma_mod_division_less_than_divisor(ox, cell);
    lemma_mod_division_less_than_divisor(oz, cell);
    assert((ox / cell + 1) * cell == cell * (ox / cell) + cell) by (nonlinear_arith);
    assert((oz / cell + 1) * cell == cell * (oz / cell) + cell) by (nonlinear_arith);
    assert((ox / cell) * cell == cell * (ox / cell)) by (nonlinear_arith);
    assert((oz / cell) * cell == cell * (oz / cell)) by (nonlinear_arith);
    if dir_x != 0 {
        lemma_cardinal_gap_delta(s0.tile_x * cell - ox, dir_x);
    }
    if dir_z != 0 {
        lemma_cardinal_gap_delta(s0.tile_z * cell - oz, dir_z);
    }
}

/// A gap of at least one unit to the next grid line yields a delta of
/// at least one: `|n| >= 1` and `|d| <= FP_ONE` give
/// `tdiv(n * FP_ONE, d) >= |n| >= 1` when `n` and `d` share a sign.
proof fn lemma_cardinal_gap_delta(n: int, d: int)
    requires
        d != 0,
        -FP_ONE <= d <= FP_ONE,
        d > 0 ==> n >= 1,
        d < 0 ==> n <= -1,
    ensures
        tdiv(n * (FP_ONE as int), d) >= 1,
{
    let fp = FP_ONE as int;
    if d > 0 {
        assert(n * fp >= fp) by (nonlinear_arith)
            requires
                n >= 1 && fp > 0,
        ;
        assert(tdiv(n * fp, d) == (n * fp) / d);
        lemma_div_is_ordered_by_denominator(n * fp, d, fp);
        lemma_div_multiples_vanish(n, fp);
        assert(fp * n == n * fp) by (nonlinear_arith);
        assert((n * fp) / fp == n);
    } else {
        assert(n * fp <= -fp) by (nonlinear_arith)
            requires
                n <= -1 && fp > 0,
        ;
        assert(tdiv(n * fp, d) == ((-n) * fp) / (-d)) by {
            assert(-(n * fp) == (-n) * fp) by (nonlinear_arith);
        }
        lemma_div_is_ordered_by_denominator((-n) * fp, -d, fp);
        lemma_div_multiples_vanish(-n, fp);
        assert(fp * (-n) == (-n) * fp) by (nonlinear_arith);
        assert(((-n) * fp) / fp == -n);
    }
}

/// From a state whose tile indices lie inside the map, a traversal
/// over a map with a walled ring stops only at an occupied tile or
/// outside the bounds rectangle: the indices can never leave the
/// map's index space, because stepping out would first require
/// passing the ring's occupied tiles.
pub proof fn lemma_run_wall_or_bounds(
    m: Seq<Seq<u8>>,
    cell: int,
    bx: int,
    bz: int,
    dir_x: int,
    dir_z: int,
    s: DdaState,
    fuel: nat,
)
    requires
        grid_wf(m),
        fuel >= steps_left(m, dir_x, dir_z, s),
        0 <= s.tile_x < m.len(),
        0 <= s.tile_z < m[0].len(),
    ensures
        ({
            let f = dda_run(m, cell, bx, bz, dir_x, dir_z, s, fuel);
            (0 <= f.tile_x < m.len() && 0 <= f.tile_z < m[0].len() && m[f.tile_x][f.tile_z] != 0)
                || f.x <= 0 || f.x >= bx || f.z <= 0 || f.z >= bz
        }),
    decreases fuel,
{
    if ray_stopped(m, bx, bz, s.x, s.z, s.tile_x, s.tile_z) {
        assert(dda_run(m, cell, bx, bz, dir_x, dir_z, s, fuel) == s);
    } else {
        assert(m[s.tile_x][s.tile_z] == 0);
        assert(s.tile_x != 0 && s.tile_x != m.len() - 1) by {
            if s.tile_x == 0 || s.tile_x == m.len() - 1 {
                assert(m[s.tile_x][s.tile_z] != 0);
            }
        }
        assert(s.tile_z != 0 && s.tile_z != m[0].len() - 1) by {
            if s.tile_z == 0 || s.tile_z == m[0].len() - 1 {
                assert(m[s.tile_x][s.tile_z] != 0);
            }
        }
        assert(steps_left(m, dir_x, dir_z, s) >= 2);
        let s1 = dda_step(cell, dir_x, dir_z, s);
        assert(steps_left(m, dir_x, dir_z, s1) == steps_left(m, dir_x, dir_z, s) - 1);
        lemma_run_wall_or_bounds(m, cell, bx, bz, dir_x, dir_z, s1, (fuel - 1) as nat);
    }
}

/// A cast from strictly inside the bounds rectangle, over a map whose
/// walled extent covers it, ends at a wall or out of bounds: on
/// return either the tile at the final indices is occupied (a wall
/// hit) or the final position has left `[0, bx] x [0, bz]` — exit
/// without a hit, a valid outcome the caller tells apart by the final
/// tile's occupancy, not an error.
pub proof fn lemma_cast_wall_or_bounds(
    m: Seq<Seq<u8>>,
    ox: int,
    oz: int,
    dir_x: int,
    dir_z: int,
    cell: int,
    bx: int,
    bz: int,
)
    requires
        grid_wf(m),
        1 <= cell,
        0 < ox < bx,
        0 < oz < bz,
        bx <= (m.len() - 1) * cell,
        bz <= (m[0].len() - 1) * cell,
    ensures
        ({
            let f = cast_spec(m, ox, oz, dir_x, dir_z, cell, bx, bz);
            (0 <= f.tile_x < m.len() && 0 <= f.tile_z < m[0].len() && m[f.tile_x][f.tile_z] != 0)
                || f.x <= 0 || f.x >= bx || f.z <= 0 || f.z >= bz
        }),
{
    let w = m.len() as int;
    let h = m[0].len() as int;
    lemma_start_tile_in_extent(ox, cell, dir_x, w, bx);
    lemma_start_tile_in_extent(oz, cell, dir_z, h, bz);
    let s0 = start_state(ox, oz, cell, dir_x, dir_z);
    assert(steps_left(m, dir_x, dir_z, s0) <= w + h);
    lemma_run_wall_or_bounds(m, cell, bx, bz, dir_x, dir_z, s0, ray_fuel(m));
}

/// The starting tile index of an origin strictly inside bounds that a
/// map of the given extent covers lies inside that extent.
proof fn lemma_start_tile_in_extent(o: int, cell: int, d: int, extent: int, bound: int)
    requires
        1 <= cell,
        0 < o < bound,
        bound <= (extent - 1) * cell,
    ensures
        0 <= start_tile(o, cell, d) < extent,
{
    lemma_div_pos_is_pos(o, cell);
    assert(o / cell <= extent - 2) by {
        if o / cell >= extent - 1 {
            vstd::arithmetic::div_mod::lemma_fundamental_div_mod(o, cell);
            assert(o == cell * (o / cell) + o % cell);
            assert(cell * (o / cell) >= cell * (extent - 1)) by (nonlinear_arith)
                requires
                    cell >= 1,
                    o / cell >= extent - 1,
            ;
            assert(cell * (extent - 1) == (extent - 1) * cell) by (nonlinear_arith);
            assert(o >= (extent - 1) * cell);
        }
    }
}

/// A cardinal ray meets the boundary it aims at: cast from a point
/// strictly inside the open tile `(tx, tz)` straight along negative z
/// at the wall tile one cell away, the traversal stops on the grid
/// line between the two tiles, and the returned distance is exactly
/// the Euclidean distance from the origin to that open/wall boundary.
pub proof fn lemma_cast_cardinal_open_to_wall(
    m: Seq<Seq<u8>>,
    ox: int,
    oz: int,
    cell: int,
    bx: int,
    bz: int,
    tx: int,
    tz: int,
)
    requires
        1 <= cell <= MAX_CELL as int,
        0 <= tx < m.len(),
        1 <= tz < m[0].len(),
        tx * cell < ox < (tx + 1) * cell,
        tz * cell < oz < (tz + 1) * cell,
        m[tx][tz] == 0,
        m[tx][tz - 1] != 0,
        ox < bx,
        oz < bz,
    ensures
        cast_spec(m, ox, oz, 0, -(FP_ONE as int), cell, bx, bz) == mk_state(
            ox,
            tz * cell,
            oz - tz * cell,
            tx,
            tz - 1,
        ),
{
    let s0 = start_state(ox, oz, cell, 0, -(FP_ONE as int));
    assert(tx * cell + (ox - tx * cell) == ox);
    assert((tx + 1) * cell == tx * cell + cell) by (nonlinear_arith);
    lemma_fundamental_div_mod_converse_div(ox, cell, tx, ox - tx * cell);
    assert((tz + 1) * cell == tz * cell + cell) by (nonlinear_arith);
    lemma_fundamental_div_mod_converse_div(oz, cell, tz, oz - tz * cell);
    assert(s0 == mk_state(ox, oz, 0, tx, tz));
    assert(tz * cell >= cell) by (nonlinear_arith)
        requires
            tz >= 1 && cell >= 1,
    ;
    assert(!ray_stopped(m, bx, bz, ox, oz, tx, tz));
    let s1 = dda_step(cell, 0, -(FP_ONE as int), s0);
    let dz = oz - tz * cell;
    lemma_tdiv_mul_cancel(tz * cell - oz, FP_ONE as int);
    assert((tz * cell - oz) * FP_ONE == (tz * cell - oz) * (FP_ONE as int));
    lemma_div_of0(FP_ONE as int);
    lemma_tdiv_mul_cancel(-dz, FP_ONE as int);
    assert(-(FP_ONE as int) * dz == (-dz) * (FP_ONE as int)) by (nonlinear_arith);
    assert(s1 == mk_state(ox, tz * cell, dz, tx, tz - 1));
    assert(ray_stopped(m, bx, bz, ox, tz * cell, tx, tz - 1));
    let fuel = ray_fuel(m);
    assert(dda_run(m, cell, bx, bz, 0, -(FP_ONE as int), s1, (fuel - 1) as nat) == s1);
    assert(dda_run(m, cell, bx, bz, 0, -(FP_ONE as int), s0, fuel) == s1);
}

/// The same law along the other axis: cast from a point strictly
/// inside the open tile `(tx, tz)` straight along negative x at the
/// wall tile one cell away, the traversal stops on the grid line
/// between the two tiles, and the returned distance is exactly the
/// Euclidean distance from the origin to that open/wall boundary.
pub proof fn lemma_cast_cardinal_neg_x(
    m: Seq<Seq<u8>>,
    ox: int,
    oz: int,
    cell: int,
    bx: int,
    bz: int,
    tx: int,
    tz: int,
)
    requires
        1 <= cell <= MAX_CELL as int,
        1 <= tx < m.len(),
        0 <= tz < m[0].len(),
        tx * cell < ox < (tx + 1) * cell,
        tz * cell < oz < (tz + 1) * cell,
        m[tx][tz] == 0,
        m[tx - 1][tz] != 0,
        ox < bx,
        oz < bz,
    ensures
        cast_spec(m, ox, oz, -(FP_ONE as int), 0, cell, bx, bz) == mk_state(
            tx * cell,
            oz,
            ox - tx * cell,
            tx - 1,
            tz,
        ),
{
    let s0 = start_state(ox, oz, cell, -(FP_ONE as int), 0);
    assert(tx * cell + (ox - tx * cell) == ox);
    assert((tx + 1) * cell == tx * cell + cell) by (nonlinear_arith);
    lemma_fundamental_div_mod_converse_div(ox, cell, tx, ox - tx * cell);
    assert((tz + 1) * cell == tz * cell + cell) by (nonlinear_arith);
    lemma_fundamental_div_mod_converse_div(oz, cell, tz, oz - tz * cell);
    assert(s0 == mk_state(ox, oz, 0, tx, tz));
    assert(tx * cell >= cell) by (nonlinear_arith)
        requires
            tx >= 1 && cell >= 1,
    ;
    assert(tz * cell >= 0) by (nonlinear_arith)
        requires
            tz >= 0 && cell >= 1,
    ;
    assert(!ray_stopped(m, bx, bz, ox, oz, tx, tz));
    let s1 = dda_step(cell, -(FP_ONE as int), 0, s0);
    let dx = ox - tx * cell;
    lemma_tdiv_mul_cancel(tx * cell - ox, FP_ONE as int);
    assert((tx * cell - ox) * FP_ONE == (tx * cell - ox) * (FP_ONE as int));
    lemma_div_of0(FP_ONE as int);
    lemma_tdiv_mul_cancel(-dx, FP_ONE as int);
    assert(-(FP_ONE as int) * dx == (-dx) * (FP_ONE as int)) by (nonlinear_arith);
    assert(s1 == mk_state(tx * cell, oz, dx, tx - 1, tz));
    assert(ray_stopped(m, bx, bz, tx * cell, oz, tx - 1, tz));
    let fuel = ray_fuel(m);
    assert(dda_run(m, cell, bx, bz, -(FP_ONE as int), 0, s1, (fuel - 1) as nat) == s1);
    assert(dda_run(m, cell, bx, bz, -(FP_ONE as int), 0, s0, fuel) == s1);
}

/// The traversal along a straight open column of tiles: from a state
/// whose next z crossing is at tile row `k`, with rows `k` up to (not
/// including) `wall` open in the ray's column and row `wall` occupied,
/// a ray cast straight along positive z crosses one grid line per step
/// and stops with its position on the line at `(wall - 1) * cell`,
/// having accumulated exactly the z distance it travelled.
pub proof fn lemma_run_open_column(
    m: Seq<Seq<u8>>,
    cell: int,
    bx: int,
    bz: int,
    x: int,
    z: int,
    d: int,
    tx: int,
    k: int,
    wall: int,
    fuel: nat,
)
    requires
        1 <= cell <= MAX_CELL as int,
        0 <= tx < m.len(),
        0 <= k <= wall,
        wall < m[0].len(),
        forall|j: int| k <= j < wall ==> m[tx][j] == 0,
        m[tx][wall] != 0,
        0 < x < bx,
        0 < z,
        z <= k * cell,
        (wall - 1) * cell < bz,
        fuel >= wall - k + 1,
    ensures
        k < wall ==> dda_run(m, cell, bx, bz, 0, FP_ONE as int, mk_state(x, z, d, tx, k), fuel)
            == mk_state(x, (wall - 1) * cell, d + (wall - 1) * cell - z, tx, wall),
        k == wall ==> dda_run(m, cell, bx, bz, 0, FP_ONE as int, mk_state(x, z, d, tx, k), fuel)
            == mk_state(x, z, d, tx, k),
    decreases wall - k,
{
    let s = mk_state(x, z, d, tx, k);
    if k == wall {
        assert(ray_stopped(m, bx, bz, x, z, tx, k));
        assert(dda_run(m, cell, bx, bz, 0, FP_ONE as int, s, fuel) == s);
    } else {
        assert(k * cell <= (wall - 1) * cell) by (nonlinear_arith)
            requires
                k <= wall - 1 && cell >= 1,
        ;
        assert(!ray_stopped(m, bx, bz, x, z, tx, k));
        let s1 = dda_step(cell, 0, FP_ONE as int, s);
        let dz = k * cell - z;
        lemma_tdiv_mul_cancel(dz, FP_ONE as int);
        assert((k * cell - z) * FP_ONE == dz * (FP_ONE as int));
        lemma_div_of0(FP_ONE as int);
        assert((FP_ONE as int) * dz == dz * (FP_ONE as int)) by (nonlinear_arith);
        assert(s1 == mk_state(x, k * cell, d + dz, tx, k + 1));
        assert(k * cell <= (k + 1) * cell) by (nonlinear_arith)
            requires
                cell >= 1,
        ;
        lemma_run_open_column(
            m,
            cell,
            bx,
            bz,
            x,
            k * cell,
            d + dz,
            tx,
            k + 1,
            wall,
            (fuel - 1) as nat,
        );
        assert(dda_run(m, cell, bx, bz, 0, FP_ONE as int, s, fuel) == dda_run(
            m,
            cell,
            bx,
            bz,
            0,
            FP_ONE as int,
            s1,
            (fuel - 1) as nat,
        ));
    }
}

/// A ray cast with angle zero from the center of an open corridor `n`
/// cells long in the forward direction travels the corridor's length:
/// the returned distance is `n * cell - cell / 2`, proportional to the
/// cell size whatever its value.
pub proof fn lemma_cast_corridor_forward(
    m: Seq<Seq<u8>>,
    ox: int,
    oz: int,
    cell: int,
    bx: int,
    bz: int,
    tx: int,
    tz: int,
    n: int,
)
    requires
        1 <= cell <= MAX_CELL as int,
        cell % 2 == 0,
        0 <= tx < m.len(),
        0 <= tz,
        n >= 1,
        tz + n + 1 < m[0].len(),
        tx * cell < ox < (tx + 1) * cell,
        oz == tz * cell + cell / 2,
        forall|j: int| tz + 1 <= j <= tz + n ==> m[tx][j] == 0,
        m[tx][tz + n + 1] != 0,
        ox < bx,
        (tz + n) * cell < bz,
    ensures
        cast_spec(m, ox, oz, 0, FP_ONE as int, cell, bx, bz) == mk_state(
            ox,
            (tz + n) * cell,
            n * cell - cell / 2,
            tx,
            tz + n + 1,
        ),
{
    let s0 = start_state(ox, oz, cell, 0, FP_ONE as int);
    assert(tx * cell + (ox - tx * cell) == ox);
    assert((tx + 1) * cell == tx * cell + cell) by (nonlinear_arith);
    lemma_fundamental_div_mod_converse_div(ox, cell, tx, ox - tx * cell);
    lemma_div_pos_is_pos(cell, 2);
    lemma_div_is_strictly_smaller(cell, 2);
    lemma_fundamental_div_mod_converse_div(oz, cell, tz, cell / 2);
    assert(s0 == mk_state(ox, oz, 0, tx, tz + 1));
    assert(cell / 2 >= 1) by {
        assert(cell >= 2);
        if cell / 2 == 0 {
            lemma_fundamental_div_mod_converse_div(cell, cell, 1, 0);
            assert(cell * 1 + 0 == cell) by (nonlinear_arith);
            lemma_div_is_strictly_smaller(cell, 2);
            vstd::arithmetic::div_mod::lemma_div_is_ordered(2, cell, 2);
            assert(2int / 2int == 1) by {
                lemma_fundamental_div_mod_converse_div(2, 2, 1, 0);
            }
        }
    }
    assert(tz * cell >= 0) by (nonlinear_arith)
        requires
            tz >= 0 && cell >= 1,
    ;
    assert((tz + 1) * cell == tz * cell + cell) by (nonlinear_arith);
    lemma_run_open_column(m, cell, bx, bz, ox, oz, 0, tx, tz + 1, tz + n + 1, ray_fuel(m));
    assert((tz + n + 1) - 1 == tz + n);
    assert((tz + n) * cell - (tz * cell + cell / 2) == n * cell - cell / 2) by (nonlinear_arith);
}

} // verus!
