//! The grid map: a bounded 2D array of tile codes.
//!
//! A tile code of 0 is open space; any other code is a wall. Tiles are
//! indexed by `(column, row)`: the outer vector is indexed by the x
//! tile coordinate, the inner by the z tile coordinate. The outermost
//! ring of cells is always wall-coded, so every ray meets a wall or the
//! world bounds before its traversal runs unbounded. A map is built
//! once and never mutated.

use vstd::prelude::*;

verus! {

/// The largest accepted extent, in tiles, on either axis.
pub const MAX_TILES: usize = 1024;

/// Well-formedness of map contents: a non-empty rectangle of bounded
/// extent whose outermost ring of cells is wall-coded.
pub open spec fn grid_wf(m: Seq<Seq<u8>>) -> bool {
    &&& 1 <= m.len() <= MAX_TILES
    &&& 1 <= m[0].len() <= MAX_TILES
    &&& forall|x: int| 0 <= x < m.len() ==> (#[trigger] m[x]).len() == m[0].len()
    &&& forall|x: int, z: int|
        0 <= x < m.len() && 0 <= z < m[0].len() && (x == 0 || x == m.len() - 1 || z == 0 || z
            == m[0].len() - 1) ==> #[trigger] m[x][z] != 0
}

/// The tile code of the demo maze at `(x, z)`: a 16 by 16 ring of
/// walls around an inner ring of walls spanning tiles 4 through 12 on
/// both axes, open everywhere else.
pub open spec fn demo_tile(x: int, z: int) -> u8 {
    if x == 0 || x == 15 || z == 0 || z == 15 {
        1
    } else if (x == 4 || x == 12) && 4 <= z <= 12 {
        1
    } else if (z == 4 || z == 12) && 4 <= x <= 12 {
        1
    } else {
        0
    }
}

/// Static lookup of tile occupancy over a bounded 2D index space.
pub struct GridMap {
    tiles: Vec<Vec<u8>>,
}

impl View for GridMap {
    type V = Seq<Seq<u8>>;

    closed spec fn view(&self) -> Seq<Seq<u8>> {
        self.tiles@.map_values(|row: Vec<u8>| row@)
    }
}

impl GridMap {
    /// The map's invariant; every constructor establishes it.
    pub open spec fn wf(&self) -> bool {
        grid_wf(self@)
    }

    /// Builds a map from tile codes, or refuses contents that do not
    /// satisfy the map invariant.
    pub fn new(tiles: Vec<Vec<u8>>) -> (r: Option<GridMap>)
        ensures
            r is Some <==> grid_wf(tiles@.map_values(|row: Vec<u8>| row@)),
            r is Some ==> r.unwrap()@ == tiles@.map_values(|row: Vec<u8>| row@) && r.unwrap().wf(),
    {
        let ghost view = tiles@.map_values(|row: Vec<u8>| row@);
        let w: usize = tiles.len();
        if w < 1 || w > MAX_TILES {
            return None;
        }
        let h: usize = tiles[0].len();
        if h < 1 || h > MAX_TILES {
            return None;
        }
        let mut x: usize = 0;
        while x < w
            invariant
                w == tiles.len(),
                h == tiles[0].len(),
                x <= w,
                view == tiles@.map_values(|row: Vec<u8>| row@),
                forall|i: int| 0 <= i < x ==> (#[trigger] view[i]).len() == h,
            decreases w - x,
        {
            if tiles[x].len() != h {
                proof {
                    assert(view[x as int] == tiles@[x as int]@);
                    assert(view[0] == tiles@[0]@);
                }
                return None;
            }
            x = x + 1;
        }
        let mut x: usize = 0;
        while x < w
            invariant
                w == tiles.len(),
                h == tiles[0].len(),
                1 <= w <= MAX_TILES,
                1 <= h <= MAX_TILES,
                x <= w,
                view == tiles@.map_values(|row: Vec<u8>| row@),
                forall|i: int| 0 <= i < w ==> (#[trigger] view[i]).len() == h,
                forall|i: int, j: int|
                    0 <= i < x && 0 <= j < h && (i == 0 || i == w - 1 || j == 0 || j == h - 1)
                        ==> #[trigger] view[i][j] != 0,
            decreases w - x,
        {
            let mut z: usize = 0;
            while z < h
                invariant
                    w == tiles.len(),
                    h == tiles[0].len(),
                    1 <= w <= MAX_TILES,
                    1 <= h <= MAX_TILES,
                    x < w,
                    z <= h,
                    view == tiles@.map_values(|row: Vec<u8>| row@),
                    forall|i: int| 0 <= i < w ==> (#[trigger] view[i]).len() == h,
                    forall|j: int|
                        0 <= j < z && (x == 0 || x == w - 1 || j == 0 || j == h - 1)
                            ==> #[trigger] view[x as int][j] != 0,
                decreases h - z,
            {
                proof {
                    assert(view[x as int] == tiles@[x as int]@);
                }
                if (x == 0 || x == w - 1 || z == 0 || z == h - 1) && tiles[x][z] == 0 {
                    return None;
                }
                z = z + 1;
            }
            x = x + 1;
        }
        Some(GridMap { tiles })
    }

    /// Builds the fixed maze the interactive demo explores.
    pub fn demo_map() -> (m: GridMap)
        ensures
            m.wf(),
            m@.len() == 16,
            m@[0].len() == 16,
            forall|x: int, z: int|
                0 <= x < 16 && 0 <= z < 16 ==> #[trigger] m@[x][z] == demo_tile(x, z),
    {
        let mut tiles: Vec<Vec<u8>> = Vec::new();
        let mut x: usize = 0;
        while x < 16
            invariant
                x <= 16,
                tiles@.len() == x,
                forall|i: int| 0 <= i < x ==> (#[trigger] tiles@[i])@.len() == 16,
                forall|i: int, j: int|
                    0 <= i < x && 0 <= j < 16 ==> #[trigger] tiles@[i]@[j] == demo_tile(i, j),
            decreases 16 - x,
        {
            let mut row: Vec<u8> = Vec::new();
            let mut z: usize = 0;
            while z < 16
                invariant
                    x < 16,
                    z <= 16,
                    row@.len() == z,
                    forall|j: int| 0 <= j < z ==> #[trigger] row@[j] == demo_tile(x as int, j),
                decreases 16 - z,
            {
                let code: u8 = if x == 0 || x == 15 || z == 0 || z == 15 {
                    1
                } else if (x == 4 || x == 12) && 4 <= z && z <= 12 {
                    1
                } else if (z == 4 || z == 12) && 4 <= x && x <= 12 {
                    1
                } else {
                    0
                };
                row.push(code);
                z = z + 1;
            }
            tiles.push(row);
            x = x + 1;
        }
        let m = GridMap { tiles };
        proof {
            assert forall|x: int| 0 <= x < 16 implies (#[trigger] m@[x]).len() == 16 by {
                assert(m@[x] == m.tiles@[x]@);
            }
            assert forall|x: int, z: int| 0 <= x < 16 && 0 <= z < 16 implies #[trigger] m@[x][z]
                == demo_tile(x, z) by {
                assert(m@[x] == m.tiles@[x]@);
            }
        }
        m
    }

    /// The extent in tiles along the x axis.
    pub fn width(&self) -> (w: usize)
        ensures
            w == self@.len(),
    {
        self.tiles.len()
    }

    /// The extent in tiles along the z axis.
    pub fn height(&self) -> (h: usize)
        requires
            self.wf(),
        ensures
            h == self@[0].len(),
    {
        self.tiles[0].len()
    }

    /// The occupancy code of the tile at `(col, row)`.
    pub fn tile_at(&self, col: usize, row: usize) -> (code: u8)
        requires
            self.wf(),
            col < self@.len(),
            row < self@[0].len(),
        ensures
            code == self@[col as int][row as int],
    {
        proof {
            assert(self@[col as int] == self.tiles@[col as int]@);
        }
        self.tiles[col][row]
    }
}

} // verus!
