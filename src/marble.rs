//! Turning a carved wall/floor grid into a grid of typed marble tiles.
//!
//! A first pass gives every floor cell a base type from its four neighbours.
//! Later passes substitute advanced tiles (Y-junctions, merges, one-way gates,
//! loop-de-loops, half-pipes, launch pads) and, with elevation, slopes.
use crate::carve::{is_floor_at, TILE_FLOOR};
use crate::tiles::{tile_spec, Direction, MarbleTile, TileType, TileView};
use vstd::prelude::*;

verus! {

/// The tiles of a marble grid, as plain values.
pub open spec fn tiles_view(m: Seq<Vec<MarbleTile>>) -> Seq<Seq<TileView>> {
    m.map_values(|r: Vec<MarbleTile>| r@.map_values(|t: MarbleTile| t@))
}

/// A grid of `h` rows of `w` tiles.
pub open spec fn view_shaped(v: Seq<Seq<TileView>>, w: int, h: int) -> bool {
    &&& v.len() == h
    &&& forall|y: int| 0 <= y < h ==> (#[trigger] v[y]).len() == w
}

/// A grid of `h` rows of `w` characters.
pub open spec fn grid_shaped(g: Seq<Vec<char>>, w: int, h: int) -> bool {
    &&& g.len() == h
    &&& forall|y: int| 0 <= y < h ==> (#[trigger] g[y])@.len() == w
}

/// A grid of `h` rows of `w` elevations.
pub open spec fn map_shaped(e: Seq<Vec<i32>>, w: int, h: int) -> bool {
    &&& e.len() == h
    &&& forall|y: int| 0 <= y < h ==> (#[trigger] e[y])@.len() == w
}

/// The elevation map at `(x, y)`, and 0 off the map.
pub open spec fn map_elev(e: Seq<Vec<i32>>, w: int, h: int, x: int, y: int) -> int {
    if 0 <= x < w && 0 <= y < h {
        e[y]@[x] as int
    } else {
        0
    }
}

/// The elevation of the tile at `(x, y)`, and 0 off the grid.
pub open spec fn tile_elev(v: Seq<Seq<TileView>>, w: int, h: int, x: int, y: int) -> int {
    if 0 <= x < w && 0 <= y < h {
        v[y][x].elevation as int
    } else {
        0
    }
}

/// 1 for true, 0 for false.
pub open spec fn one_if(b: bool) -> int {
    if b { 1 } else { 0 }
}

/// The base tile of a cell: a wall is empty; a floor cell is typed by which of
/// its four neighbours are floor (0-1: open platform; 2 opposite: straight;
/// 2 adjacent: curve; 3: T-junction whose rotation is the missing side;
/// 4: cross), walled, at the elevation of the map.
pub open spec fn base_tile(g: Seq<Vec<char>>, e: Seq<Vec<i32>>, w: int, h: int, x: int, y: int) -> TileView {
    if !is_floor_at(g, x, y) {
        tile_spec(TileType::Empty, 0, 0, false)
    } else {
        let n = is_floor_at(g, x, y - 1);
        let s = is_floor_at(g, x, y + 1);
        let ea = is_floor_at(g, x + 1, y);
        let we = is_floor_at(g, x - 1, y);
        let count = one_if(n) + one_if(s) + one_if(ea) + one_if(we);
        let elev = e[y]@[x];
        if count <= 1 {
            tile_spec(TileType::OpenPlatform, elev, 0, true)
        } else if count == 2 {
            if (n && s) || (ea && we) {
                tile_spec(TileType::Straight, elev, if n && s { 0 } else { 1 }, true)
            } else {
                tile_spec(
                    TileType::Curve90,
                    elev,
                    if n && ea {
                        0
                    } else if ea && s {
                        1
                    } else if s && we {
                        2
                    } else {
                        3
                    },
                    true,
                )
            }
        } else if count == 3 {
            tile_spec(
                TileType::TJunction,
                elev,
                if !n {
                    0
                } else if !ea {
                    1
                } else if !s {
                    2
                } else {
                    3
                },
                true,
            )
        } else {
            tile_spec(TileType::CrossJunction, elev, 0, true)
        }
    }
}

/// Whether `(x, y)` is a floor cell of `g`.
pub fn floor_at(g: &Vec<Vec<char>>, x: i64, y: i64) -> (r: bool)
    ensures
        r == is_floor_at(g@, x as int, y as int),
{
    if 0 <= y && (y as u64) < (g.len() as u64) {
        let yu = y as usize;
        if 0 <= x && (x as u64) < (g[yu].len() as u64) {
            return g[yu][x as usize] == TILE_FLOOR;
        }
    }
    false
}

/// The base tile of floor cell `(x, y)`.
fn classify_cell(g: &Vec<Vec<char>>, e: &Vec<Vec<i32>>, w: usize, h: usize, x: usize, y: usize) -> (t: MarbleTile)
    requires
        grid_shaped(g@, w as int, h as int),
        map_shaped(e@, w as int, h as int),
        x < w,
        y < h,
        h <= i64::MAX,
        w <= i64::MAX,
    ensures
        t@ == base_tile(g@, e@, w as int, h as int, x as int, y as int),
{
    if g[y][x] != TILE_FLOOR {
        return MarbleTile::empty();
    }
    let ix = x as i64;
    let iy = y as i64;
    let north = floor_at(g, ix, iy - 1);
    let south = floor_at(g, ix, iy + 1);
    let east = floor_at(g, ix + 1, iy);
    let west = floor_at(g, ix - 1, iy);
    let count: u32 = (if north { 1u32 } else { 0 }) + (if south { 1u32 } else { 0 }) + (if east {
        1u32
    } else {
        0
    }) + (if west { 1u32 } else { 0 });
    let elev = e[y][x];
    let (tile_type, rotation): (TileType, u8) = if count <= 1 {
        (TileType::OpenPlatform, 0)
    } else if count == 2 {
        if (north && south) || (east && west) {
            (TileType::Straight, if north && south { 0 } else { 1 })
        } else {
            let rot: u8 = if north && east {
                0
            } else if east && south {
                1
            } else if south && west {
                2
            } else {
                3
            };
            (TileType::Curve90, rot)
        }
    } else if count == 3 {
        let rot: u8 = if !north {
            0
        } else if !east {
            1
        } else if !south {
            2
        } else {
            3
        };
        (TileType::TJunction, rot)
    } else {
        (TileType::CrossJunction, 0)
    };
    MarbleTile::with_params(tile_type, elev, rotation, true)
}

/// The base classification of every cell.
pub open spec fn base_grid(g: Seq<Vec<char>>, e: Seq<Vec<i32>>, w: int, h: int) -> Seq<Seq<TileView>> {
    Seq::new(h as nat, |y: int| Seq::new(w as nat, |x: int| base_tile(g, e, w, h, x, y)))
}

/// First pass: the base tile of every cell.
pub fn classify_base(g: &Vec<Vec<char>>, e: &Vec<Vec<i32>>, w: usize, h: usize) -> (m: Vec<Vec<MarbleTile>>)
    requires
        grid_shaped(g@, w as int, h as int),
        map_shaped(e@, w as int, h as int),
        h <= i64::MAX,
        w <= i64::MAX,
    ensures
        tiles_view(m@) == base_grid(g@, e@, w as int, h as int),
{
    let mut m: Vec<Vec<MarbleTile>> = Vec::new();
    let mut y: usize = 0;
    while y < h
        invariant
            y <= h,
            grid_shaped(g@, w as int, h as int),
            map_shaped(e@, w as int, h as int),
            h <= i64::MAX,
            w <= i64::MAX,
            m@.len() == y,
            forall|yy: int| 0 <= yy < y ==> (#[trigger] m@[yy])@.len() == w,
            forall|yy: int, xx: int| 0 <= yy < y && 0 <= xx < w ==> (#[trigger] m@[yy]@[xx])@ == base_tile(g@, e@, w as int, h as int, xx, yy),
        decreases h - y,
    {
        let mut row: Vec<MarbleTile> = Vec::new();
        let mut x: usize = 0;
        while x < w
            invariant
                x <= w,
                y < h,
                grid_shaped(g@, w as int, h as int),
                map_shaped(e@, w as int, h as int),
                h <= i64::MAX,
                w <= i64::MAX,
                row@.len() == x,
                forall|xx: int| 0 <= xx < x ==> (#[trigger] row@[xx])@ == base_tile(g@, e@, w as int, h as int, xx, y as int),
            decreases w - x,
        {
            let t = classify_cell(g, e, w, h, x, y);
            row.push(t);
            x += 1;
        }
        m.push(row);
        y += 1;
    }
    assert(tiles_view(m@) =~~= base_grid(g@, e@, w as int, h as int));
    m
}

/// The substitutions that look at one cell at a time.
#[derive(Debug, Clone, Copy, PartialEq, Eq, Structural)]
pub enum Pass {
    /// A T-junction with a floor cell diagonally between two of its open sides.
    YJunction,
    /// A straight with a wall on at least one side and floor ahead and behind.
    OneWayGate,
    /// A straight next to a floor cell two or more levels away.
    LoopDeLoop,
    /// A curve next to a floor cell exactly one level away.
    HalfPipe,
    /// A straight with a wall behind it and floor ahead.
    LaunchPad,
    /// A straight, open platform or cross next to a floor cell one level away.
    Slope,
}

/// Whether a T-junction at `(x, y)` has a diagonal floor cell between two open sides.
pub open spec fn has_diagonal(g: Seq<Vec<char>>, x: int, y: int) -> bool {
    let n = is_floor_at(g, x, y - 1);
    let s = is_floor_at(g, x, y + 1);
    let ea = is_floor_at(g, x + 1, y);
    let we = is_floor_at(g, x - 1, y);
    (n && ea && is_floor_at(g, x + 1, y - 1)) || (ea && s && is_floor_at(g, x + 1, y + 1)) || (s && we
        && is_floor_at(g, x - 1, y + 1)) || (we && n && is_floor_at(g, x - 1, y - 1))
}

/// Whether a straight at `(x, y)` turned by `rot` is a narrow passage.
pub open spec fn is_narrow_passage(g: Seq<Vec<char>>, x: int, y: int, rot: u8) -> bool {
    if rot == 0 || rot == 2 {
        (!is_floor_at(g, x - 1, y) || !is_floor_at(g, x + 1, y)) && is_floor_at(g, x, y - 1)
            && is_floor_at(g, x, y + 1)
    } else if rot == 1 || rot == 3 {
        (!is_floor_at(g, x, y - 1) || !is_floor_at(g, x, y + 1)) && is_floor_at(g, x - 1, y)
            && is_floor_at(g, x + 1, y)
    } else {
        false
    }
}

/// Whether a straight at `(x, y)` turned by `rot` starts a run: wall behind, floor ahead.
pub open spec fn is_launch_start(g: Seq<Vec<char>>, x: int, y: int, rot: u8) -> bool {
    if rot == 0 || rot == 2 {
        !is_floor_at(g, x, y - 1) && is_floor_at(g, x, y + 1)
    } else if rot == 1 || rot == 3 {
        !is_floor_at(g, x - 1, y) && is_floor_at(g, x + 1, y)
    } else {
        false
    }
}

/// Whether the floor neighbour `(nx, ny)` has a tile elevation that differs from `elev` as `pred` asks.
pub open spec fn neighbour_jump(
    v: Seq<Seq<TileView>>,
    g: Seq<Vec<char>>,
    w: int,
    h: int,
    x: int,
    y: int,
    big: bool,
) -> bool {
    let elev = v[y][x].elevation as int;
    let jump = |nx: int, ny: int| {
        let d = tile_elev(v, w, h, nx, ny) - elev;
        is_floor_at(g, nx, ny) && if big { d >= 2 || d <= -2 } else { d == 1 || d == -1 }
    };
    jump(x, y - 1) || jump(x, y + 1) || jump(x + 1, y) || jump(x - 1, y)
}

/// Whether some floor neighbour on the given axis is one level away on the elevation map.
pub open spec fn map_step(g: Seq<Vec<char>>, e: Seq<Vec<i32>>, w: int, h: int, x: int, y: int, elev: int, vertical: bool) -> bool {
    let step = |nx: int, ny: int| {
        let d = map_elev(e, w, h, nx, ny) - elev;
        is_floor_at(g, nx, ny) && (d == 1 || d == -1)
    };
    if vertical {
        step(x, y - 1) || step(x, y + 1)
    } else {
        step(x + 1, y) || step(x - 1, y)
    }
}

/// What pass `pass` makes of the tile at `(x, y)` of `v`.
pub open spec fn rule_spec(
    pass: Pass,
    v: Seq<Seq<TileView>>,
    g: Seq<Vec<char>>,
    e: Seq<Vec<i32>>,
    w: int,
    h: int,
    x: int,
    y: int,
) -> TileView {
    let t = v[y][x];
    match pass {
        Pass::YJunction => if t.tile_type is TJunction && has_diagonal(g, x, y) {
            tile_spec(TileType::YJunction, t.elevation, t.rotation, true)
        } else {
            t
        },
        Pass::OneWayGate => if t.tile_type is Straight && is_narrow_passage(g, x, y, t.rotation) {
            tile_spec(TileType::OneWayGate, t.elevation, t.rotation, true)
        } else {
            t
        },
        Pass::LoopDeLoop => if t.tile_type is Straight && neighbour_jump(v, g, w, h, x, y, true) {
            tile_spec(TileType::LoopDeLoop, t.elevation, t.rotation, true)
        } else {
            t
        },
        Pass::HalfPipe => if t.tile_type is Curve90 && neighbour_jump(v, g, w, h, x, y, false) {
            tile_spec(TileType::HalfPipe, t.elevation, t.rotation, true)
        } else {
            t
        },
        Pass::LaunchPad => if t.tile_type is Straight && is_launch_start(g, x, y, t.rotation) {
            tile_spec(TileType::LaunchPad, t.elevation, t.rotation, true)
        } else {
            t
        },
        Pass::Slope => if t.tile_type is Straight || t.tile_type is OpenPlatform
            || t.tile_type is CrossJunction {
            if map_step(g, e, w, h, x, y, t.elevation as int, true) {
                tile_spec(TileType::Slope, t.elevation, 0, true)
            } else if map_step(g, e, w, h, x, y, t.elevation as int, false) {
                tile_spec(TileType::Slope, t.elevation, 1, true)
            } else {
                t
            }
        } else {
            t
        },
    }
}

/// The cells a pass visits: the whole grid for slopes, else all but the border.
pub open spec fn in_pass_range(pass: Pass, w: int, h: int, x: int, y: int) -> bool {
    if pass is Slope {
        0 <= x < w && 0 <= y < h
    } else {
        1 <= x < w - 1 && 1 <= y < h - 1
    }
}

/// The grid after pass `pass` over `v`.
pub open spec fn pass_spec(
    pass: Pass,
    v: Seq<Seq<TileView>>,
    g: Seq<Vec<char>>,
    e: Seq<Vec<i32>>,
    w: int,
    h: int,
) -> Seq<Seq<TileView>> {
    Seq::new(
        h as nat,
        |y: int|
            Seq::new(
                w as nat,
                |x: int|
                    if in_pass_range(pass, w, h, x, y) {
                        rule_spec(pass, v, g, e, w, h, x, y)
                    } else {
                        v[y][x]
                    },
            ),
    )
}

/// Replace the tile at `(x, y)`.
pub fn set_tile(m: &mut Vec<Vec<MarbleTile>>, x: usize, y: usize, t: MarbleTile)
    requires
        y < old(m)@.len(),
        x < old(m)@[y as int]@.len(),
    ensures
        final(m)@.len() == old(m)@.len(),
        tiles_view(final(m)@) == tiles_view(old(m)@).update(
            y as int,
            tiles_view(old(m)@)[y as int].update(x as int, t@),
        ),
{
    let ghost tv = t@;
    m[y][x] = t;
    assert(tiles_view(m@) =~~= tiles_view(old(m)@).update(
        y as int,
        tiles_view(old(m)@)[y as int].update(x as int, tv),
    ));
}

/// The elevation of the tile at `(x, y)`, and 0 off the grid.
fn tile_elevation(m: &Vec<Vec<MarbleTile>>, w: usize, h: usize, x: i64, y: i64) -> (r: i32)
    requires
        view_shaped(tiles_view(m@), w as int, h as int),
    ensures
        r as int == tile_elev(tiles_view(m@), w as int, h as int, x as int, y as int),
{
    if 0 <= y && (y as u64) < (h as u64) && 0 <= x && (x as u64) < (w as u64) {
        assert(tiles_view(m@)[y as int] == m@[y as int]@.map_values(|t: MarbleTile| t@));
        m[y as usize][x as usize].elevation
    } else {
        0
    }
}

/// The elevation map at `(x, y)`, and 0 off the map.
fn map_elevation(e: &Vec<Vec<i32>>, w: usize, h: usize, x: i64, y: i64) -> (r: i32)
    requires
        map_shaped(e@, w as int, h as int),
    ensures
        r as int == map_elev(e@, w as int, h as int, x as int, y as int),
{
    if 0 <= y && (y as u64) < (h as u64) && 0 <= x && (x as u64) < (w as u64) {
        e[y as usize][x as usize]
    } else {
        0
    }
}

/// Whether a floor neighbour of `(x, y)` has a tile elevation `big` (two or
/// more) or exactly one level away from `elev`.
fn has_neighbour_jump(
    m: &Vec<Vec<MarbleTile>>,
    g: &Vec<Vec<char>>,
    w: usize,
    h: usize,
    x: usize,
    y: usize,
    big: bool,
) -> (r: bool)
    requires
        view_shaped(tiles_view(m@), w as int, h as int),
        x < w,
        y < h,
        w <= i64::MAX,
        h <= i64::MAX,
    ensures
        r == neighbour_jump(tiles_view(m@), g@, w as int, h as int, x as int, y as int, big),
{
    let ix = x as i64;
    let iy = y as i64;
    let elev = tile_elevation(m, w, h, ix, iy) as i64;
    let offsets: [(i64, i64); 4] = [(0, -1), (0, 1), (1, 0), (-1, 0)];
    let mut k: usize = 0;
    while k < 4
        invariant
            k <= 4,
            view_shaped(tiles_view(m@), w as int, h as int),
            x < w,
            y < h,
            w <= i64::MAX,
            h <= i64::MAX,
            ix == x,
            iy == y,
            elev == tiles_view(m@)[y as int][x as int].elevation,
            offsets@ == seq![(0i64, -1i64), (0i64, 1i64), (1i64, 0i64), (-1i64, 0i64)],
            forall|j: int| 0 <= j < k ==> {
                let nx = x + (#[trigger] offsets@[j]).0;
                let ny = y + offsets@[j].1;
                let d = tile_elev(tiles_view(m@), w as int, h as int, nx, ny) - elev;
                !(is_floor_at(g@, nx, ny) && if big { d >= 2 || d <= -2 } else { d == 1 || d == -1 })
            },
        decreases 4 - k,
    {
        let (dx, dy) = offsets[k];
        let nx = ix + dx;
        let ny = iy + dy;
        if floor_at(g, nx, ny) {
            let d = tile_elevation(m, w, h, nx, ny) as i64 - elev;
            let hit = if big { d >= 2 || d <= -2 } else { d == 1 || d == -1 };
            if hit {
                return true;
            }
        }
        k += 1;
    }
    assert(offsets@[0] == (0i64, -1i64));
    assert(offsets@[1] == (0i64, 1i64));
    assert(offsets@[2] == (1i64, 0i64));
    assert(offsets@[3] == (-1i64, 0i64));
    false
}

/// Whether a floor neighbour of `(x, y)` on the given axis is one level from
/// `elev` on the elevation map.
fn has_map_step(
    g: &Vec<Vec<char>>,
    e: &Vec<Vec<i32>>,
    w: usize,
    h: usize,
    x: usize,
    y: usize,
    elev: i32,
    vertical: bool,
) -> (r: bool)
    requires
        map_shaped(e@, w as int, h as int),
        x < w,
        y < h,
        w <= i64::MAX,
        h <= i64::MAX,
    ensures
        r == map_step(g@, e@, w as int, h as int, x as int, y as int, elev as int, vertical),
{
    let ix = x as i64;
    let iy = y as i64;
    let (ax, ay, bx, by) = if vertical {
        (ix, iy - 1, ix, iy + 1)
    } else {
        (ix + 1, iy, ix - 1, iy)
    };
    let da = map_elevation(e, w, h, ax, ay) as i64 - elev as i64;
    let db = map_elevation(e, w, h, bx, by) as i64 - elev as i64;
    (floor_at(g, ax, ay) && (da == 1 || da == -1)) || (floor_at(g, bx, by) && (db == 1 || db == -1))
}

/// What pass `pass` makes of the tile at `(x, y)`: `None` where it keeps it.
fn apply_rule(
    pass: Pass,
    m: &Vec<Vec<MarbleTile>>,
    g: &Vec<Vec<char>>,
    e: &Vec<Vec<i32>>,
    w: usize,
    h: usize,
    x: usize,
    y: usize,
) -> (r: Option<MarbleTile>)
    requires
        view_shaped(tiles_view(m@), w as int, h as int),
        map_shaped(e@, w as int, h as int),
        x < w,
        y < h,
        w <= i64::MAX,
        h <= i64::MAX,
    ensures
        match r {
            Some(t) => t@ == rule_spec(pass, tiles_view(m@), g@, e@, w as int, h as int, x as int, y as int),
            None => rule_spec(pass, tiles_view(m@), g@, e@, w as int, h as int, x as int, y as int) == tiles_view(m@)[y as int][x as int],
        },
{
    assert(tiles_view(m@)[y as int] == m@[y as int]@.map_values(|t: MarbleTile| t@));
    let tile = &m[y][x];
    let ix = x as i64;
    let iy = y as i64;
    match pass {
        Pass::YJunction => {
            if tile.tile_type != TileType::TJunction {
                return None;
            }
            let north = floor_at(g, ix, iy - 1);
            let south = floor_at(g, ix, iy + 1);
            let east = floor_at(g, ix + 1, iy);
            let west = floor_at(g, ix - 1, iy);
            let has_diag = (north && east && floor_at(g, ix + 1, iy - 1)) || (east && south && floor_at(g, ix + 1, iy + 1))
                || (south && west && floor_at(g, ix - 1, iy + 1)) || (west && north && floor_at(g, ix - 1, iy - 1));
            if has_diag {
                Some(MarbleTile::with_params(TileType::YJunction, tile.elevation, tile.rotation, true))
            } else {
                None
            }
        },
        Pass::OneWayGate => {
            if tile.tile_type != TileType::Straight {
                return None;
            }
            let narrow = if tile.rotation == 0 || tile.rotation == 2 {
                (!floor_at(g, ix - 1, iy) || !floor_at(g, ix + 1, iy)) && floor_at(g, ix, iy - 1) && floor_at(g, ix, iy + 1)
            } else if tile.rotation == 1 || tile.rotation == 3 {
                (!floor_at(g, ix, iy - 1) || !floor_at(g, ix, iy + 1)) && floor_at(g, ix - 1, iy) && floor_at(g, ix + 1, iy)
            } else {
                false
            };
            if narrow {
                Some(MarbleTile::with_params(TileType::OneWayGate, tile.elevation, tile.rotation, true))
            } else {
                None
            }
        },
        Pass::LoopDeLoop => {
            if tile.tile_type != TileType::Straight {
                return None;
            }
            if has_neighbour_jump(m, g, w, h, x, y, true) {
                Some(MarbleTile::with_params(TileType::LoopDeLoop, tile.elevation, tile.rotation, true))
            } else {
                None
            }
        },
        Pass::HalfPipe => {
            if tile.tile_type != TileType::Curve90 {
                return None;
            }
            if has_neighbour_jump(m, g, w, h, x, y, false) {
                Some(MarbleTile::with_params(TileType::HalfPipe, tile.elevation, tile.rotation, true))
            } else {
                None
            }
        },
        Pass::LaunchPad => {
            if tile.tile_type != TileType::Straight {
                return None;
            }
            let start = if tile.rotation == 0 || tile.rotation == 2 {
                !floor_at(g, ix, iy - 1) && floor_at(g, ix, iy + 1)
            } else if tile.rotation == 1 || tile.rotation == 3 {
                !floor_at(g, ix - 1, iy) && floor_at(g, ix + 1, iy)
            } else {
                false
            };
            if start {
                Some(MarbleTile::with_params(TileType::LaunchPad, tile.elevation, tile.rotation, true))
            } else {
                None
            }
        },
        Pass::Slope => {
            if tile.tile_type == TileType::Empty {
                return None;
            }
            match tile.tile_type {
                TileType::Straight | TileType::OpenPlatform | TileType::CrossJunction => {},
                _ => {
                    return None;
                },
            }
            if has_map_step(g, e, w, h, x, y, tile.elevation, true) {
                Some(MarbleTile::with_params(TileType::Slope, tile.elevation, 0, true))
            } else if has_map_step(g, e, w, h, x, y, tile.elevation, false) {
                Some(MarbleTile::with_params(TileType::Slope, tile.elevation, 1, true))
            } else {
                None
            }
        },
    }
}

/// Pass `pass` applied to the cells of `v0` visited before `(x, y)` in row-major order.
pub open spec fn pass_partial(
    pass: Pass,
    v0: Seq<Seq<TileView>>,
    g: Seq<Vec<char>>,
    e: Seq<Vec<i32>>,
    w: int,
    h: int,
    x: int,
    y: int,
) -> Seq<Seq<TileView>> {
    Seq::new(
        h as nat,
        |yy: int|
            Seq::new(
                w as nat,
                |xx: int|
                    if in_pass_range(pass, w, h, xx, yy) && (yy < y || (yy == y && xx < x)) {
                        rule_spec(pass, v0, g, e, w, h, xx, yy)
                    } else {
                        v0[yy][xx]
                    },
            ),
    )
}

proof fn lemma_rule_keeps_elevation(
    pass: Pass,
    v: Seq<Seq<TileView>>,
    g: Seq<Vec<char>>,
    e: Seq<Vec<i32>>,
    w: int,
    h: int,
    x: int,
    y: int,
)
    ensures
        rule_spec(pass, v, g, e, w, h, x, y).elevation == v[y][x].elevation,
{
}

proof fn lemma_rule_local(
    pass: Pass,
    v1: Seq<Seq<TileView>>,
    v2: Seq<Seq<TileView>>,
    g: Seq<Vec<char>>,
    e: Seq<Vec<i32>>,
    w: int,
    h: int,
    x: int,
    y: int,
)
    requires
        view_shaped(v1, w, h),
        view_shaped(v2, w, h),
        0 <= x < w,
        0 <= y < h,
        v1[y][x] == v2[y][x],
        forall|yy: int, xx: int| 0 <= yy < h && 0 <= xx < w ==> (#[trigger] v1[yy][xx]).elevation == v2[yy][xx].elevation,
    ensures
        rule_spec(pass, v1, g, e, w, h, x, y) == rule_spec(pass, v2, g, e, w, h, x, y),
{
    assert(tile_elev(v1, w, h, x, y - 1) == tile_elev(v2, w, h, x, y - 1));
    assert(tile_elev(v1, w, h, x, y + 1) == tile_elev(v2, w, h, x, y + 1));
    assert(tile_elev(v1, w, h, x + 1, y) == tile_elev(v2, w, h, x + 1, y));
    assert(tile_elev(v1, w, h, x - 1, y) == tile_elev(v2, w, h, x - 1, y));
}

/// Run pass `pass` over the grid, cell by cell in row-major order.
pub fn run_pass(
    pass: Pass,
    m: &mut Vec<Vec<MarbleTile>>,
    g: &Vec<Vec<char>>,
    e: &Vec<Vec<i32>>,
    w: usize,
    h: usize,
)
    requires
        view_shaped(tiles_view(old(m)@), w as int, h as int),
        map_shaped(e@, w as int, h as int),
        w <= i64::MAX,
        h <= i64::MAX,
    ensures
        tiles_view(final(m)@) == pass_spec(pass, tiles_view(old(m)@), g@, e@, w as int, h as int),
{
    let ghost v0 = tiles_view(m@);
    assert(v0 =~~= pass_partial(pass, v0, g@, e@, w as int, h as int, 0, 0));
    let mut y: usize = 0;
    while y < h
        invariant
            y <= h,
            map_shaped(e@, w as int, h as int),
            w <= i64::MAX,
            h <= i64::MAX,
            view_shaped(v0, w as int, h as int),
            m@.len() == h,
            tiles_view(m@) == pass_partial(pass, v0, g@, e@, w as int, h as int, 0, y as int),
        decreases h - y,
    {
        let mut x: usize = 0;
        while x < w
            invariant
                x <= w,
                y < h,
                map_shaped(e@, w as int, h as int),
                w <= i64::MAX,
                h <= i64::MAX,
                view_shaped(v0, w as int, h as int),
                m@.len() == h,
                tiles_view(m@) == pass_partial(pass, v0, g@, e@, w as int, h as int, x as int, y as int),
            decreases w - x,
        {
            let ghost cur = tiles_view(m@);
            proof {
                assert forall|yy: int, xx: int| 0 <= yy < h && 0 <= xx < w implies (#[trigger] cur[yy][xx]).elevation == v0[yy][xx].elevation by {
                    lemma_rule_keeps_elevation(pass, v0, g@, e@, w as int, h as int, xx, yy);
                }
                lemma_rule_local(pass, cur, v0, g@, e@, w as int, h as int, x as int, y as int);
                assert(m@[y as int]@.len() == cur[y as int].len());
            }
            if in_range_exec(pass, w, h, x, y) {
                match apply_rule(pass, m, g, e, w, h, x, y) {
                    Some(t) => {
                        set_tile(m, x, y, t);
                    },
                    None => {},
                }
            }
            proof {
                assert(tiles_view(m@) =~~= pass_partial(pass, v0, g@, e@, w as int, h as int, x + 1, y as int));
            }
            x += 1;
        }
        proof {
            assert(pass_partial(pass, v0, g@, e@, w as int, h as int, w as int, y as int) =~~= pass_partial(pass, v0, g@, e@, w as int, h as int, 0, y + 1));
        }
        y += 1;
    }
    assert(pass_partial(pass, v0, g@, e@, w as int, h as int, 0, h as int) =~~= pass_spec(pass, v0, g@, e@, w as int, h as int));
}

/// Whether pass `pass` visits `(x, y)`.
fn in_range_exec(pass: Pass, w: usize, h: usize, x: usize, y: usize) -> (r: bool)
    requires
        x < w,
        y < h,
    ensures
        r == in_pass_range(pass, w as int, h as int, x as int, y as int),
{
    match pass {
        Pass::Slope => true,
        _ => 1 <= x && x + 1 < w && 1 <= y && y + 1 < h,
    }
}

/// The tile types at which a downstream walk stops.
pub open spec fn is_junction(t: TileType) -> bool {
    t is TJunction || t is CrossJunction || t is YJunction
}

/// The step of one cell in direction `d`.
pub open spec fn step_of(d: Direction) -> (int, int) {
    match d {
        Direction::North => (0, -1),
        Direction::South => (0, 1),
        Direction::East => (1, 0),
        Direction::West => (-1, 0),
    }
}

/// The floor cells met walking from `(x, y)` by steps `(dx, dy)`, at most
/// `fuel` of them; the walk ends at a wall or the border, and just after a junction.
pub open spec fn walk_count(
    v: Seq<Seq<TileView>>,
    g: Seq<Vec<char>>,
    w: int,
    h: int,
    x: int,
    y: int,
    dx: int,
    dy: int,
    fuel: nat,
) -> nat
    decreases fuel,
{
    if fuel == 0 {
        0
    } else {
        let nx = x + dx;
        let ny = y + dy;
        if !(0 <= nx < w && 0 <= ny < h) || !is_floor_at(g, nx, ny) {
            0
        } else if is_junction(v[ny][nx].tile_type) {
            1
        } else {
            1 + walk_count(v, g, w, h, nx, ny, dx, dy, (fuel - 1) as nat)
        }
    }
}

/// The downstream run length seen from the cell `(sx, sy)` next to a junction,
/// walking on in direction `d` for at most ten cells; 0 when `(sx, sy)` is off the grid.
pub open spec fn downstream_spec(
    v: Seq<Seq<TileView>>,
    g: Seq<Vec<char>>,
    w: int,
    h: int,
    sx: int,
    sy: int,
    d: Direction,
) -> nat {
    if !(0 <= sx < w && 0 <= sy < h) {
        0
    } else {
        walk_count(v, g, w, h, sx, sy, step_of(d).0, step_of(d).1, 10)
    }
}

/// Count the floor cells downstream of `(start_x, start_y)` in `direction`.
pub fn count_connections_downstream(
    m: &Vec<Vec<MarbleTile>>,
    g: &Vec<Vec<char>>,
    w: usize,
    h: usize,
    start_x: i64,
    start_y: i64,
    direction: Direction,
) -> (r: usize)
    requires
        view_shaped(tiles_view(m@), w as int, h as int),
        grid_shaped(g@, w as int, h as int),
        w <= 0x1_0000_0000,
        h <= 0x1_0000_0000,
        -0x1_0000_0000 <= start_x <= 0x1_0000_0000,
        -0x1_0000_0000 <= start_y <= 0x1_0000_0000,
    ensures
        r == downstream_spec(tiles_view(m@), g@, w as int, h as int, start_x as int, start_y as int, direction),
{
    if start_y < 0 || start_y >= h as i64 || start_x < 0 || start_x >= w as i64 {
        return 0;
    }
    let ghost v = tiles_view(m@);
    let (dx, dy): (i64, i64) = match direction {
        Direction::North => (0, -1),
        Direction::South => (0, 1),
        Direction::East => (1, 0),
        Direction::West => (-1, 0),
    };
    let mut count: usize = 0;
    let mut x = start_x;
    let mut y = start_y;
    let mut fuel: usize = 10;
    while fuel > 0
        invariant_except_break
            count + walk_count(v, g@, w as int, h as int, x as int, y as int, dx as int, dy as int, fuel as nat) == walk_count(v, g@, w as int, h as int, start_x as int, start_y as int, dx as int, dy as int, 10),
        invariant
            fuel <= 10,
            count + fuel == 10,
            v == tiles_view(m@),
            view_shaped(v, w as int, h as int),
            grid_shaped(g@, w as int, h as int),
            w <= 0x1_0000_0000,
            h <= 0x1_0000_0000,
            -0x1_0000_0000 <= x <= 0x1_0000_0000,
            -0x1_0000_0000 <= y <= 0x1_0000_0000,
            dx as int == step_of(direction).0,
            dy as int == step_of(direction).1,
        ensures
            count == walk_count(v, g@, w as int, h as int, start_x as int, start_y as int, dx as int, dy as int, 10),
        decreases fuel,
    {
        let nx = x + dx;
        let ny = y + dy;
        if ny < 0 || ny >= h as i64 || nx < 0 || nx >= w as i64 {
            break;
        }
        if g[ny as usize][nx as usize] != TILE_FLOOR {
            break;
        }
        count += 1;
        fuel -= 1;
        x = nx;
        y = ny;
        assert(v[y as int] == m@[y as int]@.map_values(|t: MarbleTile| t@));
        let t = m[y as usize][x as usize].tile_type;
        if t == TileType::TJunction || t == TileType::CrossJunction || t == TileType::YJunction {
            break;
        }
    }
    count
}

/// The tile that the merge pass makes of `(x, y)` in `v`: a cross junction
/// becomes a merge when one direction's downstream run is at least 3 and
/// strictly longer than every other, and at least three directions have some
/// run; its rotation is that direction (north 0, east 1, south 2, west 3).
pub open spec fn merge_cell(v: Seq<Seq<TileView>>, g: Seq<Vec<char>>, w: int, h: int, x: int, y: int) -> TileView {
    let t = v[y][x];
    if !(t.tile_type is CrossJunction) {
        t
    } else {
        let n = downstream_spec(v, g, w, h, x, y - 1, Direction::North);
        let s = downstream_spec(v, g, w, h, x, y + 1, Direction::South);
        let ea = downstream_spec(v, g, w, h, x + 1, y, Direction::East);
        let we = downstream_spec(v, g, w, h, x - 1, y, Direction::West);
        let mx = vstd::math::max(vstd::math::max(n as int, s as int), vstd::math::max(ea as int, we as int));
        let nonzero = one_if(n > 0) + one_if(s > 0) + one_if(ea > 0) + one_if(we > 0);
        let at_max = one_if(n == mx) + one_if(s == mx) + one_if(ea == mx) + one_if(we == mx);
        if mx >= 3 && nonzero >= 3 && at_max == 1 {
            tile_spec(
                TileType::Merge,
                t.elevation,
                if n == mx {
                    0
                } else if ea == mx {
                    1
                } else if s == mx {
                    2
                } else {
                    3
                },
                true,
            )
        } else {
            t
        }
    }
}

/// `v` after the merge pass has visited cells `1..x` of row `y`.
pub open spec fn merge_row(v: Seq<Seq<TileView>>, g: Seq<Vec<char>>, w: int, h: int, y: int, x: int) -> Seq<Seq<TileView>>
    decreases x,
{
    if x <= 1 {
        v
    } else {
        let p = merge_row(v, g, w, h, y, x - 1);
        p.update(y, p[y].update(x - 1, merge_cell(p, g, w, h, x - 1, y)))
    }
}

/// `v` after the merge pass has visited rows `1..y`.
pub open spec fn merge_rows(v: Seq<Seq<TileView>>, g: Seq<Vec<char>>, w: int, h: int, y: int) -> Seq<Seq<TileView>>
    decreases y,
{
    if y <= 1 {
        v
    } else {
        merge_row(merge_rows(v, g, w, h, y - 1), g, w, h, y - 1, w - 1)
    }
}

proof fn lemma_merge_row_shape(v: Seq<Seq<TileView>>, g: Seq<Vec<char>>, w: int, h: int, y: int, x: int)
    requires
        view_shaped(v, w, h),
        0 <= y < h,
        x <= w,
    ensures
        view_shaped(merge_row(v, g, w, h, y, x), w, h),
    decreases x,
{
    if x > 1 {
        lemma_merge_row_shape(v, g, w, h, y, x - 1);
    }
}

proof fn lemma_merge_rows_shape(v: Seq<Seq<TileView>>, g: Seq<Vec<char>>, w: int, h: int, y: int)
    requires
        view_shaped(v, w, h),
        y <= h,
        w >= 1,
    ensures
        view_shaped(merge_rows(v, g, w, h, y), w, h),
    decreases y,
{
    if y > 1 {
        lemma_merge_rows_shape(v, g, w, h, y - 1);
        lemma_merge_row_shape(merge_rows(v, g, w, h, y - 1), g, w, h, y - 1, w - 1);
    }
}

proof fn lemma_merge_rows_narrow(v: Seq<Seq<TileView>>, g: Seq<Vec<char>>, w: int, h: int, y: int)
    requires
        w <= 1,
    ensures
        merge_rows(v, g, w, h, y) == v,
    decreases y,
{
    if y > 1 {
        lemma_merge_rows_narrow(v, g, w, h, y - 1);
    }
}

/// The merge pass: cross junctions become merges, visited in row-major order
/// over all but the border, each seeing the substitutions made before it.
pub fn merge_pass(m: &mut Vec<Vec<MarbleTile>>, g: &Vec<Vec<char>>, w: usize, h: usize)
    requires
        view_shaped(tiles_view(old(m)@), w as int, h as int),
        grid_shaped(g@, w as int, h as int),
        1 <= w <= 0x1_0000_0000,
        1 <= h <= 0x1_0000_0000,
    ensures
        tiles_view(final(m)@) == merge_rows(tiles_view(old(m)@), g@, w as int, h as int, h - 1),
{
    let ghost v0 = tiles_view(m@);
    if w < 2 || h < 2 {
        proof {
            if w < 2 {
                lemma_merge_rows_narrow(v0, g@, w as int, h as int, h - 1);
            }
        }
        return;
    }
    let mut y: usize = 1;
    while y + 1 < h
        invariant
            1 <= y <= h - 1,
            grid_shaped(g@, w as int, h as int),
            2 <= w <= 0x1_0000_0000,
            2 <= h <= 0x1_0000_0000,
            view_shaped(v0, w as int, h as int),
            m@.len() == h,
            tiles_view(m@) == merge_rows(v0, g@, w as int, h as int, y as int),
        decreases h - y,
    {
        let ghost base = merge_rows(v0, g@, w as int, h as int, y as int);
        proof {
            lemma_merge_rows_shape(v0, g@, w as int, h as int, y as int);
        }
        let mut x: usize = 1;
        while x + 1 < w
            invariant
                1 <= x <= w - 1,
                1 <= y < h - 1,
                grid_shaped(g@, w as int, h as int),
                2 <= w <= 0x1_0000_0000,
                2 <= h <= 0x1_0000_0000,
                view_shaped(base, w as int, h as int),
                m@.len() == h,
                tiles_view(m@) == merge_row(base, g@, w as int, h as int, y as int, x as int),
            decreases w - x,
        {
            let ghost cur = tiles_view(m@);
            proof {
                lemma_merge_row_shape(base, g@, w as int, h as int, y as int, x as int);
                assert(cur[y as int] == m@[y as int]@.map_values(|t: MarbleTile| t@));
            }
            if m[y][x].tile_type == TileType::CrossJunction {
                let ix = x as i64;
                let iy = y as i64;
                let north = count_connections_downstream(m, g, w, h, ix, iy - 1, Direction::North);
                let south = count_connections_downstream(m, g, w, h, ix, iy + 1, Direction::South);
                let east = count_connections_downstream(m, g, w, h, ix + 1, iy, Direction::East);
                let west = count_connections_downstream(m, g, w, h, ix - 1, iy, Direction::West);
                let a = if north >= south { north } else { south };
                let b = if east >= west { east } else { west };
                let max_connections = if a >= b { a } else { b };
                let nonzero: u32 = (if north > 0 { 1u32 } else { 0 }) + (if south > 0 { 1u32 } else { 0 })
                    + (if east > 0 { 1u32 } else { 0 }) + (if west > 0 { 1u32 } else { 0 });
                let at_max: u32 = (if north == max_connections { 1u32 } else { 0 }) + (if south == max_connections { 1u32 } else { 0 })
                    + (if east == max_connections { 1u32 } else { 0 }) + (if west == max_connections { 1u32 } else { 0 });
                if max_connections >= 3 && nonzero >= 3 && at_max == 1 {
                    let output_dir: u8 = if north == max_connections {
                        0
                    } else if east == max_connections {
                        1
                    } else if south == max_connections {
                        2
                    } else {
                        3
                    };
                    let elevation = m[y][x].elevation;
                    set_tile(m, x, y, MarbleTile::with_params(TileType::Merge, elevation, output_dir, true));
                }
            }
            proof {
                assert(tiles_view(m@) =~~= cur.update(y as int, cur[y as int].update(x as int, merge_cell(cur, g@, w as int, h as int, x as int, y as int))));
            }
            x += 1;
        }
        y += 1;
    }
}

/// The grid after the advanced-tile passes, in order: Y-junctions, merges,
/// one-way gates, then (with elevation) loop-de-loops and half-pipes, then launch pads.
pub open spec fn advanced_spec(
    v: Seq<Seq<TileView>>,
    g: Seq<Vec<char>>,
    e: Seq<Vec<i32>>,
    w: int,
    h: int,
    enable_elevation: bool,
) -> Seq<Seq<TileView>> {
    let a = pass_spec(Pass::YJunction, v, g, e, w, h);
    let b = merge_rows(a, g, w, h, h - 1);
    let c = pass_spec(Pass::OneWayGate, b, g, e, w, h);
    let d = if enable_elevation {
        pass_spec(Pass::HalfPipe, pass_spec(Pass::LoopDeLoop, c, g, e, w, h), g, e, w, h)
    } else {
        c
    };
    pass_spec(Pass::LaunchPad, d, g, e, w, h)
}

/// The marble grid of a carved grid: base classification, advanced tiles,
/// then (with elevation) slopes.
pub open spec fn marble_spec(
    g: Seq<Vec<char>>,
    e: Seq<Vec<i32>>,
    w: int,
    h: int,
    enable_elevation: bool,
) -> Seq<Seq<TileView>> {
    let adv = advanced_spec(base_grid(g, e, w, h), g, e, w, h, enable_elevation);
    if enable_elevation {
        pass_spec(Pass::Slope, adv, g, e, w, h)
    } else {
        adv
    }
}

/// Apply the advanced-tile passes.
pub fn place_advanced_tiles(
    m: &mut Vec<Vec<MarbleTile>>,
    g: &Vec<Vec<char>>,
    e: &Vec<Vec<i32>>,
    w: usize,
    h: usize,
    enable_elevation: bool,
)
    requires
        view_shaped(tiles_view(old(m)@), w as int, h as int),
        grid_shaped(g@, w as int, h as int),
        map_shaped(e@, w as int, h as int),
        1 <= w <= 0x1_0000_0000,
        1 <= h <= 0x1_0000_0000,
    ensures
        tiles_view(final(m)@) == advanced_spec(tiles_view(old(m)@), g@, e@, w as int, h as int, enable_elevation),
{
    let ghost v0 = tiles_view(m@);
    run_pass(Pass::YJunction, m, g, e, w, h);
    assert(view_shaped(tiles_view(m@), w as int, h as int));
    let ghost a = tiles_view(m@);
    merge_pass(m, g, w, h);
    proof {
        lemma_merge_rows_shape(a, g@, w as int, h as int, h - 1);
    }
    run_pass(Pass::OneWayGate, m, g, e, w, h);
    assert(view_shaped(tiles_view(m@), w as int, h as int));
    if enable_elevation {
        run_pass(Pass::LoopDeLoop, m, g, e, w, h);
        assert(view_shaped(tiles_view(m@), w as int, h as int));
        run_pass(Pass::HalfPipe, m, g, e, w, h);
        assert(view_shaped(tiles_view(m@), w as int, h as int));
    }
    run_pass(Pass::LaunchPad, m, g, e, w, h);
}

/// Classify a carved `w` by `h` grid into marble tiles: base types from
/// neighbour counts, then advanced tiles, then (with elevation) slopes.
pub fn grid_to_marble_tiles(
    g: &Vec<Vec<char>>,
    e: &Vec<Vec<i32>>,
    w: usize,
    h: usize,
    enable_elevation: bool,
) -> (m: Vec<Vec<MarbleTile>>)
    requires
        grid_shaped(g@, w as int, h as int),
        map_shaped(e@, w as int, h as int),
        1 <= w <= 0x1_0000_0000,
        1 <= h <= 0x1_0000_0000,
    ensures
        tiles_view(m@) == marble_spec(g@, e@, w as int, h as int, enable_elevation),
{
    let mut m = classify_base(g, e, w, h);
    assert(view_shaped(tiles_view(m@), w as int, h as int));
    place_advanced_tiles(&mut m, g, e, w, h, enable_elevation);
    if enable_elevation {
        proof {
            let a = tiles_view(m@);
            assert(view_shaped(a, w as int, h as int));
        }
        run_pass(Pass::Slope, &mut m, g, e, w, h);
    }
    m
}

/// Every tile's rotation is one of 0, 1, 2, 3.
pub open spec fn rotations_bounded(v: Seq<Seq<TileView>>) -> bool {
    forall|y: int, x: int| 0 <= y < v.len() && 0 <= x < v[y].len() ==> (#[trigger] v[y][x]).rotation < 4
}

proof fn lemma_pass_keeps_rotations(
    pass: Pass,
    v: Seq<Seq<TileView>>,
    g: Seq<Vec<char>>,
    e: Seq<Vec<i32>>,
    w: int,
    h: int,
)
    requires
        view_shaped(v, w, h),
        rotations_bounded(v),
    ensures
        view_shaped(pass_spec(pass, v, g, e, w, h), w, h),
        rotations_bounded(pass_spec(pass, v, g, e, w, h)),
{
    let p = pass_spec(pass, v, g, e, w, h);
    assert forall|y: int, x: int| 0 <= y < p.len() && 0 <= x < p[y].len() implies (#[trigger] p[y][x]).rotation < 4 by {
        assert(v[y][x].rotation < 4);
    }
}

proof fn lemma_merge_row_keeps_rotations(v: Seq<Seq<TileView>>, g: Seq<Vec<char>>, w: int, h: int, y: int, x: int)
    requires
        view_shaped(v, w, h),
        rotations_bounded(v),
        0 <= y < h,
        x <= w,
    ensures
        rotations_bounded(merge_row(v, g, w, h, y, x)),
    decreases x,
{
    if x > 1 {
        lemma_merge_row_keeps_rotations(v, g, w, h, y, x - 1);
        lemma_merge_row_shape(v, g, w, h, y, x - 1);
        let p = merge_row(v, g, w, h, y, x - 1);
        let q = merge_row(v, g, w, h, y, x);
        assert forall|yy: int, xx: int| 0 <= yy < q.len() && 0 <= xx < q[yy].len() implies (#[trigger] q[yy][xx]).rotation < 4 by {
            assert(p[y][x - 1].rotation < 4);
            if yy != y || xx != x - 1 {
                assert(q[yy][xx] == p[yy][xx]);
            }
        }
    }
}

proof fn lemma_merge_rows_keeps_rotations(v: Seq<Seq<TileView>>, g: Seq<Vec<char>>, w: int, h: int, y: int)
    requires
        view_shaped(v, w, h),
        rotations_bounded(v),
        y <= h,
        w >= 1,
    ensures
        rotations_bounded(merge_rows(v, g, w, h, y)),
    decreases y,
{
    if y > 1 {
        lemma_merge_rows_keeps_rotations(v, g, w, h, y - 1);
        lemma_merge_rows_shape(v, g, w, h, y - 1);
        lemma_merge_row_keeps_rotations(merge_rows(v, g, w, h, y - 1), g, w, h, y - 1, w - 1);
    }
}

/// Every tile of a classified grid has a rotation in `{0, 1, 2, 3}`.
pub proof fn lemma_marble_rotations_bounded(
    g: Seq<Vec<char>>,
    e: Seq<Vec<i32>>,
    w: int,
    h: int,
    enable_elevation: bool,
)
    requires
        1 <= w,
        1 <= h,
    ensures
        rotations_bounded(marble_spec(g, e, w, h, enable_elevation)),
        view_shaped(marble_spec(g, e, w, h, enable_elevation), w, h),
{
    let b = base_grid(g, e, w, h);
    assert(view_shaped(b, w, h));
    assert(rotations_bounded(b));
    lemma_pass_keeps_rotations(Pass::YJunction, b, g, e, w, h);
    let a = pass_spec(Pass::YJunction, b, g, e, w, h);
    lemma_merge_rows_keeps_rotations(a, g, w, h, h - 1);
    lemma_merge_rows_shape(a, g, w, h, h - 1);
    let bb = merge_rows(a, g, w, h, h - 1);
    lemma_pass_keeps_rotations(Pass::OneWayGate, bb, g, e, w, h);
    let c = pass_spec(Pass::OneWayGate, bb, g, e, w, h);
    lemma_pass_keeps_rotations(Pass::LoopDeLoop, c, g, e, w, h);
    let l = pass_spec(Pass::LoopDeLoop, c, g, e, w, h);
    lemma_pass_keeps_rotations(Pass::HalfPipe, l, g, e, w, h);
    let d = if enable_elevation { pass_spec(Pass::HalfPipe, l, g, e, w, h) } else { c };
    lemma_pass_keeps_rotations(Pass::LaunchPad, d, g, e, w, h);
    let adv = pass_spec(Pass::LaunchPad, d, g, e, w, h);
    lemma_pass_keeps_rotations(Pass::Slope, adv, g, e, w, h);
}

/// Every floor cell of `g` holds a passable tile that is not an obstacle.
pub open spec fn floor_passable(v: Seq<Seq<TileView>>, g: Seq<Vec<char>>, w: int, h: int) -> bool {
    forall|y: int, x: int|
        0 <= y < h && 0 <= x < w && is_floor_at(g, x, y) ==> (#[trigger] v[y][x]).tile_type.spec_is_passable()
            && !(v[y][x].tile_type is Obstacle)
}

proof fn lemma_pass_keeps_floor_passable(
    pass: Pass,
    v: Seq<Seq<TileView>>,
    g: Seq<Vec<char>>,
    e: Seq<Vec<i32>>,
    w: int,
    h: int,
)
    requires
        view_shaped(v, w, h),
        floor_passable(v, g, w, h),
    ensures
        floor_passable(pass_spec(pass, v, g, e, w, h), g, w, h),
{
    let p = pass_spec(pass, v, g, e, w, h);
    assert forall|y: int, x: int| 0 <= y < h && 0 <= x < w && is_floor_at(g, x, y) implies (#[trigger] p[y][x]).tile_type.spec_is_passable()
        && !(p[y][x].tile_type is Obstacle) by {
        assert(v[y][x].tile_type.spec_is_passable());
    }
}

proof fn lemma_merge_row_keeps_floor_passable(v: Seq<Seq<TileView>>, g: Seq<Vec<char>>, w: int, h: int, y: int, x: int)
    requires
        view_shaped(v, w, h),
        floor_passable(v, g, w, h),
        0 <= y < h,
        x <= w,
    ensures
        floor_passable(merge_row(v, g, w, h, y, x), g, w, h),
    decreases x,
{
    if x > 1 {
        lemma_merge_row_keeps_floor_passable(v, g, w, h, y, x - 1);
        lemma_merge_row_shape(v, g, w, h, y, x - 1);
        let p = merge_row(v, g, w, h, y, x - 1);
        let q = merge_row(v, g, w, h, y, x);
        assert forall|yy: int, xx: int| 0 <= yy < h && 0 <= xx < w && is_floor_at(g, xx, yy) implies (#[trigger] q[yy][xx]).tile_type.spec_is_passable()
            && !(q[yy][xx].tile_type is Obstacle) by {
            if yy != y || xx != x - 1 {
                assert(q[yy][xx] == p[yy][xx]);
            }
        }
    }
}

proof fn lemma_merge_rows_keeps_floor_passable(v: Seq<Seq<TileView>>, g: Seq<Vec<char>>, w: int, h: int, y: int)
    requires
        view_shaped(v, w, h),
        floor_passable(v, g, w, h),
        y <= h,
        w >= 1,
    ensures
        floor_passable(merge_rows(v, g, w, h, y), g, w, h),
    decreases y,
{
    if y > 1 {
        lemma_merge_rows_keeps_floor_passable(v, g, w, h, y - 1);
        lemma_merge_rows_shape(v, g, w, h, y - 1);
        lemma_merge_row_keeps_floor_passable(merge_rows(v, g, w, h, y - 1), g, w, h, y - 1, w - 1);
    }
}

/// Every floor cell of a classified grid holds a passable tile that is not an obstacle.
pub proof fn lemma_marble_floor_passable(
    g: Seq<Vec<char>>,
    e: Seq<Vec<i32>>,
    w: int,
    h: int,
    enable_elevation: bool,
)
    requires
        1 <= w,
        1 <= h,
    ensures
        floor_passable(marble_spec(g, e, w, h, enable_elevation), g, w, h),
{
    let b = base_grid(g, e, w, h);
    assert(view_shaped(b, w, h));
    assert(floor_passable(b, g, w, h));
    lemma_pass_keeps_floor_passable(Pass::YJunction, b, g, e, w, h);
    let a = pass_spec(Pass::YJunction, b, g, e, w, h);
    assert(view_shaped(a, w, h));
    lemma_merge_rows_keeps_floor_passable(a, g, w, h, h - 1);
    lemma_merge_rows_shape(a, g, w, h, h - 1);
    let bb = merge_rows(a, g, w, h, h - 1);
    lemma_pass_keeps_floor_passable(Pass::OneWayGate, bb, g, e, w, h);
    let c = pass_spec(Pass::OneWayGate, bb, g, e, w, h);
    assert(view_shaped(c, w, h));
    lemma_pass_keeps_floor_passable(Pass::LoopDeLoop, c, g, e, w, h);
    let l = pass_spec(Pass::LoopDeLoop, c, g, e, w, h);
    assert(view_shaped(l, w, h));
    lemma_pass_keeps_floor_passable(Pass::HalfPipe, l, g, e, w, h);
    let d = if enable_elevation { pass_spec(Pass::HalfPipe, l, g, e, w, h) } else { c };
    assert(view_shaped(d, w, h));
    lemma_pass_keeps_floor_passable(Pass::LaunchPad, d, g, e, w, h);
    let adv = pass_spec(Pass::LaunchPad, d, g, e, w, h);
    assert(view_shaped(adv, w, h));
    lemma_pass_keeps_floor_passable(Pass::Slope, adv, g, e, w, h);
}

} // verus!
