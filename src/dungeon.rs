//! The generation pipeline: room placement, corridor carving, and for marble
//! levels elevation, tile classification and obstacles; or, for mazes, wave
//! function collapse.
use crate::carve::{
    between, is_floor_at, carve_horizontal_tunnel, carve_vertical_tunnel, carve_wide_horizontal,
    carve_wide_horizontal_with_rounded_turn, carve_wide_vertical,
    carve_wide_vertical_with_rounded_turn, carved, half_width, in_quarter_disk, in_wide_horizontal,
    in_wide_vertical, lemma_carved_same_region, lemma_carved_union, Quadrant, MAX_DISK_EXTENT,
    TILE_FLOOR, TILE_WALL,
};
use crate::elevation::{
    create_corridor_elevation_map, elevation_map_of, filled, map_bounded, room_elevation, rooms_bounded,
};
use crate::marble::{
    floor_passable, grid_shaped, grid_to_marble_tiles, lemma_marble_floor_passable,
    lemma_marble_rotations_bounded, map_shaped, marble_spec, rotations_bounded, tiles_view,
};
use crate::obstacles::{
    changes_at_most, gets_obstacle, has_obstacle_in, obstacle_limit, obstacles_placed,
    place_obstacles_in_rooms, rooms_disjoint, MIN_OBSTACLE_ROOM_AREA,
};
use crate::rng::{coin_flip, entropy_seed, seeded_rng};
use crate::room::{
    center_spec, elevation_ok, in_room, in_some_room, is_one_of, rects_overlap, place_rooms, room_fits, rooms_separated,
    sort_rooms_by_center_x, sorted_by_center_x, Room, MAX_ELEVATION, MAX_MAP_DIM, MAX_ROOM_TARGET,
};
use crate::text::chars_to_string;
use crate::tiles::MarbleTile;
use crate::wfc::{generate_wfc_tilemap, maze_valid, rows_view};
use rand::rngs::StdRng;
use vstd::prelude::*;

verus! {

/// Minimum sensible map dimension to avoid degenerate results.
pub const MIN_MAP_DIM: u32 = 10;

/// Minimum sensible room dimension.
pub const MIN_ROOM_DIM: u32 = 3;

/// High-level generation mode.
#[derive(Debug, Clone, Copy, PartialEq, Eq, Structural)]
pub enum GenerationMode {
    /// Rooms joined by one-tile L-shaped tunnels.
    Classic,
    /// Rooms joined by wide channels with rounded corners, classified into marble tiles.
    Marble,
    /// A maze of box-drawing tiles by wave function collapse.
    Wfc,
}

/// Parameters of a generation.
#[derive(Debug, Clone)]
pub struct GeneratorParams {
    /// Target width of the generated map (raised to at least `MIN_MAP_DIM`)
    pub width: u32,
    /// Target height of the generated map (raised to at least `MIN_MAP_DIM`)
    pub height: u32,
    /// Number of rooms to try to place
    pub rooms: u32,
    /// Minimum room side length (raised to at least `MIN_ROOM_DIM`)
    pub min_room: u32,
    /// Maximum room side length (raised to at least `min_room + 1`)
    pub max_room: u32,
    /// Optional RNG seed for reproducible results
    pub seed: Option<u64>,
    /// High-level generation mode
    pub mode: GenerationMode,
    /// Marble mode: channel width in tiles
    pub channel_width: u32,
    /// Marble mode: corner radius in tiles
    pub corner_radius: u32,
    /// Marble mode: enable elevation variation
    pub enable_elevation: bool,
    /// Marble mode: largest room elevation above or below ground level
    /// (clamped to at least 0)
    pub max_elevation: i32,
    /// Marble mode: enable obstacle placement in large rooms
    pub enable_obstacles: bool,
    /// Marble mode: obstacle density in thousandths (1000 is a density of one)
    pub obstacle_density_permille: u32,
}

impl Default for GeneratorParams {
    fn default() -> (r: Self)
        ensures
            r.width == 80 && r.height == 25 && r.rooms == 12 && r.min_room == 4 && r.max_room == 10,
            r.seed is None && r.mode == GenerationMode::Classic,
            r.channel_width == 2 && r.corner_radius == 2,
            !r.enable_elevation && r.max_elevation == 2,
            !r.enable_obstacles && r.obstacle_density_permille == 300,
    {
        GeneratorParams {
            width: 80,
            height: 25,
            rooms: 12,
            min_room: 4,
            max_room: 10,
            seed: None,
            mode: GenerationMode::Classic,
            channel_width: 2,
            corner_radius: 2,
            enable_elevation: false,
            max_elevation: 2,
            enable_obstacles: false,
            obstacle_density_permille: 300,
        }
    }
}

/// A generated level.
#[derive(Debug, Clone)]
pub struct Level {
    /// Width of the level in tiles
    pub width: u32,
    /// Height of the level in tiles
    pub height: u32,
    /// RNG seed used to generate this level
    pub seed: u64,
    /// Rooms that were placed on the map
    pub rooms: Vec<Room>,
    /// Tiles, one string per row: `'#'` is wall, `'.'` is floor (box-drawing symbols in a maze)
    pub tiles: Vec<String>,
    /// Marble tile grid (only in marble mode)
    pub marble_tiles: Option<Vec<Vec<MarbleTile>>>,
}

/// Parameters within what generation can represent: sides and counts that fit
/// its integer arithmetic.
pub open spec fn params_in_limits(p: GeneratorParams) -> bool {
    &&& p.width <= MAX_MAP_DIM
    &&& p.height <= MAX_MAP_DIM
    &&& p.min_room < MAX_MAP_DIM
    &&& p.max_room <= MAX_MAP_DIM
    &&& p.rooms <= MAX_ROOM_TARGET
    &&& p.channel_width <= MAX_DISK_EXTENT
    &&& p.corner_radius <= MAX_DISK_EXTENT
}

/// The elevation bound used: `max_elevation` clamped to `[0, MAX_ELEVATION]`.
pub open spec fn elevation_cap(p: GeneratorParams) -> i32 {
    if p.max_elevation < 0 {
        0
    } else if p.max_elevation > MAX_ELEVATION {
        MAX_ELEVATION
    } else {
        p.max_elevation
    }
}

/// `max_elevation` clamped to `[0, MAX_ELEVATION]`.
fn clamp_elevation(m: i32) -> (r: i32)
    ensures
        r == (if m < 0 { 0 } else if m > MAX_ELEVATION { MAX_ELEVATION } else { m }),
{
    if m < 0 {
        0
    } else if m > MAX_ELEVATION {
        MAX_ELEVATION
    } else {
        m
    }
}

/// `a` raised to at least `b`.
pub open spec fn at_least(a: u32, b: u32) -> u32 {
    if a >= b { a } else { b }
}

/// The width of the map generated for `p`.
pub open spec fn level_width(p: GeneratorParams) -> u32 {
    at_least(p.width, MIN_MAP_DIM)
}

/// The height of the map generated for `p`.
pub open spec fn level_height(p: GeneratorParams) -> u32 {
    at_least(p.height, MIN_MAP_DIM)
}

/// The smallest room side used for `p`.
pub open spec fn room_min(p: GeneratorParams) -> u32 {
    at_least(p.min_room, MIN_ROOM_DIM)
}

/// The largest room side used for `p`.
pub open spec fn room_max(p: GeneratorParams) -> u32 {
    at_least(p.max_room, (room_min(p) + 1) as u32)
}

/// The elevation bound handed to room placement: only for marble levels with elevation.
pub open spec fn elevation_bound(p: GeneratorParams) -> Option<i32> {
    if p.mode == GenerationMode::Marble && p.enable_elevation {
        Some(elevation_cap(p))
    } else {
        None
    }
}

/// The channel width used in marble mode (at least 1).
pub open spec fn channel_of(p: GeneratorParams) -> i32 {
    if p.channel_width >= 1 { p.channel_width as i32 } else { 1 }
}

/// The cells of the one-tile L-shaped tunnel between the centres of `a` and
/// `b`, horizontal first or vertical first.
pub open spec fn classic_corridor(a: Room, b: Room, horizontal_first: bool, x: int, y: int) -> bool {
    let (x1, y1) = center_spec(a);
    let (x2, y2) = center_spec(b);
    if horizontal_first {
        (y == y1 && between(x1, x2, x)) || (x == x2 && between(y1, y2, y))
    } else {
        (x == x1 && between(y1, y2, y)) || (y == y2 && between(x1, x2, x))
    }
}

/// The cells of the wide channel between the centres of `a` and `b`,
/// horizontal first or vertical first, with the corner rounded by the quarter
/// ring on the side the channel turns towards.
pub open spec fn marble_corridor(a: Room, b: Room, horizontal_first: bool, w: i32, r: i32, x: int, y: int) -> bool {
    let (x1, y1) = center_spec(a);
    let (x2, y2) = center_spec(b);
    let radius = if r >= half_width(w) { r as int } else { half_width(w) };
    if horizontal_first {
        in_wide_horizontal(x1, x2, y1, w, x, y) || in_quarter_disk(x2, y1, radius, w, if y2 >= y1 { Quadrant::Down } else { Quadrant::Up }, x, y)
            || in_wide_vertical(y1, y2, x2, w, x, y)
    } else {
        in_wide_vertical(y1, y2, x1, w, x, y) || in_quarter_disk(x1, y2, radius, w, if x2 >= x1 { Quadrant::Right } else { Quadrant::Left }, x, y)
            || in_wide_horizontal(x1, x2, y2, w, x, y)
    }
}

/// The cells of the corridor joining room `i - 1` to room `i`, oriented by `flips[i]`.
pub open spec fn corridor_between(
    mode: GenerationMode,
    rooms: Seq<Room>,
    flips: Seq<bool>,
    w: i32,
    r: i32,
    i: int,
    x: int,
    y: int,
) -> bool {
    if mode == GenerationMode::Classic {
        classic_corridor(rooms[i - 1], rooms[i], flips[i], x, y)
    } else {
        marble_corridor(rooms[i - 1], rooms[i], flips[i], w, r, x, y)
    }
}

/// Whether `(x, y)` lies on one of the corridors joining rooms `j - 1` and `j`, `1 <= j < n`.
pub open spec fn on_corridor(
    mode: GenerationMode,
    rooms: Seq<Room>,
    flips: Seq<bool>,
    w: i32,
    r: i32,
    n: int,
    x: int,
    y: int,
) -> bool {
    exists|j: int| 1 <= j < n && #[trigger] corridor_between(mode, rooms, flips, w, r, j, x, y)
}

/// `g` is a `w` by `h` grid that is floor exactly on `region` and wall elsewhere.
pub open spec fn carved_from_walls(g: Seq<Vec<char>>, w: int, h: int, region: spec_fn(int, int) -> bool) -> bool {
    &&& grid_shaped(g, w, h)
    &&& forall|y: int, x: int| 0 <= y < h && 0 <= x < w ==> #[trigger] g[y]@[x] == if region(x, y) {
        TILE_FLOOR
    } else {
        TILE_WALL
    }
}

/// The rows of `tiles` spell the rows of `g`.
pub open spec fn tiles_spell(tiles: Seq<String>, g: Seq<Vec<char>>) -> bool {
    &&& tiles.len() == g.len()
    &&& forall|y: int| 0 <= y < g.len() ==> (#[trigger] tiles[y])@ == g[y]@
}

/// `new` is `old` with the corridors joining consecutive `rooms`, oriented by
/// `flips`, carved into it.
pub open spec fn corridors_carved(
    old: Seq<Vec<char>>,
    new: Seq<Vec<char>>,
    mode: GenerationMode,
    rooms: Seq<Room>,
    flips: Seq<bool>,
    w: i32,
    r: i32,
) -> bool {
    &&& flips.len() == rooms.len()
    &&& carved(old, new, |x: int, y: int| on_corridor(mode, rooms, flips, w, r, rooms.len() as int, x, y))
}

proof fn lemma_on_corridor_push(
    mode: GenerationMode,
    rooms: Seq<Room>,
    flips: Seq<bool>,
    b: bool,
    w: i32,
    r: i32,
    i: int,
)
    requires
        flips.len() == i,
        1 <= i,
    ensures
        forall|x: int, y: int|
            #[trigger] on_corridor(mode, rooms, flips.push(b), w, r, i + 1, x, y) == (on_corridor(mode, rooms, flips, w, r, i, x, y)
                || corridor_between(mode, rooms, flips.push(b), w, r, i, x, y)),
{
    let f = flips.push(b);
    assert forall|x: int, y: int|
        #[trigger] on_corridor(mode, rooms, f, w, r, i + 1, x, y) == (on_corridor(mode, rooms, flips, w, r, i, x, y)
            || corridor_between(mode, rooms, f, w, r, i, x, y)) by {
        if on_corridor(mode, rooms, f, w, r, i + 1, x, y) {
            let j = choose|j: int| 1 <= j < i + 1 && #[trigger] corridor_between(mode, rooms, f, w, r, j, x, y);
            if j < i {
                assert(f[j] == flips[j]);
                assert(corridor_between(mode, rooms, flips, w, r, j, x, y));
            }
        }
        if on_corridor(mode, rooms, flips, w, r, i, x, y) {
            let j = choose|j: int| 1 <= j < i && #[trigger] corridor_between(mode, rooms, flips, w, r, j, x, y);
            assert(f[j] == flips[j]);
            assert(corridor_between(mode, rooms, f, w, r, j, x, y));
        }
    }
}

/// Join each room to the one before it with a corridor whose orientation is
/// a fair coin flip: one-tile tunnels in classic mode, wide channels with a
/// rounded corner in marble mode.
pub fn connect_rooms(
    grid: &mut Vec<Vec<char>>,
    rooms: &Vec<Room>,
    mode: GenerationMode,
    channel: i32,
    radius: i32,
    rng: &mut StdRng,
)
    requires
        mode != GenerationMode::Wfc,
        forall|i: int| 0 <= i < rooms@.len() ==> {
            let c = center_spec(#[trigger] rooms@[i]);
            i32::MIN <= c.0 <= i32::MAX && i32::MIN <= c.1 <= i32::MAX
        },
        0 <= channel <= MAX_DISK_EXTENT,
        0 <= radius <= MAX_DISK_EXTENT,
    ensures
        exists|flips: Seq<bool>| #[trigger] corridors_carved(old(grid)@, final(grid)@, mode, rooms@, flips, channel, radius),
{
    let ghost g0 = grid@;
    let ghost mut flips: Seq<bool> = seq![false];
    if rooms.len() == 0 {
        proof {
            lemma_carved_same_region(g0, grid@, |x: int, y: int| false, |x: int, y: int| on_corridor(mode, rooms@, Seq::<bool>::empty(), channel, radius, 0, x, y));
            assert(corridors_carved(g0, grid@, mode, rooms@, Seq::<bool>::empty(), channel, radius));
        }
        return;
    }
    proof {
        lemma_carved_same_region(g0, grid@, |x: int, y: int| false, |x: int, y: int| on_corridor(mode, rooms@, flips, channel, radius, 1, x, y));
    }
    let mut i: usize = 1;
    while i < rooms.len()
        invariant
            1 <= i <= rooms@.len(),
            flips.len() == i,
            mode != GenerationMode::Wfc,
            forall|k: int| 0 <= k < rooms@.len() ==> {
                let c = center_spec(#[trigger] rooms@[k]);
                i32::MIN <= c.0 <= i32::MAX && i32::MIN <= c.1 <= i32::MAX
            },
            0 <= channel <= MAX_DISK_EXTENT,
            0 <= radius <= MAX_DISK_EXTENT,
            carved(g0, grid@, |x: int, y: int| on_corridor(mode, rooms@, flips, channel, radius, i as int, x, y)),
        decreases rooms@.len() - i,
    {
        let (x1, y1) = rooms[i - 1].center();
        let (x2, y2) = rooms[i].center();
        let ghost before = grid@;
        let horizontal_first = coin_flip(rng);
        let ghost nf = flips.push(horizontal_first);
        if mode == GenerationMode::Classic {
            if horizontal_first {
                carve_horizontal_tunnel(grid, x1, x2, y1);
                let ghost mid = grid@;
                carve_vertical_tunnel(grid, y1, y2, x2);
                proof {
                    lemma_carved_union(before, mid, grid@,
                        |x: int, y: int| y == y1 && between(x1 as int, x2 as int, x),
                        |x: int, y: int| x == x2 && between(y1 as int, y2 as int, y));
                }
            } else {
                carve_vertical_tunnel(grid, y1, y2, x1);
                let ghost mid = grid@;
                carve_horizontal_tunnel(grid, x1, x2, y2);
                proof {
                    lemma_carved_union(before, mid, grid@,
                        |x: int, y: int| x == x1 && between(y1 as int, y2 as int, y),
                        |x: int, y: int| y == y2 && between(x1 as int, x2 as int, x));
                }
            }
        } else {
            let ghost radius_used: int = if radius >= half_width(channel) { radius as int } else { half_width(channel) };
            if horizontal_first {
                carve_wide_horizontal_with_rounded_turn(grid, x1, x2, y1, channel, radius, y2 >= y1);
                let ghost mid = grid@;
                carve_wide_vertical(grid, y1, y2, x2, channel);
                proof {
                    lemma_carved_union(before, mid, grid@,
                        |x: int, y: int| in_wide_horizontal(x1 as int, x2 as int, y1 as int, channel, x, y)
                            || in_quarter_disk(x2 as int, y1 as int, radius_used, channel, if y2 >= y1 { Quadrant::Down } else { Quadrant::Up }, x, y),
                        |x: int, y: int| in_wide_vertical(y1 as int, y2 as int, x2 as int, channel, x, y));
                }
            } else {
                carve_wide_vertical_with_rounded_turn(grid, y1, y2, x1, channel, radius, x2 >= x1);
                let ghost mid = grid@;
                carve_wide_horizontal(grid, x1, x2, y2, channel);
                proof {
                    lemma_carved_union(before, mid, grid@,
                        |x: int, y: int| in_wide_vertical(y1 as int, y2 as int, x1 as int, channel, x, y)
                            || in_quarter_disk(x1 as int, y2 as int, radius_used, channel, if x2 >= x1 { Quadrant::Right } else { Quadrant::Left }, x, y),
                        |x: int, y: int| in_wide_horizontal(x1 as int, x2 as int, y2 as int, channel, x, y));
                }
            }
        }
        proof {
            assert(nf[i as int] == horizontal_first);
            lemma_carved_same_region(before, grid@,
                |x: int, y: int| if mode == GenerationMode::Classic {
                    if horizontal_first {
                        (y == y1 && between(x1 as int, x2 as int, x)) || (x == x2 && between(y1 as int, y2 as int, y))
                    } else {
                        (x == x1 && between(y1 as int, y2 as int, y)) || (y == y2 && between(x1 as int, x2 as int, x))
                    }
                } else {
                    let ghost radius_used: int = if radius >= half_width(channel) { radius as int } else { half_width(channel) };
                    if horizontal_first {
                        (in_wide_horizontal(x1 as int, x2 as int, y1 as int, channel, x, y)
                            || in_quarter_disk(x2 as int, y1 as int, radius_used, channel, if y2 >= y1 { Quadrant::Down } else { Quadrant::Up }, x, y))
                            || in_wide_vertical(y1 as int, y2 as int, x2 as int, channel, x, y)
                    } else {
                        (in_wide_vertical(y1 as int, y2 as int, x1 as int, channel, x, y)
                            || in_quarter_disk(x1 as int, y2 as int, radius_used, channel, if x2 >= x1 { Quadrant::Right } else { Quadrant::Left }, x, y))
                            || in_wide_horizontal(x1 as int, x2 as int, y2 as int, channel, x, y)
                    }
                },
                |x: int, y: int| corridor_between(mode, rooms@, nf, channel, radius, i as int, x, y));
            lemma_carved_union(g0, before, grid@,
                |x: int, y: int| on_corridor(mode, rooms@, flips, channel, radius, i as int, x, y),
                |x: int, y: int| corridor_between(mode, rooms@, nf, channel, radius, i as int, x, y));
            lemma_on_corridor_push(mode, rooms@, flips, horizontal_first, channel, radius, i as int);
            lemma_carved_same_region(g0, grid@,
                |x: int, y: int| on_corridor(mode, rooms@, flips, channel, radius, i as int, x, y)
                    || corridor_between(mode, rooms@, nf, channel, radius, i as int, x, y),
                |x: int, y: int| on_corridor(mode, rooms@, nf, channel, radius, i + 1, x, y));
            flips = nf;
        }
        i += 1;
    }
    assert(corridors_carved(g0, grid@, mode, rooms@, flips, channel, radius));
}

/// Rooms as generation returns them for `p`: at most the number asked for,
/// each fitting the map with sides in range and the elevation that `p` calls
/// for, no two within one tile of each other, ordered by the x of their centres.
pub open spec fn rooms_generated(rooms: Seq<Room>, p: GeneratorParams) -> bool {
    &&& rooms.len() <= p.rooms
    &&& forall|i: int|
        0 <= i < rooms.len() ==> room_fits(
            #[trigger] rooms[i],
            level_width(p) as int,
            level_height(p) as int,
            room_min(p) as int,
            room_max(p) as int,
        ) && elevation_ok(rooms[i], elevation_bound(p))
    &&& rooms_separated(rooms)
    &&& sorted_by_center_x(rooms)
    &&& (p.rooms >= 1 && room_max(p) + 4 < level_width(p) && room_max(p) + 4 < level_height(p)) ==> rooms.len() >= 1
}

/// `g` is the map for `p`: floor exactly on the rooms and on the corridors
/// joining consecutive rooms, oriented by `flips`; wall elsewhere.
pub open spec fn layout_from(g: Seq<Vec<char>>, rooms: Seq<Room>, flips: Seq<bool>, p: GeneratorParams) -> bool {
    &&& flips.len() == rooms.len()
    &&& carved_from_walls(
        g,
        level_width(p) as int,
        level_height(p) as int,
        |x: int, y: int|
            in_some_room(rooms, x, y) || on_corridor(
                p.mode,
                rooms,
                flips,
                channel_of(p),
                p.corner_radius as i32,
                rooms.len() as int,
                x,
                y,
            ),
    )
}

/// `mv` is the marble grid of map `g` for `p` under elevation map `e`: `e` is
/// all zeros without elevation, and with it the smoothed nearest-room map of
/// `g` and the rooms, within the elevation bound; and
/// `mv` is the classified grid with, when enabled, obstacles placed.
pub open spec fn marble_from(
    g: Seq<Vec<char>>,
    e: Seq<Vec<i32>>,
    mv: Seq<Seq<crate::tiles::TileView>>,
    rooms: Seq<Room>,
    p: GeneratorParams,
) -> bool {
    let w = level_width(p) as int;
    let h = level_height(p) as int;
    &&& map_shaped(e, w, h)
    &&& if p.enable_elevation {
        &&& elevation_map_of(e, g, rooms, w, h)
        &&& map_bounded(e, elevation_cap(p) as int)
        &&& forall|k: int, x: int, y: int|
            0 <= k < rooms.len() && 0 <= x < w && 0 <= y < h && #[trigger] in_room(rooms[k], x, y) ==> e[y]@[x]
                == room_elevation(rooms[k])
    } else {
        forall|y: int, x: int| 0 <= y < h && 0 <= x < w ==> #[trigger] e[y]@[x] == 0
    }
    &&& obstacles_placed(marble_spec(g, e, w, h, p.enable_elevation), mv, rooms, w, h)
    &&& !p.enable_obstacles ==> mv == marble_spec(g, e, w, h, p.enable_elevation)
    &&& p.enable_obstacles ==> forall|i: int|
        0 <= i < rooms.len() && (#[trigger] rooms[i]).w * rooms[i].h >= MIN_OBSTACLE_ROOM_AREA ==> has_obstacle_in(mv, rooms[i])
    &&& p.enable_obstacles ==> forall|i: int|
        0 <= i < rooms.len() ==> changes_at_most(
            marble_spec(g, e, w, h, p.enable_elevation),
            mv,
            #[trigger] rooms[i],
            w,
            h,
            obstacle_limit(rooms[i], p.obstacle_density_permille as int),
        )
}

/// What a classic or marble level generated for `p` over map `g` is.
pub open spec fn level_from(level: Level, g: Seq<Vec<char>>, p: GeneratorParams) -> bool {
    &&& tiles_spell(level.tiles@, g)
    &&& rooms_generated(level.rooms@, p)
    &&& exists|flips: Seq<bool>| #[trigger] layout_from(g, level.rooms@, flips, p)
    &&& p.mode == GenerationMode::Classic ==> level.marble_tiles is None
    &&& p.mode == GenerationMode::Marble ==> match level.marble_tiles {
        Some(mt) => {
            &&& rotations_bounded(tiles_view(mt@))
            &&& exists|e: Seq<Vec<i32>>| #[trigger] marble_from(g, e, tiles_view(mt@), level.rooms@, p)
        },
        None => false,
    }
}

/// A `w` by `h` grid of walls.
fn wall_grid(w: usize, h: usize) -> (g: Vec<Vec<char>>)
    ensures
        grid_shaped(g@, w as int, h as int),
        forall|y: int, x: int| 0 <= y < h && 0 <= x < w ==> #[trigger] g@[y]@[x] == TILE_WALL,
{
    let mut g: Vec<Vec<char>> = Vec::new();
    let mut y: usize = 0;
    while y < h
        invariant
            y <= h,
            g@.len() == y,
            forall|yy: int| 0 <= yy < y ==> (#[trigger] g@[yy])@.len() == w,
            forall|yy: int, x: int| 0 <= yy < y && 0 <= x < w ==> #[trigger] g@[yy]@[x] == TILE_WALL,
        decreases h - y,
    {
        let mut row: Vec<char> = Vec::new();
        let mut x: usize = 0;
        while x < w
            invariant
                x <= w,
                row@.len() == x,
                forall|k: int| 0 <= k < x ==> row@[k] == TILE_WALL,
            decreases w - x,
        {
            row.push(TILE_WALL);
            x += 1;
        }
        g.push(row);
        y += 1;
    }
    g
}

/// One string per row of the grid.
fn grid_to_strings(g: &Vec<Vec<char>>) -> (t: Vec<String>)
    ensures
        tiles_spell(t@, g@),
{
    let mut t: Vec<String> = Vec::new();
    let mut y: usize = 0;
    while y < g.len()
        invariant
            y <= g@.len(),
            t@.len() == y,
            forall|yy: int| 0 <= yy < y ==> (#[trigger] t@[yy])@ == g@[yy]@,
        decreases g@.len() - y,
    {
        t.push(chars_to_string(&g[y]));
        y += 1;
    }
    t
}

/// Place, sort and join the rooms of a classic or marble level for `p`.
fn build_layout(params: &GeneratorParams, rng: &mut StdRng) -> (r: (Vec<Vec<char>>, Vec<Room>))
    requires
        params_in_limits(*params),
        params.mode != GenerationMode::Wfc,
    ensures
        rooms_generated(r.1@, *params),
        grid_shaped(r.0@, level_width(*params) as int, level_height(*params) as int),
        exists|flips: Seq<bool>| #[trigger] layout_from(r.0@, r.1@, flips, *params),
{
    let width = if params.width >= MIN_MAP_DIM { params.width } else { MIN_MAP_DIM };
    let height = if params.height >= MIN_MAP_DIM { params.height } else { MIN_MAP_DIM };
    let min_room = if params.min_room >= MIN_ROOM_DIM { params.min_room } else { MIN_ROOM_DIM };
    let max_room = if params.max_room >= min_room + 1 { params.max_room } else { min_room + 1 };
    let (w, h) = (width as usize, height as usize);
    let mut grid = wall_grid(w, h);
    let ghost g0 = grid@;
    let elevation_bound = if params.mode == GenerationMode::Marble && params.enable_elevation {
        Some(clamp_elevation(params.max_elevation))
    } else {
        None
    };
    let mut rooms = place_rooms(&mut grid, params.rooms, width, height, min_room, max_room, elevation_bound, rng);
    let ghost placed = rooms@;
    let ghost g1 = grid@;
    sort_rooms_by_center_x(&mut rooms);
    proof {
        assert forall|i: int| 0 <= i < rooms@.len() implies room_fits(
            #[trigger] rooms@[i],
            width as int,
            height as int,
            min_room as int,
            max_room as int,
        ) && elevation_ok(rooms@[i], elevation_bound) by {
            assert(is_one_of(rooms@[i], placed));
            let k = choose|k: int| 0 <= k < placed.len() && placed[k] == rooms@[i];
            assert(room_fits(placed[k], width as int, height as int, min_room as int, max_room as int));
            assert(elevation_ok(placed[k], elevation_bound));
        }
    }
    let channel: i32 = if params.channel_width >= 1 { params.channel_width as i32 } else { 1 };
    let radius: i32 = params.corner_radius as i32;
    connect_rooms(&mut grid, &rooms, params.mode, channel, radius, rng);
    let ghost flips = choose|flips: Seq<bool>| #[trigger] corridors_carved(g1, grid@, params.mode, rooms@, flips, channel, radius);
    proof {
        lemma_carved_union(
            g0,
            g1,
            grid@,
            |x: int, y: int| in_some_room(placed, x, y),
            |x: int, y: int| on_corridor(params.mode, rooms@, flips, channel, radius, rooms@.len() as int, x, y),
        );
        assert forall|y: int, x: int| 0 <= y < h && 0 <= x < w implies #[trigger] grid@[y]@[x] == if in_some_room(rooms@, x, y)
            || on_corridor(params.mode, rooms@, flips, channel, radius, rooms@.len() as int, x, y) {
            TILE_FLOOR
        } else {
            TILE_WALL
        } by {
            assert(in_some_room(rooms@, x, y) == in_some_room(placed, x, y));
            assert(g0[y]@[x] == TILE_WALL);
        }
        assert(layout_from(grid@, rooms@, flips, *params));
    }
    let r = (grid, rooms);
    assert(layout_from(r.0@, r.1@, flips, *params));
    r
}

/// The elevation map of a marble level: searched and smoothed with
/// elevation, all zeros without.
fn build_elevation(grid: &Vec<Vec<char>>, rooms: &Vec<Room>, params: &GeneratorParams) -> (e: Vec<Vec<i32>>)
    requires
        params_in_limits(*params),
        params.mode == GenerationMode::Marble,
        rooms_generated(rooms@, *params),
        grid_shaped(grid@, level_width(*params) as int, level_height(*params) as int),
    ensures
        map_shaped(e@, level_width(*params) as int, level_height(*params) as int),
        if params.enable_elevation {
            &&& elevation_map_of(e@, grid@, rooms@, level_width(*params) as int, level_height(*params) as int)
            &&& map_bounded(e@, elevation_cap(*params) as int)
            &&& forall|k: int, x: int, y: int|
                0 <= k < rooms@.len() && 0 <= x < level_width(*params) && 0 <= y < level_height(*params) && #[trigger] in_room(
                    rooms@[k],
                    x,
                    y,
                ) ==> e@[y]@[x] == room_elevation(rooms@[k])
        } else {
            forall|y: int, x: int| 0 <= y < level_height(*params) && 0 <= x < level_width(*params) ==> #[trigger] e@[y]@[x] == 0
        },
{
    let width = if params.width >= MIN_MAP_DIM { params.width } else { MIN_MAP_DIM };
    let height = if params.height >= MIN_MAP_DIM { params.height } else { MIN_MAP_DIM };
    let (w, h) = (width as usize, height as usize);
    if params.enable_elevation {
        proof {
            assert forall|i: int| 0 <= i < rooms@.len() implies -MAX_ELEVATION <= crate::elevation::room_elevation(#[trigger] rooms@[i]) <= MAX_ELEVATION by {
                assert(elevation_ok(rooms@[i], elevation_bound(*params)));
            }
        }
        let e = create_corridor_elevation_map(grid, rooms, w, h);
        proof {
            assert forall|i: int| 0 <= i < rooms@.len() implies -elevation_cap(*params) <= crate::elevation::room_elevation(#[trigger] rooms@[i]) <= elevation_cap(*params) by {
                assert(elevation_ok(rooms@[i], elevation_bound(*params)));
            }
            assert(rooms_bounded(rooms@, elevation_cap(*params) as int));
        }
        e
    } else {
        filled(w, h, 0)
    }
}

proof fn lemma_separated_disjoint(rooms: Seq<Room>)
    requires
        rooms_separated(rooms),
    ensures
        rooms_disjoint(rooms),
{
    assert forall|i: int, j: int| 0 <= i < rooms.len() && 0 <= j < rooms.len() && i != j implies !rects_overlap(
        (#[trigger] rooms[i]).x as int,
        rooms[i].y as int,
        rooms[i].w as int,
        rooms[i].h as int,
        (#[trigger] rooms[j]).x as int,
        rooms[j].y as int,
        rooms[j].w as int,
        rooms[j].h as int,
    ) by {
        assert(!crate::room::overlaps_with_margin(rooms[i], rooms[j], 1));
    }
}

/// The marble tiles of a marble level: classified, then with obstacles when enabled.
fn build_marble(grid: &Vec<Vec<char>>, rooms: &Vec<Room>, params: &GeneratorParams, rng: &mut StdRng) -> (mt: Vec<Vec<MarbleTile>>)
    requires
        params_in_limits(*params),
        params.mode == GenerationMode::Marble,
        rooms_generated(rooms@, *params),
        grid_shaped(grid@, level_width(*params) as int, level_height(*params) as int),
        exists|flips: Seq<bool>| #[trigger] layout_from(grid@, rooms@, flips, *params),
    ensures
        rotations_bounded(tiles_view(mt@)),
        exists|e: Seq<Vec<i32>>| #[trigger] marble_from(grid@, e, tiles_view(mt@), rooms@, *params),
{
    let width = if params.width >= MIN_MAP_DIM { params.width } else { MIN_MAP_DIM };
    let height = if params.height >= MIN_MAP_DIM { params.height } else { MIN_MAP_DIM };
    let (w, h) = (width as usize, height as usize);
    let elevation_map = build_elevation(grid, rooms, params);
    let ghost e = elevation_map@;
    let mut mt = grid_to_marble_tiles(grid, &elevation_map, w, h, params.enable_elevation);
    let ghost base = tiles_view(mt@);
    proof {
        lemma_marble_rotations_bounded(grid@, e, w as int, h as int, params.enable_elevation);
    }
    if params.enable_obstacles {
        proof {
            assert forall|i: int| 0 <= i < rooms@.len() implies {
                let r = #[trigger] rooms@[i];
                &&& 3 <= r.w
                &&& 3 <= r.h
                &&& 0 <= r.x
                &&& 0 <= r.y
                &&& r.x + r.w <= MAX_MAP_DIM
                &&& r.y + r.h <= MAX_MAP_DIM
            } by {
                assert(room_fits(rooms@[i], width as int, height as int, room_min(*params) as int, room_max(*params) as int));
            }
            lemma_separated_disjoint(rooms@);
            lemma_marble_floor_passable(grid@, e, w as int, h as int, params.enable_elevation);
            let flips = choose|flips: Seq<bool>| #[trigger] layout_from(grid@, rooms@, flips, *params);
            assert forall|i: int| 0 <= i < rooms@.len() && (#[trigger] rooms@[i]).w * rooms@[i].h >= MIN_OBSTACLE_ROOM_AREA implies gets_obstacle(
                base,
                rooms@[i],
                w as int,
                h as int,
            ) by {
                let r = rooms@[i];
                assert(room_fits(r, width as int, height as int, room_min(*params) as int, room_max(*params) as int));
                assert forall|x: int, y: int| r.x + 1 <= x < r.x + r.w - 1 && r.y + 1 <= y < r.y + r.h - 1 implies (#[trigger] base[y][x]).tile_type.spec_is_passable()
                    && !(base[y][x].tile_type is Obstacle) by {
                    assert(in_room(rooms@[i], x, y));
                    assert(in_some_room(rooms@, x, y));
                    assert(grid@[y]@[x] == TILE_FLOOR);
                    assert(is_floor_at(grid@, x, y));
                }
            }
        }
        place_obstacles_in_rooms(&mut mt, rooms, rng, params.obstacle_density_permille, w, h);
    } else {
        proof {
            assert(obstacles_placed(base, base, rooms@, w as int, h as int));
        }
    }
    proof {
        let mv = tiles_view(mt@);
        assert forall|y: int, x: int| 0 <= y < mv.len() && 0 <= x < mv[y].len() implies (#[trigger] mv[y][x]).rotation < 4 by {
            assert(base[y][x].rotation < 4);
        }
        assert(marble_from(grid@, e, mv, rooms@, *params));
    }
    mt
}

/// Generate a level.
///
/// Sides are raised to their minimums, the seed is the one given or else one
/// drawn from entropy, and every random choice comes from a generator seeded
/// with it. A maze is solved by wave function collapse and has no rooms.
/// Otherwise rooms are placed, sorted by the x of their centres and joined in
/// that order by corridors; a marble level then gets elevations (when
/// enabled), its marble tiles and (when enabled) obstacles.
pub fn generate(params: &GeneratorParams) -> (level: Level)
    requires
        params_in_limits(*params),
    ensures
        level.width == level_width(*params),
        level.height == level_height(*params),
        params.seed matches Some(s) ==> level.seed == s,
        params.mode == GenerationMode::Wfc ==> {
            &&& level.rooms@.len() == 0
            &&& level.marble_tiles is None
            &&& maze_valid(rows_view(level.tiles@), level.width as int, level.height as int)
        },
        params.mode != GenerationMode::Wfc ==> exists|g: Seq<Vec<char>>| #[trigger] level_from(level, g, *params),
{
    let width = if params.width >= MIN_MAP_DIM { params.width } else { MIN_MAP_DIM };
    let height = if params.height >= MIN_MAP_DIM { params.height } else { MIN_MAP_DIM };
    let seed = match params.seed {
        Some(s) => s,
        None => entropy_seed(),
    };
    let mut rng = seeded_rng(seed);
    if params.mode == GenerationMode::Wfc {
        let (w, h) = (width as usize, height as usize);
        assert(w * h <= 0xFFFF * 0xFFFF) by (nonlinear_arith)
            requires
                w <= 0xFFFF,
                h <= 0xFFFF,
        ;
        let tiles = generate_wfc_tilemap(w, h, &mut rng);
        return Level { width, height, seed, rooms: Vec::new(), tiles, marble_tiles: None };
    }
    let (grid, rooms) = build_layout(params, &mut rng);
    let tiles = grid_to_strings(&grid);
    let marble_tiles = if params.mode == GenerationMode::Marble {
        proof {
            let flips = choose|flips: Seq<bool>| #[trigger] layout_from(grid@, rooms@, flips, *params);
            assert(layout_from(grid@, rooms@, flips, *params));
        }
        Some(build_marble(&grid, &rooms, params, &mut rng))
    } else {
        None
    };
    let level = Level { width, height, seed, rooms, tiles, marble_tiles };
    proof {
        let flips = choose|flips: Seq<bool>| #[trigger] layout_from(grid@, rooms@, flips, *params);
        assert(layout_from(grid@, level.rooms@, flips, *params));
        if params.mode == GenerationMode::Marble {
            let mt = level.marble_tiles->Some_0;
            let e = choose|e: Seq<Vec<i32>>| #[trigger] marble_from(grid@, e, tiles_view(mt@), rooms@, *params);
            assert(marble_from(grid@, e, tiles_view(mt@), level.rooms@, *params));
        }
        assert(level_from(level, grid@, *params));
    }
    level
}

} // verus!
