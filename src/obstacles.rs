//! Scattering obstacles into the large rooms of a marble level.
use crate::marble::{set_tile, tiles_view, view_shaped};
use crate::rng::random_i32_below;
use crate::room::{in_room, rects_overlap, Room};
use crate::tiles::{tile_spec, MarbleTile, TileType, TileView};
use rand::rngs::StdRng;
use vstd::prelude::*;

verus! {

/// Rooms smaller than this many tiles get no obstacles.
pub const MIN_OBSTACLE_ROOM_AREA: i32 = 30;

/// Random positions tried for each obstacle before it is given up.
pub const OBSTACLE_ATTEMPTS: u32 = 20;

/// Whether `(x, y)` lies strictly inside room `r` (not on its outer ring) and
/// the room is large enough to hold obstacles.
pub open spec fn in_obstacle_zone(r: Room, x: int, y: int) -> bool {
    &&& r.w * r.h >= MIN_OBSTACLE_ROOM_AREA
    &&& r.x + 1 <= x < r.x + r.w - 1
    &&& r.y + 1 <= y < r.y + r.h - 1
}

/// The tile that replaces `t` when an obstacle is placed on it.
pub open spec fn obstacle_over(t: TileView) -> TileView {
    tile_spec(TileType::Obstacle, t.elevation, 0, false)
}

/// `new` is `old` but for obstacles placed on tiles that were passable and not
/// already obstacles, each keeping the elevation of the tile it replaced and
/// lying inside a large enough room.
pub open spec fn obstacles_placed(old: Seq<Seq<TileView>>, new: Seq<Seq<TileView>>, rooms: Seq<Room>, w: int, h: int) -> bool {
    &&& view_shaped(new, w, h)
    &&& forall|y: int, x: int|
        0 <= y < h && 0 <= x < w ==> #[trigger] new[y][x] == old[y][x] || {
            &&& old[y][x].tile_type.spec_is_passable()
            &&& !(old[y][x].tile_type is Obstacle)
            &&& new[y][x] == obstacle_over(old[y][x])
            &&& exists|i: int| 0 <= i < rooms.len() && in_obstacle_zone(#[trigger] rooms[i], x, y)
        }
}

/// Rooms whose sides and positions keep the sampling ranges non-empty and in range.
pub open spec fn rooms_sampleable(rooms: Seq<Room>) -> bool {
    forall|i: int|
        0 <= i < rooms.len() && (#[trigger] rooms[i]).w * rooms[i].h >= MIN_OBSTACLE_ROOM_AREA ==> {
            let r = rooms[i];
            &&& 3 <= r.w
            &&& 3 <= r.h
            &&& r.x + r.w <= i32::MAX
            &&& r.y + r.h <= i32::MAX
        }
}

/// The most obstacles a room receives at a density of `permille` thousandths:
/// a tenth of its area times the density, at least one.
pub open spec fn obstacle_limit(r: Room, permille: int) -> int {
    if (r.w * r.h) * permille / 10000 >= 1 {
        (r.w * r.h) * permille / 10000
    } else {
        1
    }
}

/// Every cell of room `r`'s obstacle zone that differs between `v` and `cur` is one of `cells`.
pub open spec fn zone_changes_in(v: Seq<Seq<TileView>>, cur: Seq<Seq<TileView>>, r: Room, w: int, h: int, cells: Seq<(int, int)>) -> bool {
    forall|x: int, y: int|
        0 <= y < h && 0 <= x < w && in_obstacle_zone(r, x, y) && #[trigger] cur[y][x] != v[y][x] ==> cells.contains((x, y))
}

/// At most `lim` cells of room `r`'s obstacle zone differ between `v` and `cur`.
pub open spec fn changes_at_most(v: Seq<Seq<TileView>>, cur: Seq<Seq<TileView>>, r: Room, w: int, h: int, lim: int) -> bool {
    exists|cells: Seq<(int, int)>| cells.len() <= lim && #[trigger] zone_changes_in(v, cur, r, w, h, cells)
}

/// `parts[i]` lists at most room `i`'s obstacle limit of cells, all in its
/// obstacle zone.
pub open spec fn parts_within_limits(rooms: Seq<Room>, parts: Seq<Seq<(int, int)>>, permille: int) -> bool {
    &&& parts.len() <= rooms.len()
    &&& forall|i: int| 0 <= i < parts.len() ==> (#[trigger] parts[i]).len() <= obstacle_limit(rooms[i], permille)
    &&& forall|i: int, k: int|
        0 <= i < parts.len() && 0 <= k < parts[i].len() ==> in_obstacle_zone(rooms[i], (#[trigger] parts[i][k]).0, parts[i][k].1)
}

/// Every cell that differs between `v` and `cur` is listed in `parts` or in `extra`.
pub open spec fn changes_listed(
    v: Seq<Seq<TileView>>,
    cur: Seq<Seq<TileView>>,
    parts: Seq<Seq<(int, int)>>,
    extra: Seq<(int, int)>,
    w: int,
    h: int,
) -> bool {
    forall|x: int, y: int|
        0 <= y < h && 0 <= x < w && #[trigger] cur[y][x] != v[y][x] ==> extra.contains((x, y)) || exists|i: int|
            0 <= i < parts.len() && (#[trigger] parts[i]).contains((x, y))
}

/// The obstacles can be shared out among the rooms that placed them: each
/// room's share lies in its zone and holds at most its limit, and every
/// changed cell is in some share.
pub open spec fn obstacles_attributed(
    v: Seq<Seq<TileView>>,
    cur: Seq<Seq<TileView>>,
    rooms: Seq<Room>,
    w: int,
    h: int,
    permille: int,
) -> bool {
    exists|parts: Seq<Seq<(int, int)>>|
        parts.len() == rooms.len() && parts_within_limits(rooms, parts, permille) && #[trigger] changes_listed(
            v,
            cur,
            parts,
            Seq::empty(),
            w,
            h,
        )
}

proof fn lemma_zones_apart(rooms: Seq<Room>, a: int, b: int, x: int, y: int)
    requires
        rooms_disjoint(rooms),
        0 <= a < rooms.len(),
        0 <= b < rooms.len(),
        in_obstacle_zone(rooms[a], x, y),
        in_obstacle_zone(rooms[b], x, y),
    ensures
        a == b,
{
    if a != b {
        assert(!rects_overlap(
            rooms[a].x as int, rooms[a].y as int, rooms[a].w as int, rooms[a].h as int,
            rooms[b].x as int, rooms[b].y as int, rooms[b].w as int, rooms[b].h as int,
        ));
    }
}

/// The interior of room `r` (all but its outer ring) lies on the `w` by `h`
/// grid and holds only passable tiles that are not obstacles.
pub open spec fn interior_clear(v: Seq<Seq<TileView>>, r: Room, w: int, h: int) -> bool {
    &&& 0 <= r.x
    &&& 0 <= r.y
    &&& r.x + r.w - 1 <= w
    &&& r.y + r.h - 1 <= h
    &&& forall|x: int, y: int|
        r.x + 1 <= x < r.x + r.w - 1 && r.y + 1 <= y < r.y + r.h - 1 ==> (#[trigger] v[y][x]).tile_type.spec_is_passable()
            && !(v[y][x].tile_type is Obstacle)
}

/// Some cell of the interior of room `r` holds an obstacle.
pub open spec fn has_obstacle_in(v: Seq<Seq<TileView>>, r: Room) -> bool {
    exists|x: int, y: int|
        r.x + 1 <= x < r.x + r.w - 1 && r.y + 1 <= y < r.y + r.h - 1 && 0 <= y < v.len() && 0 <= x < v[y].len()
            && (#[trigger] v[y][x]).tile_type is Obstacle
}

/// No two distinct rooms share a cell.
pub open spec fn rooms_disjoint(rooms: Seq<Room>) -> bool {
    forall|i: int, j: int|
        0 <= i < rooms.len() && 0 <= j < rooms.len() && i != j ==> !rects_overlap(
            (#[trigger] rooms[i]).x as int,
            rooms[i].y as int,
            rooms[i].w as int,
            rooms[i].h as int,
            (#[trigger] rooms[j]).x as int,
            rooms[j].y as int,
            rooms[j].w as int,
            rooms[j].h as int,
        )
}

/// Room `r` will get an obstacle: it is large enough and its interior clear.
pub open spec fn gets_obstacle(v: Seq<Seq<TileView>>, r: Room, w: int, h: int) -> bool {
    r.w * r.h >= MIN_OBSTACLE_ROOM_AREA && interior_clear(v, r, w, h)
}

/// Where the tiles of `v` and `cur` differ, the cell lies in the obstacle
/// zone of one of the first `n` rooms, or of room `n` once `own` holds.
pub open spec fn changes_within(v: Seq<Seq<TileView>>, cur: Seq<Seq<TileView>>, rooms: Seq<Room>, w: int, h: int, n: int, own: bool) -> bool {
    forall|x: int, y: int|
        0 <= y < h && 0 <= x < w && #[trigger] cur[y][x] != v[y][x] ==> (exists|k: int|
            0 <= k < n && in_obstacle_zone(#[trigger] rooms[k], x, y)) || (own && in_obstacle_zone(rooms[n], x, y))
}

/// For every room of at least thirty tiles, try to place
/// `max(1, area * density / 10)` obstacles (density in thousandths), each at
/// the first of up to twenty random interior positions that holds a passable
/// tile that is not already an obstacle. When no two rooms overlap, every
/// large room whose interior was clear gets at least one obstacle.
pub fn place_obstacles_in_rooms(
    m: &mut Vec<Vec<MarbleTile>>,
    rooms: &Vec<Room>,
    rng: &mut StdRng,
    density_permille: u32,
    w: usize,
    h: usize,
)
    requires
        view_shaped(tiles_view(old(m)@), w as int, h as int),
        rooms_sampleable(rooms@),
    ensures
        obstacles_placed(tiles_view(old(m)@), tiles_view(final(m)@), rooms@, w as int, h as int),
        rooms_disjoint(rooms@) ==> forall|i: int|
            0 <= i < rooms@.len() && gets_obstacle(tiles_view(old(m)@), #[trigger] rooms@[i], w as int, h as int)
                ==> has_obstacle_in(tiles_view(final(m)@), rooms@[i]),
        obstacles_attributed(tiles_view(old(m)@), tiles_view(final(m)@), rooms@, w as int, h as int, density_permille as int),
        rooms_disjoint(rooms@) ==> forall|i: int|
            0 <= i < rooms@.len() ==> changes_at_most(
                tiles_view(old(m)@),
                tiles_view(final(m)@),
                #[trigger] rooms@[i],
                w as int,
                h as int,
                obstacle_limit(rooms@[i], density_permille as int),
            ),
{
    let ghost v0 = tiles_view(m@);
    let ghost wi = w as int;
    let ghost hi = h as int;
    let ghost mut parts: Seq<Seq<(int, int)>> = Seq::empty();
    let mut i: usize = 0;
    while i < rooms.len()
        invariant
            i <= rooms@.len(),
            wi == w,
            hi == h,
            view_shaped(v0, wi, hi),
            rooms_sampleable(rooms@),
            m@.len() == h,
            obstacles_placed(v0, tiles_view(m@), rooms@, wi, hi),
            changes_within(v0, tiles_view(m@), rooms@, wi, hi, i as int, false),
            rooms_disjoint(rooms@) ==> forall|k: int|
                0 <= k < i && gets_obstacle(v0, #[trigger] rooms@[k], wi, hi) ==> has_obstacle_in(tiles_view(m@), rooms@[k]),
            rooms_disjoint(rooms@) ==> forall|k: int|
                0 <= k < i ==> changes_at_most(v0, tiles_view(m@), #[trigger] rooms@[k], wi, hi, obstacle_limit(rooms@[k], density_permille as int)),
            parts.len() == i,
            parts_within_limits(rooms@, parts, density_permille as int),
            changes_listed(v0, tiles_view(m@), parts, Seq::empty(), wi, hi),
        decreases rooms@.len() - i,
    {
        let room = rooms[i];
        let ghost cond = rooms_disjoint(rooms@) && gets_obstacle(v0, room, wi, hi);
        assert(-0x4000_0000_0000_0000 <= (room.w as int) * (room.h as int) <= 0x4000_0000_0000_0000) by (nonlinear_arith)
            requires
                -0x8000_0000 <= room.w <= 0x7fff_ffff,
                -0x8000_0000 <= room.h <= 0x7fff_ffff,
        ;
        let area: i128 = room.w as i128 * room.h as i128;
        let ghost placed_here = false;
        let ghost mut mine: Seq<(int, int)> = Seq::empty();
        proof {
            if rooms_disjoint(rooms@) {
                assert forall|x: int, y: int|
                    0 <= y < hi && 0 <= x < wi && in_obstacle_zone(room, x, y) && #[trigger] tiles_view(m@)[y][x] != v0[y][x] implies mine.contains((x, y)) by {
                    let kk = choose|kk: int| 0 <= kk < i && in_obstacle_zone(#[trigger] rooms@[kk], x, y);
                    lemma_zones_apart(rooms@, kk, i as int, x, y);
                }
            }
        }
        if area >= MIN_OBSTACLE_ROOM_AREA as i128 {
            assert(room.w * room.h >= MIN_OBSTACLE_ROOM_AREA);
            assert(3 <= room.w && 3 <= room.h && room.x + room.w <= i32::MAX && room.y + room.h <= i32::MAX);
            assert((area as u128) * (density_permille as u128) <= 0x4000_0000_0000_0000 * 0x1_0000_0000) by (nonlinear_arith)
                requires
                    0 <= area <= 0x4000_0000_0000_0000,
                    density_permille <= 0xFFFF_FFFF,
            ;
            let scaled: u128 = (area as u128) * (density_permille as u128) / 10000;
            let num_obstacles: u128 = if scaled >= 1 { scaled } else { 1 };
            assert(num_obstacles as int == obstacle_limit(room, density_permille as int));
            let mut k: u128 = 0;
            while k < num_obstacles
                invariant
                    i < rooms@.len(),
                    room == rooms@[i as int],
                    wi == w,
                    hi == h,
                    3 <= room.w,
                    3 <= room.h,
                    room.x + room.w <= i32::MAX,
                    room.y + room.h <= i32::MAX,
                    k <= num_obstacles,
                    num_obstacles as int == obstacle_limit(room, density_permille as int),
                    rooms_disjoint(rooms@) ==> forall|kk: int|
                        0 <= kk < i ==> changes_at_most(v0, tiles_view(m@), #[trigger] rooms@[kk], wi, hi, obstacle_limit(rooms@[kk], density_permille as int)),
                    mine.len() <= k,
                    rooms_disjoint(rooms@) ==> zone_changes_in(v0, tiles_view(m@), room, wi, hi, mine),
                    parts.len() == i,
                    parts_within_limits(rooms@, parts, density_permille as int),
                    forall|kk: int| 0 <= kk < mine.len() ==> in_obstacle_zone(room, (#[trigger] mine[kk]).0, mine[kk].1),
                    changes_listed(v0, tiles_view(m@), parts, mine, wi, hi),
                    room.w * room.h >= MIN_OBSTACLE_ROOM_AREA,
                    view_shaped(v0, wi, hi),
                    m@.len() == h,
                    obstacles_placed(v0, tiles_view(m@), rooms@, wi, hi),
                    changes_within(v0, tiles_view(m@), rooms@, wi, hi, i as int, placed_here),
                    rooms_disjoint(rooms@) ==> forall|kk: int|
                        0 <= kk < i && gets_obstacle(v0, #[trigger] rooms@[kk], wi, hi) ==> has_obstacle_in(tiles_view(m@), rooms@[kk]),
                    placed_here ==> has_obstacle_in(tiles_view(m@), room),
                    (cond && k >= 1) ==> placed_here,
                    cond == (rooms_disjoint(rooms@) && gets_obstacle(v0, room, wi, hi)),
                decreases num_obstacles - k,
            {
                let mut attempt: u32 = 0;
                while attempt < OBSTACLE_ATTEMPTS
                    invariant_except_break
                        mine.len() <= k,
                    invariant
                        i < rooms@.len(),
                        room == rooms@[i as int],
                        wi == w,
                        hi == h,
                        3 <= room.w,
                        3 <= room.h,
                        room.x + room.w <= i32::MAX,
                        room.y + room.h <= i32::MAX,
                        k < num_obstacles,
                        rooms_disjoint(rooms@) ==> forall|kk: int|
                            0 <= kk < i ==> changes_at_most(v0, tiles_view(m@), #[trigger] rooms@[kk], wi, hi, obstacle_limit(rooms@[kk], density_permille as int)),
                        mine.len() <= k + 1,
                        rooms_disjoint(rooms@) ==> zone_changes_in(v0, tiles_view(m@), room, wi, hi, mine),
                        parts.len() == i,
                        parts_within_limits(rooms@, parts, density_permille as int),
                        forall|kk: int| 0 <= kk < mine.len() ==> in_obstacle_zone(room, (#[trigger] mine[kk]).0, mine[kk].1),
                        changes_listed(v0, tiles_view(m@), parts, mine, wi, hi),
                        room.w * room.h >= MIN_OBSTACLE_ROOM_AREA,
                        view_shaped(v0, wi, hi),
                        m@.len() == h,
                        obstacles_placed(v0, tiles_view(m@), rooms@, wi, hi),
                        changes_within(v0, tiles_view(m@), rooms@, wi, hi, i as int, placed_here),
                        rooms_disjoint(rooms@) ==> forall|kk: int|
                            0 <= kk < i && gets_obstacle(v0, #[trigger] rooms@[kk], wi, hi) ==> has_obstacle_in(tiles_view(m@), rooms@[kk]),
                        placed_here ==> has_obstacle_in(tiles_view(m@), room),
                        (cond && k >= 1) ==> placed_here,
                        (cond && attempt >= 1) ==> placed_here,
                        cond == (rooms_disjoint(rooms@) && gets_obstacle(v0, room, wi, hi)),
                    ensures
                        cond ==> placed_here,
                        rooms_disjoint(rooms@) ==> forall|kk: int|
                            0 <= kk < i ==> changes_at_most(v0, tiles_view(m@), #[trigger] rooms@[kk], wi, hi, obstacle_limit(rooms@[kk], density_permille as int)),
                        mine.len() <= k + 1,
                        rooms_disjoint(rooms@) ==> zone_changes_in(v0, tiles_view(m@), room, wi, hi, mine),
                        parts.len() == i,
                        parts_within_limits(rooms@, parts, density_permille as int),
                        forall|kk: int| 0 <= kk < mine.len() ==> in_obstacle_zone(room, (#[trigger] mine[kk]).0, mine[kk].1),
                        changes_listed(v0, tiles_view(m@), parts, mine, wi, hi),
                        m@.len() == h,
                        obstacles_placed(v0, tiles_view(m@), rooms@, wi, hi),
                        changes_within(v0, tiles_view(m@), rooms@, wi, hi, i as int, placed_here),
                        rooms_disjoint(rooms@) ==> forall|kk: int|
                            0 <= kk < i && gets_obstacle(v0, #[trigger] rooms@[kk], wi, hi) ==> has_obstacle_in(tiles_view(m@), rooms@[kk]),
                        placed_here ==> has_obstacle_in(tiles_view(m@), room),
                    decreases OBSTACLE_ATTEMPTS - attempt,
                {
                    attempt += 1;
                    let ox = random_i32_below(rng, room.x + 1, room.x + room.w - 1);
                    let oy = random_i32_below(rng, room.y + 1, room.y + room.h - 1);
                    let ghost cur = tiles_view(m@);
                    proof {
                        if cond && !placed_here {
                            assert(in_room(room, ox as int, oy as int));
                            if cur[oy as int][ox as int] != v0[oy as int][ox as int] {
                                let kk = choose|kk: int| 0 <= kk < i && in_obstacle_zone(#[trigger] rooms@[kk], ox as int, oy as int);
                                assert(!rects_overlap(
                                    rooms@[kk].x as int, rooms@[kk].y as int, rooms@[kk].w as int, rooms@[kk].h as int,
                                    rooms@[i as int].x as int, rooms@[i as int].y as int, rooms@[i as int].w as int, rooms@[i as int].h as int,
                                ));
                            }
                            assert(cur[oy as int][ox as int] == v0[oy as int][ox as int]);
                        }
                    }
                    if 0 <= oy && (oy as usize) < h && 0 <= ox && (ox as usize) < w {
                        let (xu, yu) = (ox as usize, oy as usize);
                        proof {
                            assert(cur[oy as int] == m@[oy as int]@.map_values(|t: MarbleTile| t@));
                        }
                        let tile_type = m[yu][xu].tile_type;
                        if tile_type.is_passable() && tile_type != TileType::Obstacle {
                            let elevation = m[yu][xu].elevation;
                            proof {
                                assert(cur[oy as int].len() == w);
                            }
                            set_tile(m, xu, yu, MarbleTile::with_params(TileType::Obstacle, elevation, 0, false));
                            proof {
                                let nv = tiles_view(m@);
                                assert(in_obstacle_zone(rooms@[i as int], ox as int, oy as int));
                                assert forall|y: int, x: int| 0 <= y < h && 0 <= x < w implies #[trigger] nv[y][x] == v0[y][x] || {
                                    &&& v0[y][x].tile_type.spec_is_passable()
                                    &&& !(v0[y][x].tile_type is Obstacle)
                                    &&& nv[y][x] == obstacle_over(v0[y][x])
                                    &&& exists|j: int| 0 <= j < rooms@.len() && in_obstacle_zone(#[trigger] rooms@[j], x, y)
                                } by {
                                    if y != oy || x != ox {
                                        assert(nv[y][x] == cur[y][x]);
                                    }
                                }
                                assert forall|x: int, y: int|
                                    0 <= y < h && 0 <= x < w && #[trigger] nv[y][x] != v0[y][x] implies (exists|kk: int|
                                        0 <= kk < i && in_obstacle_zone(#[trigger] rooms@[kk], x, y)) || in_obstacle_zone(rooms@[i as int], x, y) by {
                                    if y != oy || x != ox {
                                        assert(nv[y][x] == cur[y][x]);
                                    }
                                }
                                assert(nv[oy as int][ox as int].tile_type is Obstacle);
                                assert(has_obstacle_in(nv, room));
                                if rooms_disjoint(rooms@) {
                                    assert forall|kk: int| 0 <= kk < i && gets_obstacle(v0, #[trigger] rooms@[kk], wi, hi) implies has_obstacle_in(nv, rooms@[kk]) by {
                                        assert(has_obstacle_in(cur, rooms@[kk]));
                                        let (x0, y0) = choose|x0: int, y0: int|
                                            rooms@[kk].x + 1 <= x0 < rooms@[kk].x + rooms@[kk].w - 1 && rooms@[kk].y + 1 <= y0 < rooms@[kk].y + rooms@[kk].h - 1
                                                && 0 <= y0 < cur.len() && 0 <= x0 < cur[y0].len() && (#[trigger] cur[y0][x0]).tile_type is Obstacle;
                                        assert(nv[y0][x0] == cur[y0][x0]);
                                    }
                                }
                                if placed_here {
                                    let (x0, y0) = choose|x0: int, y0: int|
                                        room.x + 1 <= x0 < room.x + room.w - 1 && room.y + 1 <= y0 < room.y + room.h - 1
                                            && 0 <= y0 < cur.len() && 0 <= x0 < cur[y0].len() && (#[trigger] cur[y0][x0]).tile_type is Obstacle;
                                    assert(nv[y0][x0] == cur[y0][x0]);
                                }
                                if rooms_disjoint(rooms@) {
                                    let new_mine = mine.push((ox as int, oy as int));
                                    assert forall|x: int, y: int|
                                        0 <= y < hi && 0 <= x < wi && in_obstacle_zone(room, x, y) && #[trigger] nv[y][x] != v0[y][x] implies new_mine.contains((x, y)) by {
                                        if y == oy && x == ox {
                                            assert(new_mine[mine.len() as int] == (x, y));
                                        } else {
                                            assert(nv[y][x] == cur[y][x]);
                                            assert(mine.contains((x, y)));
                                            let j = choose|j: int| 0 <= j < mine.len() && mine[j] == (x, y);
                                            assert(new_mine[j] == (x, y));
                                        }
                                    }
                                    assert forall|kk: int| 0 <= kk < i implies changes_at_most(v0, nv, #[trigger] rooms@[kk], wi, hi, obstacle_limit(rooms@[kk], density_permille as int)) by {
                                        assert(changes_at_most(v0, cur, rooms@[kk], wi, hi, obstacle_limit(rooms@[kk], density_permille as int)));
                                        let cells = choose|cells: Seq<(int, int)>| cells.len() <= obstacle_limit(rooms@[kk], density_permille as int) && #[trigger] zone_changes_in(v0, cur, rooms@[kk], wi, hi, cells);
                                        assert forall|x: int, y: int|
                                            0 <= y < hi && 0 <= x < wi && in_obstacle_zone(rooms@[kk], x, y) && #[trigger] nv[y][x] != v0[y][x] implies cells.contains((x, y)) by {
                                            if y == oy && x == ox {
                                                lemma_zones_apart(rooms@, kk, i as int, x, y);
                                            } else {
                                                assert(nv[y][x] == cur[y][x]);
                                            }
                                        }
                                        assert(zone_changes_in(v0, nv, rooms@[kk], wi, hi, cells));
                                    }
                                }
                                let pushed = mine.push((ox as int, oy as int));
                                assert forall|kk: int| 0 <= kk < pushed.len() implies in_obstacle_zone(room, (#[trigger] pushed[kk]).0, pushed[kk].1) by {
                                    if kk < mine.len() {
                                        assert(pushed[kk] == mine[kk]);
                                    }
                                }
                                assert forall|x: int, y: int|
                                    0 <= y < hi && 0 <= x < wi && #[trigger] nv[y][x] != v0[y][x] implies pushed.contains((x, y)) || exists|j: int|
                                        0 <= j < parts.len() && (#[trigger] parts[j]).contains((x, y)) by {
                                    if y == oy && x == ox {
                                        assert(pushed[mine.len() as int] == (x, y));
                                    } else {
                                        assert(nv[y][x] == cur[y][x]);
                                        if mine.contains((x, y)) {
                                            let j = choose|j: int| 0 <= j < mine.len() && mine[j] == (x, y);
                                            assert(pushed[j] == (x, y));
                                        }
                                    }
                                }
                                mine = pushed;
                                placed_here = true;
                            }
                            break;
                        }
                    }
                }
                k += 1;
            }
        }
        proof {
            if cond {
                assert(room.w * room.h >= MIN_OBSTACLE_ROOM_AREA);
                assert(area >= MIN_OBSTACLE_ROOM_AREA as i128);
            }
            if rooms_disjoint(rooms@) {
                assert(1 <= obstacle_limit(room, density_permille as int));
                assert(mine.len() <= obstacle_limit(room, density_permille as int));
                assert(zone_changes_in(v0, tiles_view(m@), room, wi, hi, mine));
                assert forall|kk: int| 0 <= kk < i + 1 implies changes_at_most(v0, tiles_view(m@), #[trigger] rooms@[kk], wi, hi, obstacle_limit(rooms@[kk], density_permille as int)) by {
                    if kk == i {
                        assert(zone_changes_in(v0, tiles_view(m@), rooms@[kk], wi, hi, mine));
                    }
                }
            }
            assert forall|x: int, y: int|
                0 <= y < h && 0 <= x < w && #[trigger] tiles_view(m@)[y][x] != v0[y][x] implies (exists|kk: int|
                    0 <= kk < i + 1 && in_obstacle_zone(#[trigger] rooms@[kk], x, y)) by {
                if !(exists|kk: int| 0 <= kk < i && in_obstacle_zone(#[trigger] rooms@[kk], x, y)) {
                    assert(in_obstacle_zone(rooms@[i as int], x, y));
                }
            }
        }
        proof {
            let np = parts.push(mine);
            assert(area < MIN_OBSTACLE_ROOM_AREA as i128 ==> mine.len() == 0);
            assert(mine.len() <= obstacle_limit(room, density_permille as int));
            assert forall|j: int| 0 <= j < np.len() implies (#[trigger] np[j]).len() <= obstacle_limit(rooms@[j], density_permille as int) by {
                if j < parts.len() {
                    assert(np[j] == parts[j]);
                }
            }
            assert forall|j: int, kk: int|
                0 <= j < np.len() && 0 <= kk < np[j].len() implies in_obstacle_zone(rooms@[j], (#[trigger] np[j][kk]).0, np[j][kk].1) by {
                if j < parts.len() {
                    assert(np[j] == parts[j]);
                } else {
                    assert(np[j] == mine);
                }
            }
            assert forall|x: int, y: int|
                0 <= y < hi && 0 <= x < wi && #[trigger] tiles_view(m@)[y][x] != v0[y][x] implies Seq::<(int, int)>::empty().contains((x, y)) || exists|j: int|
                    0 <= j < np.len() && (#[trigger] np[j]).contains((x, y)) by {
                if mine.contains((x, y)) {
                    assert(np[parts.len() as int] == mine);
                } else {
                    let j = choose|j: int| 0 <= j < parts.len() && (#[trigger] parts[j]).contains((x, y));
                    assert(np[j] == parts[j]);
                }
            }
            parts = np;
        }
        i += 1;
    }
    assert(changes_listed(v0, tiles_view(m@), parts, Seq::empty(), wi, hi));
}

} // verus!
