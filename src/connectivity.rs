//! Reachability between floor cells, and the law that the floor of a classic
//! level is one connected region.
use crate::carve::{between, is_floor_at, TILE_WALL};
use crate::dungeon::{
    carved_from_walls, classic_corridor, corridor_between, layout_from, level_from, level_height,
    level_width, on_corridor, rooms_generated, room_max, room_min, GenerationMode, GeneratorParams,
    Level,
};
use crate::room::{center_spec, in_room, in_some_room, room_fits, Room};
use vstd::prelude::*;

verus! {

/// Whether cells `a` and `b` share a side.
pub open spec fn adjacent(a: (int, int), b: (int, int)) -> bool {
    (a.0 == b.0 && (a.1 - b.1 == 1 || b.1 - a.1 == 1)) || (a.1 == b.1 && (a.0 - b.0 == 1 || b.0 - a.0
        == 1))
}

/// `path` walks from `a` to `b` over floor cells of `g`, one side-step at a time.
pub open spec fn floor_path(g: Seq<Vec<char>>, path: Seq<(int, int)>, a: (int, int), b: (int, int)) -> bool {
    &&& path.len() >= 1
    &&& path[0] == a
    &&& path.last() == b
    &&& forall|i: int| 0 <= i < path.len() ==> is_floor_at(g, (#[trigger] path[i]).0, path[i].1)
    &&& forall|i: int| 0 <= i < path.len() - 1 ==> adjacent(#[trigger] path[i], path[i + 1])
}

/// Whether a flood fill of the floor of `g` from `a` reaches `b`.
pub open spec fn reachable(g: Seq<Vec<char>>, a: (int, int), b: (int, int)) -> bool {
    exists|path: Seq<(int, int)>| #[trigger] floor_path(g, path, a, b)
}

proof fn lemma_reachable_refl(g: Seq<Vec<char>>, a: (int, int))
    requires
        is_floor_at(g, a.0, a.1),
    ensures
        reachable(g, a, a),
{
    let p = seq![a];
    assert(floor_path(g, p, a, a));
}

proof fn lemma_reachable_step(g: Seq<Vec<char>>, a: (int, int), b: (int, int), c: (int, int))
    requires
        reachable(g, a, b),
        is_floor_at(g, c.0, c.1),
        adjacent(b, c),
    ensures
        reachable(g, a, c),
{
    let p = choose|p: Seq<(int, int)>| #[trigger] floor_path(g, p, a, b);
    let q = p.push(c);
    assert forall|i: int| 0 <= i < q.len() implies is_floor_at(g, (#[trigger] q[i]).0, q[i].1) by {
        if i < p.len() {
            assert(q[i] == p[i]);
        }
    }
    assert forall|i: int| 0 <= i < q.len() - 1 implies adjacent(#[trigger] q[i], q[i + 1]) by {
        assert(q[i] == p[i]);
        if i + 1 < p.len() {
            assert(q[i + 1] == p[i + 1]);
        }
    }
    assert(floor_path(g, q, a, c));
}

proof fn lemma_reachable_trans(g: Seq<Vec<char>>, a: (int, int), b: (int, int), c: (int, int))
    requires
        reachable(g, a, b),
        reachable(g, b, c),
    ensures
        reachable(g, a, c),
{
    let p = choose|p: Seq<(int, int)>| #[trigger] floor_path(g, p, a, b);
    let q = choose|q: Seq<(int, int)>| #[trigger] floor_path(g, q, b, c);
    let r = p + q.subrange(1, q.len() as int);
    let n = p.len();
    assert forall|i: int| 0 <= i < r.len() implies is_floor_at(g, (#[trigger] r[i]).0, r[i].1) by {
        if i < n {
            assert(r[i] == p[i]);
        } else {
            assert(r[i] == q[i - n + 1]);
        }
    }
    assert forall|i: int| 0 <= i < r.len() - 1 implies adjacent(#[trigger] r[i], r[i + 1]) by {
        if i + 1 < n {
            assert(r[i] == p[i] && r[i + 1] == p[i + 1]);
        } else if i + 1 == n {
            assert(r[i] == p[n - 1] && p[n - 1] == q[0]);
            assert(r[i + 1] == q[1]);
        } else {
            assert(r[i] == q[i - n + 1] && r[i + 1] == q[i - n + 2]);
        }
    }
    if q.len() == 1 {
        assert(r.last() == p.last());
    } else {
        assert(r.last() == q.last());
    }
    assert(floor_path(g, r, a, c));
}

proof fn lemma_reachable_symm(g: Seq<Vec<char>>, a: (int, int), b: (int, int))
    requires
        reachable(g, a, b),
    ensures
        reachable(g, b, a),
{
    let p = choose|p: Seq<(int, int)>| #[trigger] floor_path(g, p, a, b);
    let n = p.len() as int;
    let r = Seq::new(p.len(), |i: int| p[n - 1 - i]);
    assert forall|i: int| 0 <= i < r.len() implies is_floor_at(g, (#[trigger] r[i]).0, r[i].1) by {
        assert(r[i] == p[n - 1 - i]);
    }
    assert forall|i: int| 0 <= i < r.len() - 1 implies adjacent(#[trigger] r[i], r[i + 1]) by {
        assert(adjacent(p[n - 2 - i], p[n - 2 - i + 1]));
    }
    assert(floor_path(g, r, b, a));
}

/// Along row `y`, a floor cell reaches any cell towards `xb` whose stretch is floor.
proof fn lemma_row_reachable(g: Seq<Vec<char>>, y: int, xa: int, xb: int)
    requires
        forall|x: int| between(xa, xb, x) ==> is_floor_at(g, x, y),
    ensures
        reachable(g, (xa, y), (xb, y)),
    decreases if xa <= xb { xb - xa } else { xa - xb },
{
    if xa == xb {
        lemma_reachable_refl(g, (xa, y));
    } else {
        let xn = if xa < xb { xb - 1 } else { xb + 1 };
        assert forall|x: int| between(xa, xn, x) implies is_floor_at(g, x, y) by {
            assert(between(xa, xb, x));
        }
        lemma_row_reachable(g, y, xa, xn);
        assert(between(xa, xb, xb));
        lemma_reachable_step(g, (xa, y), (xn, y), (xb, y));
    }
}

/// Along column `x`, a floor cell reaches any cell towards `yb` whose stretch is floor.
proof fn lemma_column_reachable(g: Seq<Vec<char>>, x: int, ya: int, yb: int)
    requires
        forall|y: int| between(ya, yb, y) ==> is_floor_at(g, x, y),
    ensures
        reachable(g, (x, ya), (x, yb)),
    decreases if ya <= yb { yb - ya } else { ya - yb },
{
    if ya == yb {
        lemma_reachable_refl(g, (x, ya));
    } else {
        let yn = if ya < yb { yb - 1 } else { yb + 1 };
        assert forall|y: int| between(ya, yn, y) implies is_floor_at(g, x, y) by {
            assert(between(ya, yb, y));
        }
        lemma_column_reachable(g, x, ya, yn);
        assert(between(ya, yb, yb));
        lemma_reachable_step(g, (x, ya), (x, yn), (x, yb));
    }
}

proof fn lemma_floor_from_layout(g: Seq<Vec<char>>, w: int, h: int, region: spec_fn(int, int) -> bool)
    requires
        carved_from_walls(g, w, h, region),
    ensures
        forall|x: int, y: int| 0 <= x < w && 0 <= y < h && #[trigger] region(x, y) ==> is_floor_at(g, x, y),
        forall|x: int, y: int| #[trigger] is_floor_at(g, x, y) ==> 0 <= x < w && 0 <= y < h && region(x, y),
{
    assert forall|x: int, y: int| #[trigger] is_floor_at(g, x, y) implies 0 <= x < w && 0 <= y < h && region(x, y) by {
        assert(g[y]@.len() == w);
        if !region(x, y) {
            assert(g[y]@[x] == TILE_WALL);
        }
    }
}

/// The classic region: rooms and the tunnels between consecutive rooms.
pub open spec fn classic_region(rooms: Seq<Room>, flips: Seq<bool>, p: GeneratorParams, x: int, y: int) -> bool {
    in_some_room(rooms, x, y) || on_corridor(
        p.mode,
        rooms,
        flips,
        crate::dungeon::channel_of(p),
        p.corner_radius as i32,
        rooms.len() as int,
        x,
        y,
    )
}

/// In a classic level every floor cell reaches the centre of the first room.
proof fn lemma_all_reach_first_center(g: Seq<Vec<char>>, rooms: Seq<Room>, flips: Seq<bool>, p: GeneratorParams, x: int, y: int)
    requires
        p.mode == GenerationMode::Classic,
        rooms_generated(rooms, p),
        layout_from(g, rooms, flips, p),
        is_floor_at(g, x, y),
    ensures
        rooms.len() > 0,
        reachable(g, center_spec(rooms[0]), (x, y)),
{
    let w = level_width(p) as int;
    let h = level_height(p) as int;
    lemma_floor_from_layout(g, w, h, |cx: int, cy: int| in_some_room(rooms, cx, cy) || on_corridor(
        p.mode,
        rooms,
        flips,
        crate::dungeon::channel_of(p),
        p.corner_radius as i32,
        rooms.len() as int,
        cx,
        cy,
    ));
    assert(classic_region(rooms, flips, p, x, y));
    if in_some_room(rooms, x, y) {
        let k = choose|k: int| 0 <= k < rooms.len() && in_room(#[trigger] rooms[k], x, y);
        lemma_center_reaches_first(g, rooms, flips, p, k);
        lemma_room_cells_reach_center(g, rooms, flips, p, k, x, y);
        lemma_reachable_trans(g, center_spec(rooms[0]), center_spec(rooms[k]), (x, y));
    } else {
        let j = choose|j: int| 1 <= j < rooms.len() && #[trigger] corridor_between(p.mode, rooms, flips, crate::dungeon::channel_of(p), p.corner_radius as i32, j, x, y);
        lemma_center_reaches_first(g, rooms, flips, p, j - 1);
        lemma_corridor_cells_reach_start(g, rooms, flips, p, j, x, y);
        lemma_reachable_trans(g, center_spec(rooms[0]), center_spec(rooms[j - 1]), (x, y));
    }
}

proof fn lemma_region_floor(g: Seq<Vec<char>>, rooms: Seq<Room>, flips: Seq<bool>, p: GeneratorParams, x: int, y: int)
    requires
        layout_from(g, rooms, flips, p),
        0 <= x < level_width(p),
        0 <= y < level_height(p),
        classic_region(rooms, flips, p, x, y),
    ensures
        is_floor_at(g, x, y),
{
    lemma_floor_from_layout(g, level_width(p) as int, level_height(p) as int, |cx: int, cy: int| in_some_room(rooms, cx, cy) || on_corridor(
        p.mode,
        rooms,
        flips,
        crate::dungeon::channel_of(p),
        p.corner_radius as i32,
        rooms.len() as int,
        cx,
        cy,
    ));
}

/// Every cell of room `k` reaches the room's centre inside the room.
proof fn lemma_room_cells_reach_center(g: Seq<Vec<char>>, rooms: Seq<Room>, flips: Seq<bool>, p: GeneratorParams, k: int, x: int, y: int)
    requires
        rooms_generated(rooms, p),
        layout_from(g, rooms, flips, p),
        0 <= k < rooms.len(),
        in_room(rooms[k], x, y),
    ensures
        reachable(g, center_spec(rooms[k]), (x, y)),
{
    let r = rooms[k];
    assert(room_fits(r, level_width(p) as int, level_height(p) as int, room_min(p) as int, room_max(p) as int));
    let (cx, cy) = center_spec(r);
    assert forall|xx: int| between(cx, x, xx) implies is_floor_at(g, xx, cy) by {
        assert(in_room(rooms[k], xx, cy));
        lemma_region_floor(g, rooms, flips, p, xx, cy);
    }
    lemma_row_reachable(g, cy, cx, x);
    assert forall|yy: int| between(cy, y, yy) implies is_floor_at(g, x, yy) by {
        assert(in_room(rooms[k], x, yy));
        lemma_region_floor(g, rooms, flips, p, x, yy);
    }
    lemma_column_reachable(g, x, cy, y);
    lemma_reachable_trans(g, (cx, cy), (x, cy), (x, y));
}

/// Every cell of the tunnel joining rooms `j - 1` and `j` is reached from the
/// centre of room `j - 1` along the tunnel.
proof fn lemma_corridor_cells_reach_start(g: Seq<Vec<char>>, rooms: Seq<Room>, flips: Seq<bool>, p: GeneratorParams, j: int, x: int, y: int)
    requires
        p.mode == GenerationMode::Classic,
        rooms_generated(rooms, p),
        layout_from(g, rooms, flips, p),
        1 <= j < rooms.len(),
        classic_corridor(rooms[j - 1], rooms[j], flips[j], x, y),
    ensures
        reachable(g, center_spec(rooms[j - 1]), (x, y)),
{
    let w = level_width(p) as int;
    let h = level_height(p) as int;
    let a = rooms[j - 1];
    let b = rooms[j];
    assert(room_fits(a, w, h, room_min(p) as int, room_max(p) as int));
    assert(room_fits(b, w, h, room_min(p) as int, room_max(p) as int));
    let (x1, y1) = center_spec(a);
    let (x2, y2) = center_spec(b);
    let cm = crate::dungeon::channel_of(p);
    let cr = p.corner_radius as i32;
    if flips[j] {
        assert forall|xx: int| between(x1, x2, xx) implies is_floor_at(g, xx, y1) by {
            assert(corridor_between(p.mode, rooms, flips, cm, cr, j, xx, y1));
            lemma_region_floor(g, rooms, flips, p, xx, y1);
        }
        if y == y1 && between(x1, x2, x) {
            assert forall|xx: int| between(x1, x, xx) implies is_floor_at(g, xx, y1) by {
                assert(between(x1, x2, xx));
            }
            lemma_row_reachable(g, y1, x1, x);
        } else {
            lemma_row_reachable(g, y1, x1, x2);
            assert forall|yy: int| between(y1, y, yy) implies is_floor_at(g, x2, yy) by {
                assert(between(y1, y2, yy));
                assert(corridor_between(p.mode, rooms, flips, cm, cr, j, x2, yy));
                lemma_region_floor(g, rooms, flips, p, x2, yy);
            }
            lemma_column_reachable(g, x2, y1, y);
            lemma_reachable_trans(g, (x1, y1), (x2, y1), (x, y));
        }
    } else {
        assert forall|yy: int| between(y1, y2, yy) implies is_floor_at(g, x1, yy) by {
            assert(corridor_between(p.mode, rooms, flips, cm, cr, j, x1, yy));
            lemma_region_floor(g, rooms, flips, p, x1, yy);
        }
        if x == x1 && between(y1, y2, y) {
            assert forall|yy: int| between(y1, y, yy) implies is_floor_at(g, x1, yy) by {
                assert(between(y1, y2, yy));
            }
            lemma_column_reachable(g, x1, y1, y);
        } else {
            lemma_column_reachable(g, x1, y1, y2);
            assert forall|xx: int| between(x1, x, xx) implies is_floor_at(g, xx, y2) by {
                assert(between(x1, x2, xx));
                assert(corridor_between(p.mode, rooms, flips, cm, cr, j, xx, y2));
                lemma_region_floor(g, rooms, flips, p, xx, y2);
            }
            lemma_row_reachable(g, y2, x1, x);
            lemma_reachable_trans(g, (x1, y1), (x1, y2), (x, y));
        }
    }
}

/// The centre of room `k` is reached from the centre of the first room.
proof fn lemma_center_reaches_first(g: Seq<Vec<char>>, rooms: Seq<Room>, flips: Seq<bool>, p: GeneratorParams, k: int)
    requires
        p.mode == GenerationMode::Classic,
        rooms_generated(rooms, p),
        layout_from(g, rooms, flips, p),
        0 <= k < rooms.len(),
    ensures
        reachable(g, center_spec(rooms[0]), center_spec(rooms[k])),
    decreases k,
{
    let r = rooms[k];
    assert(room_fits(r, level_width(p) as int, level_height(p) as int, room_min(p) as int, room_max(p) as int));
    let c = center_spec(r);
    if k == 0 {
        assert(in_room(rooms[0], c.0, c.1));
        lemma_region_floor(g, rooms, flips, p, c.0, c.1);
        lemma_reachable_refl(g, c);
    } else {
        lemma_center_reaches_first(g, rooms, flips, p, k - 1);
        let (x2, y2) = c;
        let (x1, y1) = center_spec(rooms[k - 1]);
        if flips[k] {
            assert(between(y1, y2, y2));
        } else {
            assert(between(x1, x2, x2));
        }
        assert(classic_corridor(rooms[k - 1], rooms[k], flips[k], x2, y2));
        lemma_corridor_cells_reach_start(g, rooms, flips, p, k, x2, y2);
        lemma_reachable_trans(g, center_spec(rooms[0]), center_spec(rooms[k - 1]), c);
    }
}

/// The floor of a classic level is connected: a flood fill from any floor
/// cell reaches every other floor cell.
pub proof fn lemma_classic_floor_connected(level: Level, g: Seq<Vec<char>>, p: GeneratorParams, a: (int, int), b: (int, int))
    requires
        p.mode == GenerationMode::Classic,
        level_from(level, g, p),
        is_floor_at(g, a.0, a.1),
        is_floor_at(g, b.0, b.1),
    ensures
        reachable(g, a, b),
{
    let rooms = level.rooms@;
    let flips = choose|flips: Seq<bool>| #[trigger] layout_from(g, rooms, flips, p);
    lemma_all_reach_first_center(g, rooms, flips, p, a.0, a.1);
    lemma_all_reach_first_center(g, rooms, flips, p, b.0, b.1);
    lemma_reachable_symm(g, center_spec(rooms[0]), a);
    lemma_reachable_trans(g, a, center_spec(rooms[0]), b);
}

} // verus!
