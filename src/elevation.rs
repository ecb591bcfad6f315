//! Elevations for every floor cell of a marble level: each room's cells take
//! the room's elevation, corridor cells that of the nearest room (by a
//! multi-source breadth-first search), and a bounded smoothing then nudges
//! cells that sit more than one level from a neighbour.
use crate::carve::{is_floor_at, TILE_FLOOR};
use crate::room::in_some_room;
use crate::marble::{floor_at, grid_shaped, map_shaped};
use crate::room::{in_room, overlaps_with_margin, rooms_separated, Room, MAX_ELEVATION};
use std::collections::VecDeque;
use vstd::prelude::*;

verus! {

/// Number of smoothing passes at most.
pub const MAX_SMOOTHING_PASSES: u32 = 50;

/// Sum of a row of values.
pub open spec fn row_sum(r: Seq<i32>) -> int
    decreases r.len(),
{
    if r.len() == 0 {
        0
    } else {
        row_sum(r.drop_last()) + r.last()
    }
}

/// Sum of all values of a grid.
pub open spec fn grid_sum(s: Seq<Vec<i32>>) -> int
    decreases s.len(),
{
    if s.len() == 0 {
        0
    } else {
        grid_sum(s.drop_last()) + row_sum(s.last()@)
    }
}

proof fn lemma_row_sum_update(r: Seq<i32>, i: int, v: i32)
    requires
        0 <= i < r.len(),
    ensures
        row_sum(r.update(i, v)) == row_sum(r) - r[i] + v,
    decreases r.len(),
{
    let t = r.update(i, v);
    if i == r.len() - 1 {
        assert(t.drop_last() =~= r.drop_last());
    } else {
        lemma_row_sum_update(r.drop_last(), i, v);
        assert(t.drop_last() =~= r.drop_last().update(i, v));
    }
}

proof fn lemma_grid_sum_update(s: Seq<Vec<i32>>, y: int, row: Vec<i32>)
    requires
        0 <= y < s.len(),
    ensures
        grid_sum(s.update(y, row)) == grid_sum(s) - row_sum(s[y]@) + row_sum(row@),
    decreases s.len(),
{
    let t = s.update(y, row);
    if y == s.len() - 1 {
        assert(t.drop_last() =~= s.drop_last());
    } else {
        lemma_grid_sum_update(s.drop_last(), y, row);
        assert(t.drop_last() =~= s.drop_last().update(y, row));
    }
}

proof fn lemma_row_sum_nonneg(r: Seq<i32>)
    requires
        forall|i: int| 0 <= i < r.len() ==> r[i] >= 0,
    ensures
        row_sum(r) >= 0,
    decreases r.len(),
{
    if r.len() > 0 {
        lemma_row_sum_nonneg(r.drop_last());
    }
}

proof fn lemma_grid_sum_nonneg(s: Seq<Vec<i32>>)
    requires
        forall|y: int, x: int| 0 <= y < s.len() && 0 <= x < s[y]@.len() ==> #[trigger] s[y]@[x] >= 0,
    ensures
        grid_sum(s) >= 0,
    decreases s.len(),
{
    if s.len() > 0 {
        lemma_grid_sum_nonneg(s.drop_last());
        let r = s.last()@;
        assert forall|i: int| 0 <= i < r.len() implies r[i] >= 0 by {
            assert(s[s.len() - 1]@[i] >= 0);
        }
        lemma_row_sum_nonneg(r);
    }
}

/// Every value of the map lies in `[-m, m]`.
pub open spec fn map_bounded(e: Seq<Vec<i32>>, m: int) -> bool {
    map_within(e, -m, m)
}

/// Every value of the map lies in `[lo, hi]`.
pub open spec fn map_within(e: Seq<Vec<i32>>, lo: int, hi: int) -> bool {
    forall|y: int, x: int| 0 <= y < e.len() && 0 <= x < e[y]@.len() ==> lo <= #[trigger] e[y]@[x] <= hi
}

/// The elevation a room gives its cells.
pub open spec fn room_elevation(r: Room) -> int {
    match r.elevation {
        Some(e) => e as int,
        None => 0,
    }
}

/// A `w` by `h` grid holding `v` everywhere.
pub fn filled(w: usize, h: usize, v: i32) -> (e: Vec<Vec<i32>>)
    ensures
        map_shaped(e@, w as int, h as int),
        forall|y: int, x: int| 0 <= y < h && 0 <= x < w ==> #[trigger] e@[y]@[x] == v,
{
    let mut e: Vec<Vec<i32>> = Vec::new();
    let mut y: usize = 0;
    while y < h
        invariant
            y <= h,
            e@.len() == y,
            forall|yy: int| 0 <= yy < y ==> (#[trigger] e@[yy])@.len() == w,
            forall|yy: int, x: int| 0 <= yy < y && 0 <= x < w ==> #[trigger] e@[yy]@[x] == v,
        decreases h - y,
    {
        let mut row: Vec<i32> = Vec::new();
        let mut x: usize = 0;
        while x < w
            invariant
                x <= w,
                row@.len() == x,
                forall|k: int| 0 <= k < x ==> row@[k] == v,
            decreases w - x,
        {
            row.push(v);
            x += 1;
        }
        e.push(row);
        y += 1;
    }
    e
}

/// Set `e[y][x] = v`.
fn set_value(e: &mut Vec<Vec<i32>>, x: usize, y: usize, v: i32)
    requires
        y < old(e)@.len(),
        x < old(e)@[y as int]@.len(),
    ensures
        final(e)@.len() == old(e)@.len(),
        forall|yy: int| 0 <= yy < old(e)@.len() ==> (#[trigger] final(e)@[yy])@.len() == old(e)@[yy]@.len(),
        forall|yy: int, xx: int| 0 <= yy < old(e)@.len() && 0 <= xx < old(e)@[yy]@.len() ==> #[trigger] final(e)@[yy]@[xx] == if yy == y && xx == x {
            v
        } else {
            old(e)@[yy]@[xx]
        },
        grid_sum(final(e)@) == grid_sum(old(e)@) - old(e)@[y as int]@[x as int] + v,
{
    proof {
        lemma_row_sum_update(e@[y as int]@, x as int, v);
    }
    e[y][x] = v;
    proof {
        lemma_grid_sum_update(old(e)@, y as int, e@[y as int]);
        assert(e@ == old(e)@.update(y as int, e@[y as int]));
    }
}

/// The offset of neighbour `k` in the order down, up, right, left.
pub open spec fn neighbour_offset(k: int) -> (int, int) {
    if k == 0 {
        (0, 1)
    } else if k == 1 {
        (0, -1)
    } else if k == 2 {
        (1, 0)
    } else {
        (-1, 0)
    }
}

fn neighbour_offset_exec(k: usize) -> (r: (i64, i64))
    requires
        k < 4,
    ensures
        r.0 as int == neighbour_offset(k as int).0,
        r.1 as int == neighbour_offset(k as int).1,
{
    if k == 0 {
        (0, 1)
    } else if k == 1 {
        (0, -1)
    } else if k == 2 {
        (1, 0)
    } else {
        (-1, 0)
    }
}

/// The elevation that one smoothing pass gives floor cell `(x, y)`, looking at
/// neighbours from the `k`-th on: the first floor neighbour more than one
/// level away and no farther from a room pulls the cell one level towards it.
pub open spec fn smooth_from(
    e: Seq<Vec<i32>>,
    d: Seq<Vec<i32>>,
    g: Seq<Vec<char>>,
    w: int,
    h: int,
    x: int,
    y: int,
    k: int,
) -> int
    decreases 4 - k,
{
    if k >= 4 {
        e[y]@[x] as int
    } else {
        let nx = x + neighbour_offset(k).0;
        let ny = y + neighbour_offset(k).1;
        let cur = e[y]@[x] as int;
        if 0 <= nx < w && 0 <= ny < h && is_floor_at(g, nx, ny) && (e[ny]@[nx] - cur > 1 || e[ny]@[nx]
            - cur < -1) && d[y]@[x] >= d[ny]@[nx] {
            if e[ny]@[nx] > cur {
                cur + 1
            } else {
                cur - 1
            }
        } else {
            smooth_from(e, d, g, w, h, x, y, k + 1)
        }
    }
}

/// The elevation of `(x, y)` after one smoothing pass over `e`.
pub open spec fn smooth_rule(e: Seq<Vec<i32>>, d: Seq<Vec<i32>>, g: Seq<Vec<char>>, w: int, h: int, x: int, y: int) -> int {
    if is_floor_at(g, x, y) {
        smooth_from(e, d, g, w, h, x, y, 0)
    } else {
        e[y]@[x] as int
    }
}

proof fn lemma_smooth_from_bounded(
    e: Seq<Vec<i32>>,
    d: Seq<Vec<i32>>,
    g: Seq<Vec<char>>,
    w: int,
    h: int,
    x: int,
    y: int,
    k: int,
    lo: int,
    hi: int,
)
    requires
        map_shaped(e, w, h),
        map_within(e, lo, hi),
        0 <= x < w,
        0 <= y < h,
    ensures
        lo <= smooth_from(e, d, g, w, h, x, y, k) <= hi,
    decreases 4 - k,
{
    if k < 4 {
        let nx = x + neighbour_offset(k).0;
        let ny = y + neighbour_offset(k).1;
        if 0 <= nx < w && 0 <= ny < h {
            assert(lo <= e[ny]@[nx] <= hi);
        }
        assert(lo <= e[y]@[x] <= hi);
        lemma_smooth_from_bounded(e, d, g, w, h, x, y, k + 1, lo, hi);
    }
}

/// One smoothing pass: the new elevations, computed from the old ones, and
/// whether any changed.
pub fn smooth_pass(
    e: &Vec<Vec<i32>>,
    d: &Vec<Vec<i32>>,
    g: &Vec<Vec<char>>,
    w: usize,
    h: usize,
) -> (r: (Vec<Vec<i32>>, bool))
    requires
        map_shaped(e@, w as int, h as int),
        map_shaped(d@, w as int, h as int),
        grid_shaped(g@, w as int, h as int),
        w <= 0x1_0000_0000,
        h <= 0x1_0000_0000,
        map_bounded(e@, i32::MAX as int - 1),
    ensures
        map_shaped(r.0@, w as int, h as int),
        forall|y: int, x: int| 0 <= y < h && 0 <= x < w ==> #[trigger] r.0@[y]@[x] == smooth_rule(e@, d@, g@, w as int, h as int, x, y),
        r.1 == exists|y: int, x: int| 0 <= y < h && 0 <= x < w && #[trigger] r.0@[y]@[x] != e@[y]@[x],
{
    let mut out: Vec<Vec<i32>> = Vec::new();
    let mut changed = false;
    let mut y: usize = 0;
    while y < h
        invariant
            y <= h,
            map_shaped(e@, w as int, h as int),
            map_shaped(d@, w as int, h as int),
            grid_shaped(g@, w as int, h as int),
            w <= 0x1_0000_0000,
            h <= 0x1_0000_0000,
            map_bounded(e@, i32::MAX as int - 1),
            out@.len() == y,
            forall|yy: int| 0 <= yy < y ==> (#[trigger] out@[yy])@.len() == w,
            forall|yy: int, x: int| 0 <= yy < y && 0 <= x < w ==> #[trigger] out@[yy]@[x] == smooth_rule(e@, d@, g@, w as int, h as int, x, yy),
            changed == exists|yy: int, x: int| 0 <= yy < y && 0 <= x < w && #[trigger] out@[yy]@[x] != e@[yy]@[x],
        decreases h - y,
    {
        let mut row: Vec<i32> = Vec::new();
        let mut row_changed = false;
        let mut x: usize = 0;
        while x < w
            invariant
                x <= w,
                y < h,
                map_shaped(e@, w as int, h as int),
                map_shaped(d@, w as int, h as int),
                grid_shaped(g@, w as int, h as int),
                w <= 0x1_0000_0000,
                h <= 0x1_0000_0000,
                map_bounded(e@, i32::MAX as int - 1),
                row@.len() == x,
                forall|k: int| 0 <= k < x ==> #[trigger] row@[k] == smooth_rule(e@, d@, g@, w as int, h as int, k, y as int),
                row_changed == exists|k: int| 0 <= k < x && #[trigger] row@[k] != e@[y as int]@[k],
            decreases w - x,
        {
            let cur = e[y][x];
            let mut new_elev = cur;
            if g[y][x] == TILE_FLOOR {
                let cur_dist = d[y][x];
                let mut k: usize = 0;
                while k < 4
                    invariant_except_break
                        new_elev == cur,
                        smooth_from(e@, d@, g@, w as int, h as int, x as int, y as int, k as int)
                            == smooth_from(e@, d@, g@, w as int, h as int, x as int, y as int, 0),
                    invariant
                        k <= 4,
                        x < w,
                        y < h,
                        map_shaped(e@, w as int, h as int),
                        map_shaped(d@, w as int, h as int),
                        grid_shaped(g@, w as int, h as int),
                        w <= 0x1_0000_0000,
                        h <= 0x1_0000_0000,
                        map_bounded(e@, i32::MAX as int - 1),
                        cur == e@[y as int]@[x as int],
                        cur_dist == d@[y as int]@[x as int],
                        is_floor_at(g@, x as int, y as int),
                    ensures
                        new_elev == smooth_from(e@, d@, g@, w as int, h as int, x as int, y as int, 0),
                    decreases 4 - k,
                {
                    let (dx, dy) = neighbour_offset_exec(k);
                    let nx = x as i64 + dx;
                    let ny = y as i64 + dy;
                    if 0 <= ny && ny < h as i64 && 0 <= nx && nx < w as i64 && floor_at(g, nx, ny) {
                        let ne = e[ny as usize][nx as usize];
                        let nd = d[ny as usize][nx as usize];
                        let diff = ne as i64 - cur as i64;
                        if (diff > 1 || diff < -1) && cur_dist >= nd {
                            proof {
                                assert(-(i32::MAX as int - 1) <= cur <= i32::MAX as int - 1);
                            }
                            new_elev = if diff > 0 { cur + 1 } else { cur - 1 };
                            break;
                        }
                    }
                    k += 1;
                }
            }
            let ghost row_before = row@;
            let ghost was_changed = row_changed;
            if new_elev != cur {
                row_changed = true;
            }
            row.push(new_elev);
            proof {
                assert(row@[x as int] == new_elev);
                assert forall|k: int| 0 <= k < x implies #[trigger] row@[k] == row_before[k] by {}
                if new_elev != cur {
                    assert(row@[x as int] != e@[y as int]@[x as int]);
                } else if !was_changed {
                    assert forall|k: int| 0 <= k < x + 1 implies #[trigger] row@[k] == e@[y as int]@[k] by {
                        if k < x {
                            assert(row_before[k] == e@[y as int]@[k]);
                        }
                    }
                } else {
                    let k0 = choose|k: int| 0 <= k < x && #[trigger] row_before[k] != e@[y as int]@[k];
                    assert(row@[k0] != e@[y as int]@[k0]);
                }
            }
            x += 1;
        }
        let ghost out_before = out@;
        let ghost was_changed = changed;
        if row_changed {
            changed = true;
        }
        out.push(row);
        proof {
            assert(out@[y as int] == row);
            assert forall|yy: int| 0 <= yy < y implies #[trigger] out@[yy] == out_before[yy] by {}
            if row_changed {
                let k0 = choose|k: int| 0 <= k < w && #[trigger] row@[k] != e@[y as int]@[k];
                assert(out@[y as int]@[k0] != e@[y as int]@[k0]);
            } else if !was_changed {
                assert forall|yy: int, xx: int| 0 <= yy < y + 1 && 0 <= xx < w implies #[trigger] out@[yy]@[xx] == e@[yy]@[xx] by {
                    if yy < y {
                        assert(out_before[yy]@[xx] == e@[yy]@[xx]);
                    } else {
                        assert(row@[xx] == e@[y as int]@[xx]);
                    }
                }
            } else {
                let (y0, x0) = choose|yy: int, xx: int| 0 <= yy < y && 0 <= xx < w && #[trigger] out_before[yy]@[xx] != e@[yy]@[xx];
                assert(out@[y0]@[x0] != e@[y0]@[x0]);
            }
        }
        y += 1;
    }
    (out, changed)
}

/// Whether `v` is 0 or the elevation of one of `rooms`.
pub open spec fn is_room_level(v: int, rooms: Seq<Room>) -> bool {
    v == 0 || exists|i: int| 0 <= i < rooms.len() && room_elevation(#[trigger] rooms[i]) == v
}

/// Every room's elevation (0 where it has none) lies in `[-m, m]`.
pub open spec fn rooms_bounded(rooms: Seq<Room>, m: int) -> bool {
    rooms_within(rooms, -m, m)
}

/// Every room's elevation (0 where it has none) lies in `[lo, hi]`.
pub open spec fn rooms_within(rooms: Seq<Room>, lo: int, hi: int) -> bool {
    forall|i: int| 0 <= i < rooms.len() ==> lo <= room_elevation(#[trigger] rooms[i]) <= hi
}

/// Cells that are neither floor nor part of a room hold 0.
pub open spec fn off_floor_zero(e: Seq<Vec<i32>>, g: Seq<Vec<char>>, rooms: Seq<Room>, w: int, h: int) -> bool {
    forall|y: int, x: int|
        0 <= y < h && 0 <= x < w && !is_floor_at(g, x, y) && !in_some_room(rooms, x, y) ==> #[trigger] e[y]@[x] == 0
}

/// Every cell of the map holds 0 or the elevation of one of `rooms`.
pub open spec fn room_levels_only(e: Seq<Vec<i32>>, rooms: Seq<Room>, w: int, h: int) -> bool {
    forall|y: int, x: int| 0 <= y < h && 0 <= x < w ==> is_room_level(#[trigger] e[y]@[x] as int, rooms)
}

/// Whether some cell of the `w` by `h` maps `a` and `b` differs.
pub open spec fn maps_differ(a: Seq<Vec<i32>>, b: Seq<Vec<i32>>, w: int, h: int) -> bool {
    exists|y: int, x: int| 0 <= y < h && 0 <= x < w && #[trigger] b[y]@[x] != a[y]@[x]
}

/// `hist` is a run of the smoothing: each map one pass (under distances `d`)
/// over the one before, at most fifty passes, every pass but the last
/// changing something, and the last changing nothing unless it was the fiftieth.
pub open spec fn smoothing_run(hist: Seq<Seq<Vec<i32>>>, d: Seq<Vec<i32>>, g: Seq<Vec<char>>, w: int, h: int) -> bool {
    &&& 2 <= hist.len() <= MAX_SMOOTHING_PASSES + 1
    &&& forall|j: int| 0 <= j < hist.len() ==> map_shaped(#[trigger] hist[j], w, h)
    &&& forall|j: int, y: int, x: int|
        0 <= j < hist.len() - 1 && 0 <= y < h && 0 <= x < w ==> (#[trigger] hist[j + 1][y]@[x]) == smooth_rule(hist[j], d, g, w, h, x, y)
    &&& forall|j: int| 1 <= j < hist.len() - 1 ==> #[trigger] maps_differ(hist[j - 1], hist[j], w, h)
    &&& hist.len() < MAX_SMOOTHING_PASSES + 1 ==> !maps_differ(hist[hist.len() - 2], hist[hist.len() - 1], w, h)
}

/// What the search keeps: maps of the right shape, distances not negative,
/// elevations and queued elevations taken from rooms, queued cells on the grid.
pub open spec fn search_state(
    elev: Seq<Vec<i32>>,
    dist: Seq<Vec<i32>>,
    queue: Seq<(usize, usize, i32, i32)>,
    rooms: Seq<Room>,
    w: int,
    h: int,
) -> bool {
    &&& map_shaped(elev, w, h)
    &&& map_shaped(dist, w, h)
    &&& forall|y: int, x: int| 0 <= y < h && 0 <= x < w ==> #[trigger] dist[y]@[x] >= 0
    &&& forall|y: int, x: int| 0 <= y < h && 0 <= x < w ==> is_room_level(#[trigger] elev[y]@[x] as int, rooms)
    &&& forall|k: int| 0 <= k < queue.len() ==> {
        let q = #[trigger] queue[k];
        q.0 < w && q.1 < h && q.2 >= 0 && is_room_level(q.3 as int, rooms)
    }
}

/// Every grid cell of the first `n` rooms holds its room's elevation at distance 0.
pub open spec fn rooms_seeded(elev: Seq<Vec<i32>>, dist: Seq<Vec<i32>>, rooms: Seq<Room>, n: int, w: int, h: int) -> bool {
    forall|k: int, x: int, y: int|
        0 <= k < n && 0 <= x < w && 0 <= y < h && #[trigger] in_room(rooms[k], x, y) ==> elev[y]@[x] == room_elevation(
            rooms[k],
        ) && dist[y]@[x] == 0
}

/// Only cells of the first `n` rooms are at distance 0.
pub open spec fn zero_in_rooms(dist: Seq<Vec<i32>>, rooms: Seq<Room>, n: int, w: int, h: int) -> bool {
    forall|x: int, y: int|
        0 <= x < w && 0 <= y < h && (#[trigger] dist[y]@[x]) == 0 ==> exists|k: int| 0 <= k < n && #[trigger] in_room(rooms[k], x, y)
}

proof fn lemma_separated_cells(rooms: Seq<Room>, k: int, j: int, x: int, y: int, nx: int, ny: int)
    requires
        rooms_separated(rooms),
        0 <= k < rooms.len(),
        0 <= j < rooms.len(),
        in_room(rooms[k], x, y),
        in_room(rooms[j], nx, ny),
        -1 <= nx - x <= 1,
        -1 <= ny - y <= 1,
    ensures
        k == j,
{
    if k != j {
        assert(!overlaps_with_margin(rooms[k], rooms[j], 1));
    }
}

proof fn lemma_room_cell_from(
    e: Seq<Vec<i32>>,
    d: Seq<Vec<i32>>,
    g: Seq<Vec<char>>,
    rooms: Seq<Room>,
    w: int,
    h: int,
    k: int,
    x: int,
    y: int,
    j: int,
)
    requires
        map_shaped(e, w, h),
        map_shaped(d, w, h),
        rooms_separated(rooms),
        rooms_seeded(e, d, rooms, rooms.len() as int, w, h),
        zero_in_rooms(d, rooms, rooms.len() as int, w, h),
        forall|yy: int, xx: int| 0 <= yy < h && 0 <= xx < w ==> #[trigger] d[yy]@[xx] >= 0,
        0 <= k < rooms.len(),
        0 <= x < w,
        0 <= y < h,
        in_room(rooms[k], x, y),
    ensures
        smooth_from(e, d, g, w, h, x, y, j) == e[y]@[x],
    decreases 4 - j,
{
    if j < 4 {
        let nx = x + neighbour_offset(j).0;
        let ny = y + neighbour_offset(j).1;
        assert(e[y]@[x] == room_elevation(rooms[k]) && d[y]@[x] == 0);
        if 0 <= nx < w && 0 <= ny < h && d[y]@[x] >= d[ny]@[nx] {
            assert(d[ny]@[nx] >= 0);
            assert(d[ny]@[nx] == 0);
            let k2 = choose|k2: int| 0 <= k2 < rooms.len() && #[trigger] in_room(rooms[k2], nx, ny);
            lemma_separated_cells(rooms, k, k2, x, y, nx, ny);
            assert(e[ny]@[nx] == room_elevation(rooms[k]));
        }
        lemma_room_cell_from(e, d, g, rooms, w, h, k, x, y, j + 1);
    }
}

/// Whether cells `a` and `b` share a side.
pub open spec fn side_by_side(a: (int, int), b: (int, int)) -> bool {
    (a.0 == b.0 && (a.1 - b.1 == 1 || b.1 - a.1 == 1)) || (a.1 == b.1 && (a.0 - b.0 == 1 || b.0 - a.0
        == 1))
}

/// `path` goes over floor cells of `g`, one side-step at a time.
pub open spec fn floor_walk(g: Seq<Vec<char>>, path: Seq<(int, int)>) -> bool {
    &&& forall|j: int| 0 <= j < path.len() ==> is_floor_at(g, (#[trigger] path[j]).0, path[j].1)
    &&& forall|j: int| 0 <= j < path.len() - 1 ==> side_by_side(#[trigger] path[j], path[j + 1])
}

/// `path` is a floor walk of `d` steps from a cell of room `r` to `(x, y)`.
pub open spec fn walk_from_room(g: Seq<Vec<char>>, r: Room, path: Seq<(int, int)>, x: int, y: int, d: int) -> bool {
    &&& path.len() == d + 1
    &&& in_room(r, path[0].0, path[0].1)
    &&& path.last() == (x, y)
    &&& floor_walk(g, path)
}

/// Every cell the search reached (distance above 0 and below `i32::MAX`) holds
/// the elevation of a room from whose cells a floor walk of that many steps reaches it.
pub open spec fn search_sound(elev: Seq<Vec<i32>>, dist: Seq<Vec<i32>>, g: Seq<Vec<char>>, rooms: Seq<Room>, w: int, h: int) -> bool {
    forall|y: int, x: int|
        0 <= y < h && 0 <= x < w && 0 < #[trigger] dist[y]@[x] < i32::MAX ==> exists|k: int, path: Seq<(int, int)>|
            0 <= k < rooms.len() && #[trigger] walk_from_room(g, rooms[k], path, x, y, dist[y]@[x] as int) && elev[y]@[x]
                == room_elevation(rooms[k])
}

/// Every cell at distance 0 belongs to a room whose elevation it holds.
pub open spec fn zero_sound(elev: Seq<Vec<i32>>, dist: Seq<Vec<i32>>, rooms: Seq<Room>, w: int, h: int) -> bool {
    forall|y: int, x: int|
        0 <= y < h && 0 <= x < w && (#[trigger] dist[y]@[x]) == 0 ==> exists|k: int|
            0 <= k < rooms.len() && #[trigger] in_room(rooms[k], x, y) && elev[y]@[x] == room_elevation(rooms[k])
}

/// Every cell of every room lies at distance 0.
pub open spec fn rooms_at_zero(dist: Seq<Vec<i32>>, rooms: Seq<Room>, n: int, w: int, h: int) -> bool {
    forall|k: int, x: int, y: int| 0 <= k < n && 0 <= x < w && 0 <= y < h && #[trigger] in_room(rooms[k], x, y) ==> dist[y]@[x] == 0
}

/// `(x, y)` waits in the queue with distance `d`.
pub open spec fn queued_at(queue: Seq<(usize, usize, i32, i32)>, x: int, y: int, d: int) -> bool {
    exists|j: int| 0 <= j < queue.len() && (#[trigger] queue[j]).0 == x && queue[j].1 == y && queue[j].2 == d
}

/// Queued cells are floor; a queued distance is never below the cell's;
/// a distance-0 entry carries the elevation of a room holding the cell, and a
/// current positive entry the cell's elevation.
pub open spec fn entries_ok(
    queue: Seq<(usize, usize, i32, i32)>,
    elev: Seq<Vec<i32>>,
    dist: Seq<Vec<i32>>,
    g: Seq<Vec<char>>,
    rooms: Seq<Room>,
) -> bool {
    forall|j: int|
        0 <= j < queue.len() ==> {
            let q = #[trigger] queue[j];
            &&& is_floor_at(g, q.0 as int, q.1 as int)
            &&& q.2 >= dist[q.1 as int]@[q.0 as int]
            &&& q.2 < i32::MAX
            &&& q.2 == 0 ==> exists|k: int| 0 <= k < rooms.len() && #[trigger] in_room(rooms[k], q.0 as int, q.1 as int) && q.3 == room_elevation(rooms[k])
            &&& (q.2 > 0 && q.2 == dist[q.1 as int]@[q.0 as int]) ==> q.3 == elev[q.1 as int]@[q.0 as int]
        }
}

/// Between side-by-side floor cells the distance grows by at most one from
/// `(x, y)`, unless `(x, y)` waits in the queue at its distance, or it is the
/// cell `cur` being expanded and the side comes at or after `from`.
pub open spec fn search_closed(
    dist: Seq<Vec<i32>>,
    g: Seq<Vec<char>>,
    queue: Seq<(usize, usize, i32, i32)>,
    w: int,
    h: int,
    cur: (int, int),
    from: int,
) -> bool {
    forall|y: int, x: int, k: int|
        0 <= y < h && 0 <= x < w && 0 <= k < 4 && is_floor_at(g, x, y) && is_floor_at(
            g,
            x + neighbour_offset(k).0,
            y + neighbour_offset(k).1,
        ) ==> #[trigger] dist[y + neighbour_offset(k).1]@[x + neighbour_offset(k).0] <= dist[y]@[x] + 1
            || queued_at(queue, x, y, dist[y]@[x] as int) || (cur == (x, y) && k >= from)
}

/// `e` and `d` are what the breadth-first search from the rooms leaves: room
/// cells at distance 0 holding their room's elevation, every other reached
/// floor cell at the length of a floor walk from a room cell and holding that
/// room's elevation, and side-by-side floor cells never more than one apart.
/// Together these make `d` the breadth-first distance to the nearest room
/// over floor, and `e` the elevation of a nearest room.
pub open spec fn nearest_room_map(e: Seq<Vec<i32>>, d: Seq<Vec<i32>>, g: Seq<Vec<char>>, rooms: Seq<Room>, w: int, h: int) -> bool {
    &&& map_shaped(d, w, h)
    &&& forall|y: int, x: int| 0 <= y < h && 0 <= x < w ==> #[trigger] d[y]@[x] >= 0
    &&& rooms_at_zero(d, rooms, rooms.len() as int, w, h)
    &&& zero_in_rooms(d, rooms, rooms.len() as int, w, h)
    &&& zero_sound(e, d, rooms, w, h)
    &&& search_sound(e, d, g, rooms, w, h)
    &&& search_closed(d, g, Seq::empty(), w, h, (-1, -1), 4)
}

/// `e` is the elevation map of grid `g` with `rooms`: the nearest-room map
/// of the search, smoothed as `smoothing_run` describes.
pub open spec fn elevation_map_of(e: Seq<Vec<i32>>, g: Seq<Vec<char>>, rooms: Seq<Room>, w: int, h: int) -> bool {
    exists|d: Seq<Vec<i32>>, hist: Seq<Seq<Vec<i32>>>|
        #[trigger] smoothing_run(hist, d, g, w, h) && hist.last() == e && room_levels_only(hist[0], rooms, w, h)
            && nearest_room_map(hist[0], d, g, rooms, w, h)
}

/// A search distance is at most the length of any floor walk from a room cell.
pub proof fn lemma_search_distance_least(
    e: Seq<Vec<i32>>,
    d: Seq<Vec<i32>>,
    g: Seq<Vec<char>>,
    rooms: Seq<Room>,
    w: int,
    h: int,
    k: int,
    path: Seq<(int, int)>,
)
    requires
        nearest_room_map(e, d, g, rooms, w, h),
        grid_shaped(g, w, h),
        0 <= k < rooms.len(),
        path.len() >= 1,
        in_room(rooms[k], path[0].0, path[0].1),
        floor_walk(g, path),
    ensures
        d[path.last().1]@[path.last().0] <= path.len() - 1,
    decreases path.len(),
{
    if path.len() == 1 {
        assert(is_floor_at(g, path[0].0, path[0].1));
    } else {
        let p = path.drop_last();
        assert forall|j: int| 0 <= j < p.len() implies is_floor_at(g, (#[trigger] p[j]).0, p[j].1) by {
            assert(p[j] == path[j]);
        }
        assert forall|j: int| 0 <= j < p.len() - 1 implies side_by_side(#[trigger] p[j], p[j + 1]) by {
            assert(p[j] == path[j] && p[j + 1] == path[j + 1]);
        }
        lemma_search_distance_least(e, d, g, rooms, w, h, k, p);
        let a = path[path.len() - 2];
        let b = path.last();
        assert(side_by_side(#[trigger] path[path.len() - 2], path[path.len() - 2 + 1]));
        assert(is_floor_at(g, a.0, a.1));
        assert(is_floor_at(g, b.0, b.1));
        let kd: int = if b.0 == a.0 && b.1 == a.1 + 1 {
            0
        } else if b.0 == a.0 {
            1
        } else if b.0 == a.0 + 1 {
            2
        } else {
            3
        };
        assert(b == (a.0 + neighbour_offset(kd).0, a.1 + neighbour_offset(kd).1));
        assert(d[b.1]@[b.0] <= d[a.1]@[a.0] + 1 || queued_at(Seq::<(usize, usize, i32, i32)>::empty(), a.0, a.1, d[a.1]@[a.0] as int));
    }
}

/// Give each room's cells the room's elevation and distance 0, and queue them
/// as the sources of the search.
fn seed_rooms(
    elev: &mut Vec<Vec<i32>>,
    dist: &mut Vec<Vec<i32>>,
    queue: &mut VecDeque<(usize, usize, i32, i32)>,
    g: &Vec<Vec<char>>,
    rooms: &Vec<Room>,
    w: usize,
    h: usize,
)
    requires
        search_state(old(elev)@, old(dist)@, old(queue)@, rooms@, w as int, h as int),
        zero_in_rooms(old(dist)@, rooms@, 0, w as int, h as int),
        off_floor_zero(old(elev)@, g@, rooms@, w as int, h as int),
        forall|y: int, x: int| 0 <= y < h && 0 <= x < w ==> #[trigger] old(dist)@[y]@[x] == i32::MAX,
        old(queue)@.len() == 0,
        grid_shaped(g@, w as int, h as int),
        w <= 0x1_0000_0000,
        h <= 0x1_0000_0000,
    ensures
        search_state(final(elev)@, final(dist)@, final(queue)@, rooms@, w as int, h as int),
        rooms_separated(rooms@) ==> rooms_seeded(final(elev)@, final(dist)@, rooms@, rooms@.len() as int, w as int, h as int),
        zero_in_rooms(final(dist)@, rooms@, rooms@.len() as int, w as int, h as int),
        off_floor_zero(final(elev)@, g@, rooms@, w as int, h as int),
        forall|y: int, x: int| 0 <= y < h && 0 <= x < w ==> #[trigger] final(dist)@[y]@[x] == 0 || final(dist)@[y]@[x] == i32::MAX,
        forall|y: int, x: int|
            0 <= y < h && 0 <= x < w && #[trigger] final(dist)@[y]@[x] == 0 && is_floor_at(g@, x, y) ==> queued_at(final(queue)@, x, y, 0),
        zero_sound(final(elev)@, final(dist)@, rooms@, w as int, h as int),
        entries_ok(final(queue)@, final(elev)@, final(dist)@, g@, rooms@),
        rooms_at_zero(final(dist)@, rooms@, rooms@.len() as int, w as int, h as int),
{
    let ghost wi = w as int;
    let ghost hi = h as int;
    let mut i: usize = 0;
    while i < rooms.len()
        invariant
            i <= rooms@.len(),
            wi == w,
            hi == h,
            search_state(elev@, dist@, queue@, rooms@, wi, hi),
            grid_shaped(g@, wi, hi),
            w <= 0x1_0000_0000,
            h <= 0x1_0000_0000,
            rooms_separated(rooms@) ==> rooms_seeded(elev@, dist@, rooms@, i as int, wi, hi),
            zero_in_rooms(dist@, rooms@, i as int, wi, hi),
            off_floor_zero(elev@, g@, rooms@, wi, hi),
            forall|yy: int, xx: int| 0 <= yy < hi && 0 <= xx < wi ==> #[trigger] dist@[yy]@[xx] == 0 || dist@[yy]@[xx] == i32::MAX,
            forall|yy: int, xx: int|
                0 <= yy < hi && 0 <= xx < wi && #[trigger] dist@[yy]@[xx] == 0 && is_floor_at(g@, xx, yy) ==> queued_at(queue@, xx, yy, 0),
            zero_sound(elev@, dist@, rooms@, wi, hi),
            entries_ok(queue@, elev@, dist@, g@, rooms@),
            rooms_at_zero(dist@, rooms@, i as int, wi, hi),
        decreases rooms@.len() - i,
    {
        let room = rooms[i];
        let room_elev = match room.elevation {
            Some(e) => e,
            None => 0,
        };
        assert(is_room_level(room_elev as int, rooms@)) by {
            assert(room_elevation(rooms@[i as int]) == room_elev);
        }
        let y_end = room.y as i64 + room.h as i64;
        let x_end = room.x as i64 + room.w as i64;
        let mut y = room.y as i64;
        while y < y_end
            invariant
                i < rooms@.len(),
                room == rooms@[i as int],
                room_elev == room_elevation(room),
                wi == w,
                hi == h,
                search_state(elev@, dist@, queue@, rooms@, wi, hi),
                grid_shaped(g@, wi, hi),
                is_room_level(room_elev as int, rooms@),
                w <= 0x1_0000_0000,
                h <= 0x1_0000_0000,
                y_end == room.y + room.h,
                x_end == room.x + room.w,
                y_end <= 0x1_0000_0000,
                x_end <= 0x1_0000_0000,
                room.y <= y || y == room.y,
                rooms_separated(rooms@) ==> rooms_seeded(elev@, dist@, rooms@, i as int, wi, hi),
                rooms_separated(rooms@) ==> forall|xx: int, yy: int|
                    0 <= xx < wi && 0 <= yy < hi && #[trigger] in_room(room, xx, yy) && yy < y ==> elev@[yy]@[xx] == room_elev && dist@[yy]@[xx] == 0,
                zero_in_rooms(dist@, rooms@, i + 1, wi, hi),
                off_floor_zero(elev@, g@, rooms@, wi, hi),
                forall|yy: int, xx: int| 0 <= yy < hi && 0 <= xx < wi ==> #[trigger] dist@[yy]@[xx] == 0 || dist@[yy]@[xx] == i32::MAX,
                forall|yy: int, xx: int|
                    0 <= yy < hi && 0 <= xx < wi && #[trigger] dist@[yy]@[xx] == 0 && is_floor_at(g@, xx, yy) ==> queued_at(queue@, xx, yy, 0),
                zero_sound(elev@, dist@, rooms@, wi, hi),
                entries_ok(queue@, elev@, dist@, g@, rooms@),
                rooms_at_zero(dist@, rooms@, i as int, wi, hi),
                forall|xx: int, yy: int| 0 <= xx < wi && 0 <= yy < hi && #[trigger] in_room(room, xx, yy) && yy < y ==> dist@[yy]@[xx] == 0,
            decreases y_end - y,
        {
            let mut x = room.x as i64;
            while x < x_end
                invariant
                    i < rooms@.len(),
                    room == rooms@[i as int],
                    room_elev == room_elevation(room),
                    wi == w,
                    hi == h,
                    search_state(elev@, dist@, queue@, rooms@, wi, hi),
                    grid_shaped(g@, wi, hi),
                    is_room_level(room_elev as int, rooms@),
                    w <= 0x1_0000_0000,
                    h <= 0x1_0000_0000,
                    x_end == room.x + room.w,
                    x_end <= 0x1_0000_0000,
                    room.y <= y < y_end,
                    y_end == room.y + room.h,
                    room.x <= x || x == room.x,
                    rooms_separated(rooms@) ==> rooms_seeded(elev@, dist@, rooms@, i as int, wi, hi),
                    rooms_separated(rooms@) ==> forall|xx: int, yy: int|
                        0 <= xx < wi && 0 <= yy < hi && #[trigger] in_room(room, xx, yy) && (yy < y || (yy == y && xx < x)) ==> elev@[yy]@[xx] == room_elev
                            && dist@[yy]@[xx] == 0,
                    zero_in_rooms(dist@, rooms@, i + 1, wi, hi),
                    off_floor_zero(elev@, g@, rooms@, wi, hi),
                    forall|yy: int, xx: int| 0 <= yy < hi && 0 <= xx < wi ==> #[trigger] dist@[yy]@[xx] == 0 || dist@[yy]@[xx] == i32::MAX,
                    forall|yy: int, xx: int|
                        0 <= yy < hi && 0 <= xx < wi && #[trigger] dist@[yy]@[xx] == 0 && is_floor_at(g@, xx, yy) ==> queued_at(queue@, xx, yy, 0),
                    zero_sound(elev@, dist@, rooms@, wi, hi),
                    entries_ok(queue@, elev@, dist@, g@, rooms@),
                    rooms_at_zero(dist@, rooms@, i as int, wi, hi),
                    forall|xx: int, yy: int|
                        0 <= xx < wi && 0 <= yy < hi && #[trigger] in_room(room, xx, yy) && (yy < y || (yy == y && xx < x)) ==> dist@[yy]@[xx] == 0,
                decreases x_end - x,
            {
                if 0 <= y && y < h as i64 && 0 <= x && x < w as i64 {
                    let (xu, yu) = (x as usize, y as usize);
                    let ghost e0 = elev@;
                    let ghost d0 = dist@;
                    set_value(elev, xu, yu, room_elev);
                    set_value(dist, xu, yu, 0);
                    proof {
                        assert(in_room(room, x as int, y as int));
                        assert(in_room(rooms@[i as int], x as int, y as int));
                        assert(in_some_room(rooms@, x as int, y as int));
                        assert forall|yy: int, xx: int|
                            0 <= yy < hi && 0 <= xx < wi && !is_floor_at(g@, xx, yy) && !in_some_room(rooms@, xx, yy) implies #[trigger] elev@[yy]@[xx] == 0 by {
                            assert(e0[yy]@[xx] == 0);
                        }
                        if rooms_separated(rooms@) {
                            assert forall|k: int, xx: int, yy: int|
                                0 <= k < i && 0 <= xx < wi && 0 <= yy < hi && #[trigger] in_room(rooms@[k], xx, yy) implies elev@[yy]@[xx]
                                == room_elevation(rooms@[k]) && dist@[yy]@[xx] == 0 by {
                                if xx == x && yy == y {
                                    lemma_separated_cells(rooms@, k, i as int, xx, yy, x as int, y as int);
                                }
                            }
                        }
                        assert forall|xx: int, yy: int|
                            0 <= xx < wi && 0 <= yy < hi && (#[trigger] dist@[yy]@[xx]) == 0 implies exists|k: int|
                                0 <= k < i + 1 && #[trigger] in_room(rooms@[k], xx, yy) by {
                            if xx == x && yy == y {
                                assert(in_room(rooms@[i as int], xx, yy));
                            } else {
                                assert(d0[yy]@[xx] == 0);
                            }
                        }
                    }
                    let ghost q0 = queue@;
                    if g[yu][xu] == TILE_FLOOR {
                        queue.push_back((xu, yu, 0, room_elev));
                    }
                    proof {
                        let xi = x as int;
                        let yi = y as int;
                        assert(in_room(rooms@[i as int], xi, yi));
                        assert forall|j: int| 0 <= j < q0.len() implies #[trigger] queue@[j] == q0[j] by {}
                        assert forall|yy: int, xx: int|
                            0 <= yy < hi && 0 <= xx < wi && #[trigger] dist@[yy]@[xx] == 0 && is_floor_at(g@, xx, yy) implies queued_at(queue@, xx, yy, 0) by {
                            if xx == xi && yy == yi {
                                assert(queue@[q0.len() as int] == (xu, yu, 0i32, room_elev));
                            } else {
                                assert(d0[yy]@[xx] == 0);
                                let j = choose|j: int| 0 <= j < q0.len() && (#[trigger] q0[j]).0 == xx && q0[j].1 == yy && q0[j].2 == 0;
                                assert(queue@[j] == q0[j]);
                            }
                        }
                        assert forall|yy: int, xx: int| 0 <= yy < hi && 0 <= xx < wi && (#[trigger] dist@[yy]@[xx]) == 0 implies exists|k: int|
                            0 <= k < rooms@.len() && #[trigger] in_room(rooms@[k], xx, yy) && elev@[yy]@[xx] == room_elevation(rooms@[k]) by {
                            if !(xx == xi && yy == yi) {
                                assert(d0[yy]@[xx] == 0);
                                assert(elev@[yy]@[xx] == e0[yy]@[xx]);
                            }
                        }
                        assert forall|j: int| 0 <= j < queue@.len() implies {
                            let q = #[trigger] queue@[j];
                            &&& is_floor_at(g@, q.0 as int, q.1 as int)
                            &&& q.2 >= dist@[q.1 as int]@[q.0 as int]
                            &&& q.2 < i32::MAX
                            &&& q.2 == 0 ==> exists|k: int| 0 <= k < rooms@.len() && #[trigger] in_room(rooms@[k], q.0 as int, q.1 as int) && q.3 == room_elevation(rooms@[k])
                            &&& (q.2 > 0 && q.2 == dist@[q.1 as int]@[q.0 as int]) ==> q.3 == elev@[q.1 as int]@[q.0 as int]
                        } by {
                            if j < q0.len() {
                                assert(queue@[j] == q0[j]);
                                let q = q0[j];
                                assert(q.0 < w && q.1 < h);
                                if !(q.0 == xu && q.1 == yu) {
                                    assert(dist@[q.1 as int]@[q.0 as int] == d0[q.1 as int]@[q.0 as int]);
                                }
                            }
                        }
                    }
                }
                x += 1;
            }
            y += 1;
        }
        proof {
            if rooms_separated(rooms@) {
                assert forall|k: int, xx: int, yy: int|
                    0 <= k < i + 1 && 0 <= xx < wi && 0 <= yy < hi && #[trigger] in_room(rooms@[k], xx, yy) implies elev@[yy]@[xx]
                    == room_elevation(rooms@[k]) && dist@[yy]@[xx] == 0 by {
                    if k == i {
                        assert(in_room(room, xx, yy));
                    }
                }
            }
        }
        i += 1;
    }
}

proof fn lemma_search_pop(dist: Seq<Vec<i32>>, g: Seq<Vec<char>>, q0: Seq<(usize, usize, i32, i32)>, w: int, h: int)
    requires
        search_closed(dist, g, q0, w, h, (-1, -1), 4),
        q0.len() > 0,
    ensures
        search_closed(dist, g, q0.subrange(1, q0.len() as int), w, h, (q0[0].0 as int, q0[0].1 as int), 0),
        q0[0].2 != dist[q0[0].1 as int]@[q0[0].0 as int] ==> search_closed(dist, g, q0.subrange(1, q0.len() as int), w, h, (-1, -1), 4),
{
    let q1 = q0.subrange(1, q0.len() as int);
    assert forall|y: int, x: int, k: int|
        0 <= y < h && 0 <= x < w && 0 <= k < 4 && is_floor_at(g, x, y) && is_floor_at(g, x + neighbour_offset(k).0, y + neighbour_offset(k).1)
            && !(#[trigger] dist[y + neighbour_offset(k).1]@[x + neighbour_offset(k).0] <= dist[y]@[x] + 1) implies queued_at(q1, x, y, dist[y]@[x] as int)
        || ((q0[0].0 as int, q0[0].1 as int) == (x, y) && q0[0].2 == dist[y]@[x]) by {
        assert(queued_at(q0, x, y, dist[y]@[x] as int));
        let j = choose|j: int| 0 <= j < q0.len() && (#[trigger] q0[j]).0 == x && q0[j].1 == y && q0[j].2 == dist[y]@[x];
        if j > 0 {
            assert(q1[j - 1] == q0[j]);
        }
    }
}

proof fn lemma_search_advance(dist: Seq<Vec<i32>>, g: Seq<Vec<char>>, q: Seq<(usize, usize, i32, i32)>, w: int, h: int, cur: (int, int), k: int)
    requires
        search_closed(dist, g, q, w, h, cur, k),
        0 <= cur.1 < h && 0 <= cur.0 < w,
        0 <= k < 4,
        is_floor_at(g, cur.0 + neighbour_offset(k).0, cur.1 + neighbour_offset(k).1) ==> dist[cur.1 + neighbour_offset(k).1]@[cur.0 + neighbour_offset(k).0] <= dist[cur.1]@[cur.0] + 1,
    ensures
        search_closed(dist, g, q, w, h, cur, k + 1),
{
}

proof fn lemma_walk_extend(g: Seq<Vec<char>>, r: Room, path: Seq<(int, int)>, x: int, y: int, d: int, nx: int, ny: int)
    requires
        walk_from_room(g, r, path, x, y, d),
        d >= 0,
        is_floor_at(g, nx, ny),
        side_by_side((x, y), (nx, ny)),
    ensures
        walk_from_room(g, r, path.push((nx, ny)), nx, ny, d + 1),
{
    let p2 = path.push((nx, ny));
    assert(p2[0] == path[0]);
    assert(p2[path.len() - 1] == (x, y));
    assert forall|j: int| 0 <= j < p2.len() implies is_floor_at(g, (#[trigger] p2[j]).0, p2[j].1) by {
        if j < path.len() {
            assert(p2[j] == path[j]);
        }
    }
    assert forall|j: int| 0 <= j < p2.len() - 1 implies side_by_side(#[trigger] p2[j], p2[j + 1]) by {
        assert(p2[j] == path[j]);
        if j + 1 < path.len() {
            assert(p2[j + 1] == path[j + 1]);
        }
    }
}

/// The breadth-first search from the queued room cells: each floor cell
/// reached by a shorter path than before takes that path's distance and the
/// elevation of the room it started from.
#[verifier::rlimit(100)]
fn spread_from_rooms(
    elev: &mut Vec<Vec<i32>>,
    dist: &mut Vec<Vec<i32>>,
    queue: &mut VecDeque<(usize, usize, i32, i32)>,
    g: &Vec<Vec<char>>,
    rooms: &Vec<Room>,
    w: usize,
    h: usize,
)
    requires
        search_state(old(elev)@, old(dist)@, old(queue)@, rooms@, w as int, h as int),
        grid_shaped(g@, w as int, h as int),
        w <= 0x1_0000_0000,
        h <= 0x1_0000_0000,
        rooms_separated(rooms@) ==> rooms_seeded(old(elev)@, old(dist)@, rooms@, rooms@.len() as int, w as int, h as int),
        zero_in_rooms(old(dist)@, rooms@, rooms@.len() as int, w as int, h as int),
        off_floor_zero(old(elev)@, g@, rooms@, w as int, h as int),
        zero_sound(old(elev)@, old(dist)@, rooms@, w as int, h as int),
        entries_ok(old(queue)@, old(elev)@, old(dist)@, g@, rooms@),
        rooms_at_zero(old(dist)@, rooms@, rooms@.len() as int, w as int, h as int),
        search_sound(old(elev)@, old(dist)@, g@, rooms@, w as int, h as int),
        search_closed(old(dist)@, g@, old(queue)@, w as int, h as int, (-1, -1), 4),
    ensures
        zero_sound(final(elev)@, final(dist)@, rooms@, w as int, h as int),
        rooms_at_zero(final(dist)@, rooms@, rooms@.len() as int, w as int, h as int),
        search_sound(final(elev)@, final(dist)@, g@, rooms@, w as int, h as int),
        search_closed(final(dist)@, g@, final(queue)@, w as int, h as int, (-1, -1), 4),
        final(queue)@.len() == 0,
        search_state(final(elev)@, final(dist)@, final(queue)@, rooms@, w as int, h as int),
        off_floor_zero(final(elev)@, g@, rooms@, w as int, h as int),
        rooms_separated(rooms@) ==> rooms_seeded(final(elev)@, final(dist)@, rooms@, rooms@.len() as int, w as int, h as int),
        zero_in_rooms(final(dist)@, rooms@, rooms@.len() as int, w as int, h as int),
{
    let ghost wi = w as int;
    let ghost hi = h as int;
    let ghost n = rooms@.len() as int;
    loop
        invariant
            search_state(elev@, dist@, queue@, rooms@, w as int, h as int),
            grid_shaped(g@, w as int, h as int),
            w <= 0x1_0000_0000,
            h <= 0x1_0000_0000,
            wi == w,
            hi == h,
            n == rooms@.len(),
            rooms_separated(rooms@) ==> rooms_seeded(elev@, dist@, rooms@, n, wi, hi),
            zero_in_rooms(dist@, rooms@, n, wi, hi),
            off_floor_zero(elev@, g@, rooms@, wi, hi),
            zero_sound(elev@, dist@, rooms@, wi, hi),
            entries_ok(queue@, elev@, dist@, g@, rooms@),
            rooms_at_zero(dist@, rooms@, n, wi, hi),
            search_sound(elev@, dist@, g@, rooms@, wi, hi),
            search_closed(dist@, g@, queue@, wi, hi, (-1, -1), 4),
        ensures
            queue@.len() == 0,
        decreases grid_sum(dist@), queue@.len(),
    {
        proof {
            lemma_grid_sum_nonneg(dist@);
        }
        let ghost q0 = queue@;
        let (x, y, d, el) = match queue.pop_front() {
            Some(entry) => entry,
            None => {
                break;
            },
        };
        proof {
            assert(q0[0] == (x, y, d, el));
            lemma_search_pop(dist@, g@, q0, wi, hi);
            assert forall|j: int| 0 <= j < queue@.len() implies #[trigger] queue@[j] == q0[j + 1] by {}
            assert forall|k: int| 0 <= k < queue@.len() implies {
                let q = #[trigger] queue@[k];
                q.0 < w && q.1 < h && q.2 >= 0 && is_room_level(q.3 as int, rooms@)
            } by {
                assert(queue@[k] == q0[k + 1]);
            }
        }
        let ghost sum_before = grid_sum(dist@);
        let ghost pending_before = queue@.len();
        if d > dist[y][x] {
            continue;
        }
        let ghost u_elev = elev@[y as int]@[x as int];
        let mut k: usize = 0;
        while k < 4
            invariant
                k <= 4,
                x < w,
                y < h,
                d >= 0,
                is_room_level(el as int, rooms@),
                search_state(elev@, dist@, queue@, rooms@, w as int, h as int),
                grid_shaped(g@, w as int, h as int),
                w <= 0x1_0000_0000,
                h <= 0x1_0000_0000,
                grid_sum(dist@) <= sum_before,
                queue@.len() >= pending_before,
                queue@.len() > pending_before ==> grid_sum(dist@) < sum_before,
                wi == w,
                hi == h,
                n == rooms@.len(),
                rooms_separated(rooms@) ==> rooms_seeded(elev@, dist@, rooms@, n, wi, hi),
                zero_in_rooms(dist@, rooms@, n, wi, hi),
                off_floor_zero(elev@, g@, rooms@, wi, hi),
                zero_sound(elev@, dist@, rooms@, wi, hi),
                entries_ok(queue@, elev@, dist@, g@, rooms@),
                rooms_at_zero(dist@, rooms@, n, wi, hi),
                search_sound(elev@, dist@, g@, rooms@, wi, hi),
                search_closed(dist@, g@, queue@, wi, hi, (x as int, y as int), k as int),
                dist@[y as int]@[x as int] == d,
                d < i32::MAX,
                is_floor_at(g@, x as int, y as int),
                d == 0 ==> exists|kk: int| 0 <= kk < rooms@.len() && #[trigger] in_room(rooms@[kk], x as int, y as int) && el == room_elevation(rooms@[kk]),
                d > 0 ==> el == elev@[y as int]@[x as int],
            decreases 4 - k,
        {
            let (dx, dy) = neighbour_offset_exec(k);
            let nx = x as i64 + dx;
            let ny = y as i64 + dy;
            if 0 <= ny && ny < h as i64 && 0 <= nx && nx < w as i64 {
                let (nxu, nyu) = (nx as usize, ny as usize);
                if g[nyu][nxu] == TILE_FLOOR {
                    let new_dist = d as i64 + 1;
                    if new_dist < dist[nyu][nxu] as i64 {
                        let ghost e0 = elev@;
                        let ghost d0 = dist@;
                        let ghost q_before = queue@;
                        proof {
                            assert(side_by_side((x as int, y as int), (nx as int, ny as int)));
                            assert(d0[ny as int]@[nx as int] != 0);
                        }
                        set_value(dist, nxu, nyu, new_dist as i32);
                        set_value(elev, nxu, nyu, el);
                        proof {
                            assert(is_floor_at(g@, nx as int, ny as int));
                            assert forall|yy: int, xx: int|
                                0 <= yy < hi && 0 <= xx < wi && !is_floor_at(g@, xx, yy) && !in_some_room(rooms@, xx, yy) implies #[trigger] elev@[yy]@[xx] == 0 by {
                                assert(e0[yy]@[xx] == 0);
                            }
                            if rooms_separated(rooms@) {
                                assert forall|kk: int, xx: int, yy: int|
                                    0 <= kk < n && 0 <= xx < wi && 0 <= yy < hi && #[trigger] in_room(rooms@[kk], xx, yy) implies elev@[yy]@[xx]
                                    == room_elevation(rooms@[kk]) && dist@[yy]@[xx] == 0 by {
                                    assert(d0[yy]@[xx] == 0);
                                }
                            }
                            assert forall|xx: int, yy: int|
                                0 <= xx < wi && 0 <= yy < hi && (#[trigger] dist@[yy]@[xx]) == 0 implies exists|kk: int|
                                    0 <= kk < n && #[trigger] in_room(rooms@[kk], xx, yy) by {
                                assert(d0[yy]@[xx] == 0);
                            }
                        }
                        queue.push_back((nxu, nyu, new_dist as i32, el));
                        proof {
                            let (xi, yi, nxi, nyi) = (x as int, y as int, nx as int, ny as int);
                            assert forall|j: int| 0 <= j < q_before.len() implies #[trigger] queue@[j] == q_before[j] by {}
                            assert(queue@[q_before.len() as int] == (nxu, nyu, new_dist as i32, el));
                            // the new cell is reached by a walk one step longer than its parent's
                            if d == 0 {
                                let kk = choose|kk: int| 0 <= kk < rooms@.len() && #[trigger] in_room(rooms@[kk], xi, yi) && el == room_elevation(rooms@[kk]);
                                let path = seq![(xi, yi), (nxi, nyi)];
                                assert(path[1] == (nxi, nyi));
                                assert forall|j: int| 0 <= j < path.len() implies is_floor_at(g@, (#[trigger] path[j]).0, path[j].1) by {}
                                assert forall|j: int| 0 <= j < path.len() - 1 implies side_by_side(#[trigger] path[j], path[j + 1]) by {}
                                assert(walk_from_room(g@, rooms@[kk], path, nxi, nyi, 1));
                            } else {
                                assert(0 < d0[yi]@[xi] < i32::MAX);
                                let (kk, path) = choose|kk: int, path: Seq<(int, int)>|
                                    0 <= kk < rooms@.len() && #[trigger] walk_from_room(g@, rooms@[kk], path, xi, yi, d0[yi]@[xi] as int) && e0[yi]@[xi] == room_elevation(rooms@[kk]);
                                lemma_walk_extend(g@, rooms@[kk], path, xi, yi, d as int, nxi, nyi);
                            }
                            assert forall|yy: int, xx: int|
                                0 <= yy < hi && 0 <= xx < wi && 0 < #[trigger] dist@[yy]@[xx] < i32::MAX implies exists|kk: int, path: Seq<(int, int)>|
                                    0 <= kk < rooms@.len() && #[trigger] walk_from_room(g@, rooms@[kk], path, xx, yy, dist@[yy]@[xx] as int) && elev@[yy]@[xx]
                                        == room_elevation(rooms@[kk]) by {
                                if !(xx == nxi && yy == nyi) {
                                    assert(dist@[yy]@[xx] == d0[yy]@[xx]);
                                    assert(elev@[yy]@[xx] == e0[yy]@[xx]);
                                }
                            }
                            assert forall|yy: int, xx: int| 0 <= yy < hi && 0 <= xx < wi && (#[trigger] dist@[yy]@[xx]) == 0 implies exists|kk: int|
                                0 <= kk < rooms@.len() && #[trigger] in_room(rooms@[kk], xx, yy) && elev@[yy]@[xx] == room_elevation(rooms@[kk]) by {
                                assert(d0[yy]@[xx] == 0);
                                assert(elev@[yy]@[xx] == e0[yy]@[xx]);
                            }
                            assert forall|kk: int, xx: int, yy: int| 0 <= kk < n && 0 <= xx < wi && 0 <= yy < hi && #[trigger] in_room(rooms@[kk], xx, yy) implies dist@[yy]@[xx] == 0 by {
                                assert(d0[yy]@[xx] == 0);
                            }
                            assert forall|j: int| 0 <= j < queue@.len() implies {
                                let q = #[trigger] queue@[j];
                                &&& is_floor_at(g@, q.0 as int, q.1 as int)
                                &&& q.2 >= dist@[q.1 as int]@[q.0 as int]
                                &&& q.2 < i32::MAX
                                &&& q.2 == 0 ==> exists|kk: int| 0 <= kk < rooms@.len() && #[trigger] in_room(rooms@[kk], q.0 as int, q.1 as int) && q.3 == room_elevation(rooms@[kk])
                                &&& (q.2 > 0 && q.2 == dist@[q.1 as int]@[q.0 as int]) ==> q.3 == elev@[q.1 as int]@[q.0 as int]
                            } by {
                                if j < q_before.len() {
                                    let q = q_before[j];
                                    assert(q.0 < w && q.1 < h);
                                    if !(q.0 == nxu && q.1 == nyu) {
                                        assert(dist@[q.1 as int]@[q.0 as int] == d0[q.1 as int]@[q.0 as int]);
                                        assert(elev@[q.1 as int]@[q.0 as int] == e0[q.1 as int]@[q.0 as int]);
                                    }
                                }
                            }
                            assert forall|yy: int, xx: int, kd: int|
                                0 <= yy < hi && 0 <= xx < wi && 0 <= kd < 4 && is_floor_at(g@, xx, yy) && is_floor_at(
                                    g@,
                                    xx + neighbour_offset(kd).0,
                                    yy + neighbour_offset(kd).1,
                                ) implies #[trigger] dist@[yy + neighbour_offset(kd).1]@[xx + neighbour_offset(kd).0] <= dist@[yy]@[xx] + 1
                                || queued_at(queue@, xx, yy, dist@[yy]@[xx] as int) || ((xi, yi) == (xx, yy) && kd >= k + 1) by {
                                let tx = xx + neighbour_offset(kd).0;
                                let ty = yy + neighbour_offset(kd).1;
                                if xx == nxi && yy == nyi {
                                    assert(queue@[q_before.len() as int].0 == xx && queue@[q_before.len() as int].1 == yy);
                                } else if (xi, yi) == (xx, yy) && kd == k {
                                } else {
                                    assert(dist@[yy]@[xx] == d0[yy]@[xx]);
                                    if queued_at(q_before, xx, yy, d0[yy]@[xx] as int) {
                                        let j = choose|j: int| 0 <= j < q_before.len() && (#[trigger] q_before[j]).0 == xx && q_before[j].1 == yy && q_before[j].2 == d0[yy]@[xx];
                                        assert(queue@[j] == q_before[j]);
                                    }
                                }
                            }
                        }
                    } else {
                        proof {
                            lemma_search_advance(dist@, g@, queue@, wi, hi, (x as int, y as int), k as int);
                        }
                    }
                } else {
                    proof {
                        lemma_search_advance(dist@, g@, queue@, wi, hi, (x as int, y as int), k as int);
                    }
                }
            } else {
                proof {
                    lemma_search_advance(dist@, g@, queue@, wi, hi, (x as int, y as int), k as int);
                }
            }
            k += 1;
        }
        proof {
            lemma_grid_sum_nonneg(dist@);
        }
    }
}

/// The elevation of every cell of a `w` by `h` grid: room cells take their
/// room's elevation, floor cells reached from rooms that of the room the
/// search reached them from, then smoothing passes run, at most fifty,
/// stopping after the first that changes nothing. Every elevation stays within
/// any range that holds 0 and all rooms' elevations; cells that are neither
/// floor nor room stay 0; with separated rooms, room cells keep their room's
/// elevation.
pub fn create_corridor_elevation_map(g: &Vec<Vec<char>>, rooms: &Vec<Room>, w: usize, h: usize) -> (e: Vec<Vec<i32>>)
    requires
        grid_shaped(g@, w as int, h as int),
        w <= 0x1_0000_0000,
        h <= 0x1_0000_0000,
        rooms_bounded(rooms@, MAX_ELEVATION as int),
    ensures
        map_shaped(e@, w as int, h as int),
        forall|lo: int, hi: int| lo <= 0 <= hi && #[trigger] rooms_within(rooms@, lo, hi) ==> map_within(e@, lo, hi),
        forall|m: int| 0 <= m && #[trigger] rooms_bounded(rooms@, m) ==> map_bounded(e@, m),
        off_floor_zero(e@, g@, rooms@, w as int, h as int),
        elevation_map_of(e@, g@, rooms@, w as int, h as int),
        rooms_separated(rooms@) ==> forall|k: int, x: int, y: int|
            0 <= k < rooms@.len() && 0 <= x < w && 0 <= y < h && #[trigger] in_room(rooms@[k], x, y) ==> e@[y]@[x]
                == room_elevation(rooms@[k]),
{
    let ghost wi = w as int;
    let ghost hi = h as int;
    let mut elev = filled(w, h, 0);
    let mut dist = filled(w, h, i32::MAX);
    let mut queue: VecDeque<(usize, usize, i32, i32)> = VecDeque::new();
    seed_rooms(&mut elev, &mut dist, &mut queue, g, rooms, w, h);
    proof {
        assert forall|y: int, x: int, k: int|
            0 <= y < hi && 0 <= x < wi && 0 <= k < 4 && is_floor_at(g@, x, y) && is_floor_at(
                g@,
                x + neighbour_offset(k).0,
                y + neighbour_offset(k).1,
            ) implies #[trigger] dist@[y + neighbour_offset(k).1]@[x + neighbour_offset(k).0] <= dist@[y]@[x] + 1
            || queued_at(queue@, x, y, dist@[y]@[x] as int) || ((-1int, -1int) == (x, y) && k >= 4) by {
            if dist@[y]@[x] == 0 {
                assert(queued_at(queue@, x, y, 0));
            }
        }
    }
    spread_from_rooms(&mut elev, &mut dist, &mut queue, g, rooms, w, h);
    proof {
        assert(queue@ == Seq::<(usize, usize, i32, i32)>::empty());
        assert(nearest_room_map(elev@, dist@, g@, rooms@, wi, hi));
    }
    assert forall|lo: int, hi2: int| lo <= 0 <= hi2 && #[trigger] rooms_within(rooms@, lo, hi2) implies map_within(elev@, lo, hi2) by {
        assert forall|y: int, x: int| 0 <= y < elev@.len() && 0 <= x < elev@[y]@.len() implies lo <= #[trigger] elev@[y]@[x] <= hi2 by {
            assert(is_room_level(elev@[y]@[x] as int, rooms@));
        }
    }
    let ghost mut hist: Seq<Seq<Vec<i32>>> = seq![elev@];
    let ghost d_search = dist@;
    assert(room_levels_only(hist[0], rooms@, wi, hi));
    let mut pass: u32 = 0;
    while pass < MAX_SMOOTHING_PASSES
        invariant_except_break
            hist.len() >= 2 ==> maps_differ(hist[hist.len() - 2], hist[hist.len() - 1], wi, hi),
        invariant
            pass <= MAX_SMOOTHING_PASSES,
            wi == w,
            hi == h,
            map_shaped(elev@, wi, hi),
            map_shaped(dist@, wi, hi),
            grid_shaped(g@, wi, hi),
            w <= 0x1_0000_0000,
            h <= 0x1_0000_0000,
            rooms_bounded(rooms@, MAX_ELEVATION as int),
            forall|lo: int, hi2: int| lo <= 0 <= hi2 && #[trigger] rooms_within(rooms@, lo, hi2) ==> map_within(elev@, lo, hi2),
            rooms_separated(rooms@) ==> rooms_seeded(elev@, dist@, rooms@, rooms@.len() as int, wi, hi),
            zero_in_rooms(dist@, rooms@, rooms@.len() as int, wi, hi),
            forall|yy: int, xx: int| 0 <= yy < hi && 0 <= xx < wi ==> #[trigger] dist@[yy]@[xx] >= 0,
            off_floor_zero(elev@, g@, rooms@, wi, hi),
            hist.len() == pass + 1,
            hist.last() == elev@,
            room_levels_only(hist[0], rooms@, wi, hi),
            dist@ == d_search,
            nearest_room_map(hist[0], d_search, g@, rooms@, wi, hi),
            forall|j: int| 0 <= j < hist.len() ==> map_shaped(#[trigger] hist[j], wi, hi),
            forall|j: int, y: int, x: int|
                0 <= j < hist.len() - 1 && 0 <= y < hi && 0 <= x < wi ==> (#[trigger] hist[j + 1][y]@[x]) == smooth_rule(hist[j], dist@, g@, wi, hi, x, y),
            forall|j: int| 1 <= j < hist.len() - 1 ==> #[trigger] maps_differ(hist[j - 1], hist[j], wi, hi),
        ensures
            2 <= hist.len() <= MAX_SMOOTHING_PASSES + 1,
            hist.len() < MAX_SMOOTHING_PASSES + 1 ==> !maps_differ(hist[hist.len() - 2], hist[hist.len() - 1], wi, hi),
        decreases MAX_SMOOTHING_PASSES - pass,
    {
        pass += 1;
        assert(map_bounded(elev@, MAX_ELEVATION as int));
        let (next, changed) = smooth_pass(&elev, &dist, g, w, h);
        proof {
            assert forall|lo: int, hi2: int| lo <= 0 <= hi2 && #[trigger] rooms_within(rooms@, lo, hi2) implies map_within(next@, lo, hi2) by {
                assert forall|y: int, x: int| 0 <= y < next@.len() && 0 <= x < next@[y]@.len() implies lo <= #[trigger] next@[y]@[x] <= hi2 by {
                    lemma_smooth_from_bounded(elev@, dist@, g@, wi, hi, x, y, 0, lo, hi2);
                    assert(lo <= elev@[y]@[x] <= hi2);
                }
            }
            assert forall|y: int, x: int|
                0 <= y < hi && 0 <= x < wi && !is_floor_at(g@, x, y) && !in_some_room(rooms@, x, y) implies #[trigger] next@[y]@[x] == 0 by {
                assert(elev@[y]@[x] == 0);
            }
            if rooms_separated(rooms@) {
                assert forall|k: int, x: int, y: int|
                    0 <= k < rooms@.len() && 0 <= x < w && 0 <= y < h && #[trigger] in_room(rooms@[k], x, y) implies next@[y]@[x]
                    == room_elevation(rooms@[k]) && dist@[y]@[x] == 0 by {
                    lemma_room_cell_from(elev@, dist@, g@, rooms@, w as int, h as int, k, x, y, 0);
                }
            }
            let old_hist = hist;
            hist = hist.push(next@);
            assert forall|j: int| 0 <= j < hist.len() implies map_shaped(#[trigger] hist[j], wi, hi) by {
                if j < old_hist.len() {
                    assert(hist[j] == old_hist[j]);
                }
            }
            assert forall|j: int, y: int, x: int|
                0 <= j < hist.len() - 1 && 0 <= y < hi && 0 <= x < wi implies (#[trigger] hist[j + 1][y]@[x]) == smooth_rule(hist[j], dist@, g@, wi, hi, x, y) by {
                assert(hist[j] == old_hist[j]);
                if j + 1 < old_hist.len() {
                    assert(hist[j + 1] == old_hist[j + 1]);
                }
            }
            assert(changed == maps_differ(hist[hist.len() - 2], hist[hist.len() - 1], wi, hi)) by {
                assert(hist[hist.len() - 2] == elev@);
                assert(hist[hist.len() - 1] == next@);
                if changed {
                    let (y0, x0) = choose|y0: int, x0: int| 0 <= y0 < h && 0 <= x0 < w && #[trigger] next@[y0]@[x0] != elev@[y0]@[x0];
                    assert(hist[hist.len() - 1][y0]@[x0] != hist[hist.len() - 2][y0]@[x0]);
                }
                if maps_differ(hist[hist.len() - 2], hist[hist.len() - 1], wi, hi) {
                    let (y0, x0) = choose|y0: int, x0: int| 0 <= y0 < hi && 0 <= x0 < wi && #[trigger] hist[hist.len() - 1][y0]@[x0] != hist[hist.len() - 2][y0]@[x0];
                    assert(next@[y0]@[x0] != elev@[y0]@[x0]);
                }
            }
            assert forall|j: int| 1 <= j < hist.len() - 1 implies #[trigger] maps_differ(hist[j - 1], hist[j], wi, hi) by {
                assert(hist[j - 1] == old_hist[j - 1]);
                assert(hist[j] == old_hist[j]);
                if j == old_hist.len() - 1 {
                    assert(maps_differ(old_hist[old_hist.len() - 2], old_hist[old_hist.len() - 1], wi, hi));
                }
            }
        }
        elev = next;
        if !changed {
            break;
        }
    }
    proof {
        assert(smoothing_run(hist, dist@, g@, wi, hi));
        assert(elevation_map_of(elev@, g@, rooms@, wi, hi));
        assert forall|m: int| 0 <= m && #[trigger] rooms_bounded(rooms@, m) implies map_bounded(elev@, m) by {
            assert(rooms_within(rooms@, -m, m));
        }
    }
    elev
}

} // verus!
