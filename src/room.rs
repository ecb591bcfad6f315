//! Rectangular rooms, and their placement by rejection sampling.
use crate::carve::{carve_rect, carved, half_width, lemma_carved_same_region, lemma_carved_union};
use crate::rng::random_i32_inclusive;
use rand::rngs::StdRng;
use vstd::prelude::*;

verus! {

/// Axis-aligned rectangular room.
#[derive(Debug, Clone, Copy)]
pub struct Room {
    pub x: i32,
    pub y: i32,
    pub w: i32,
    pub h: i32,
    /// Elevation level of this room (0 = ground level)
    pub elevation: Option<i32>,
}

/// Whether the rectangles `[ax, ax + aw) x [ay, ay + ah)` and
/// `[bx, bx + bw) x [by, by + bh)` share a cell.
pub open spec fn rects_overlap(
    ax: int,
    ay: int,
    aw: int,
    ah: int,
    bx: int,
    by: int,
    bw: int,
    bh: int,
) -> bool {
    !(ax + aw <= bx || bx + bw <= ax || ay + ah <= by || by + bh <= ay)
}

/// Whether `a`, grown by `margin` tiles on every side, overlaps `b`.
pub open spec fn overlaps_with_margin(a: Room, b: Room, margin: int) -> bool {
    rects_overlap(
        a.x - margin,
        a.y - margin,
        a.w + 2 * margin,
        a.h + 2 * margin,
        b.x as int,
        b.y as int,
        b.w as int,
        b.h as int,
    )
}

/// Whether `(x, y)` is a cell of room `r`.
pub open spec fn in_room(r: Room, x: int, y: int) -> bool {
    r.x <= x < r.x + r.w && r.y <= y < r.y + r.h
}

/// Whether `(x, y)` is a cell of one of `rooms`.
pub open spec fn in_some_room(rooms: Seq<Room>, x: int, y: int) -> bool {
    exists|i: int| 0 <= i < rooms.len() && in_room(#[trigger] rooms[i], x, y)
}

/// No two distinct rooms come within one tile of each other.
pub open spec fn rooms_separated(rooms: Seq<Room>) -> bool {
    forall|i: int, j: int|
        0 <= i < rooms.len() && 0 <= j < rooms.len() && i != j ==> !overlaps_with_margin(
            #[trigger] rooms[i],
            #[trigger] rooms[j],
            1,
        )
}

/// The centre of a room, by integer halving of its sides.
pub open spec fn center_spec(r: Room) -> (int, int) {
    (r.x + half_width(r.w), r.y + half_width(r.h))
}

impl Room {
    /// Whether this room shares a cell with `other`.
    pub fn intersects(&self, other: &Room) -> (r: bool)
        ensures
            r == rects_overlap(
                self.x as int,
                self.y as int,
                self.w as int,
                self.h as int,
                other.x as int,
                other.y as int,
                other.w as int,
                other.h as int,
            ),
    {
        let left = self.x as i64;
        let right = self.x as i64 + self.w as i64;
        let top = self.y as i64;
        let bottom = self.y as i64 + self.h as i64;
        let oleft = other.x as i64;
        let oright = other.x as i64 + other.w as i64;
        let otop = other.y as i64;
        let obottom = other.y as i64 + other.h as i64;
        !(right <= oleft || oright <= left || bottom <= otop || obottom <= top)
    }

    /// The integer centre of the room (sides halved towards zero).
    pub fn center(&self) -> (r: (i32, i32))
        requires
            i32::MIN <= center_spec(*self).0 <= i32::MAX,
            i32::MIN <= center_spec(*self).1 <= i32::MAX,
        ensures
            r.0 == center_spec(*self).0,
            r.1 == center_spec(*self).1,
    {
        let cx = self.x as i64 + (self.w / 2) as i64;
        let cy = self.y as i64 + (self.h / 2) as i64;
        (cx as i32, cy as i32)
    }
}

/// Whether `a`, expanded by `margin` tiles on each side, intersects `b`.
pub fn intersects_with_margin(a: &Room, b: &Room, margin: i32) -> (r: bool)
    ensures
        r == overlaps_with_margin(*a, *b, margin as int),
{
    let m = margin as i64;
    let left = a.x as i64 - m;
    let top = a.y as i64 - m;
    let right = left + (a.w as i64 + 2 * m);
    let bottom = top + (a.h as i64 + 2 * m);
    let oleft = b.x as i64;
    let oright = b.x as i64 + b.w as i64;
    let otop = b.y as i64;
    let obottom = b.y as i64 + b.h as i64;
    !(right <= oleft || oright <= left || bottom <= otop || obottom <= top)
}

/// Fill the rectangle of `room` with floor.
pub fn carve_room(grid: &mut Vec<Vec<char>>, room: &Room)
    ensures
        carved(old(grid)@, final(grid)@, |x: int, y: int| in_room(*room, x, y)),
{
    carve_rect(
        grid,
        room.x as i64,
        room.x as i64 + room.w as i64 - 1,
        room.y as i64,
        room.y as i64 + room.h as i64 - 1,
    );
    proof {
        lemma_carved_same_region(
            old(grid)@,
            grid@,
            |x: int, y: int| room.x <= x <= room.x + room.w - 1 && room.y <= y <= room.y + room.h - 1,
            |x: int, y: int| in_room(*room, x, y),
        );
    }
}

/// Largest map side that generation works with.
pub const MAX_MAP_DIM: u32 = 0xFFFF;

/// Largest number of rooms that may be asked for.
pub const MAX_ROOM_TARGET: u32 = 0x0FFF_FFFF;

/// Largest elevation bound that may be asked for.
pub const MAX_ELEVATION: i32 = 0x0FFF_FFFF;

/// A room as placement leaves it: sides within `[min_room, max_room]` and
/// leaving a margin of at least one tile to every border of the map.
pub open spec fn room_fits(r: Room, width: int, height: int, min_room: int, max_room: int) -> bool {
    &&& min_room <= r.w <= max_room
    &&& min_room <= r.h <= max_room
    &&& r.w < width - 4
    &&& r.h < height - 4
    &&& 1 <= r.x
    &&& r.x + r.w + 2 <= width
    &&& 1 <= r.y
    &&& r.y + r.h + 2 <= height
}

/// The elevation that placement gives a room: none when elevation is off,
/// else one within `[-m, m]`.
pub open spec fn elevation_ok(r: Room, elevation_bound: Option<i32>) -> bool {
    match elevation_bound {
        Some(m) => r.elevation matches Some(e) && -m <= e <= m,
        None => r.elevation is None,
    }
}

proof fn lemma_margin_symmetric(a: Room, b: Room)
    ensures
        overlaps_with_margin(a, b, 1) == overlaps_with_margin(b, a, 1),
{
}

proof fn lemma_in_some_room_push(rooms: Seq<Room>, r: Room)
    ensures
        forall|x: int, y: int|
            #[trigger] in_some_room(rooms.push(r), x, y) == (in_some_room(rooms, x, y) || in_room(r, x, y)),
{
    let p = rooms.push(r);
    assert forall|x: int, y: int|
        #[trigger] in_some_room(p, x, y) == (in_some_room(rooms, x, y) || in_room(r, x, y)) by {
        if in_some_room(p, x, y) {
            let i = choose|i: int| 0 <= i < p.len() && in_room(#[trigger] p[i], x, y);
            if i < rooms.len() {
                assert(rooms[i] == p[i]);
            }
        }
        if in_some_room(rooms, x, y) {
            let i = choose|i: int| 0 <= i < rooms.len() && in_room(#[trigger] rooms[i], x, y);
            assert(p[i] == rooms[i]);
        }
        if in_room(r, x, y) {
            assert(p[rooms.len() as int] == r);
        }
    }
}

/// Whether `candidate` comes within one tile of any of `rooms`.
fn touches_any(rooms: &Vec<Room>, candidate: &Room) -> (r: bool)
    ensures
        r == exists|i: int| 0 <= i < rooms@.len() && overlaps_with_margin(#[trigger] rooms@[i], *candidate, 1),
{
    let mut i: usize = 0;
    while i < rooms.len()
        invariant
            i <= rooms@.len(),
            forall|k: int| 0 <= k < i ==> !overlaps_with_margin(#[trigger] rooms@[k], *candidate, 1),
        decreases rooms@.len() - i,
    {
        if intersects_with_margin(&rooms[i], candidate, 1) {
            return true;
        }
        i += 1;
    }
    false
}

/// Place up to `target` rooms by rejection sampling and carve each into the grid.
///
/// The attempt budget is `max(10 * target, 100)`. Each attempt draws the sides
/// in `[min_room, max_room]`, skips sides that leave no room on the map, draws
/// a position leaving a one-tile margin to the border, draws an elevation when
/// `elevation_bound` is given, and keeps the candidate unless it comes within
/// one tile of a room already placed.
pub fn place_rooms(
    grid: &mut Vec<Vec<char>>,
    target: u32,
    width: u32,
    height: u32,
    min_room: u32,
    max_room: u32,
    elevation_bound: Option<i32>,
    rng: &mut StdRng,
) -> (rooms: Vec<Room>)
    requires
        10 <= width <= MAX_MAP_DIM,
        10 <= height <= MAX_MAP_DIM,
        1 <= min_room <= max_room <= MAX_MAP_DIM,
        target <= MAX_ROOM_TARGET,
        elevation_bound matches Some(m) ==> 0 <= m <= MAX_ELEVATION,
    ensures
        rooms@.len() <= target,
        forall|i: int| 0 <= i < rooms@.len() ==> room_fits(#[trigger] rooms@[i], width as int, height as int, min_room as int, max_room as int),
        forall|i: int| 0 <= i < rooms@.len() ==> elevation_ok(#[trigger] rooms@[i], elevation_bound),
        rooms_separated(rooms@),
        carved(old(grid)@, final(grid)@, |x: int, y: int| in_some_room(rooms@, x, y)),
        (target >= 1 && max_room + 4 < width && max_room + 4 < height) ==> rooms@.len() >= 1,
{
    let mut rooms: Vec<Room> = Vec::new();
    let attempts: u32 = if target * 10 >= 100 { target * 10 } else { 100 };
    let ghost g0 = grid@;
    proof {
        lemma_carved_same_region(g0, grid@, |x: int, y: int| false, |x: int, y: int| in_some_room(rooms@, x, y));
    }
    let mut a: u32 = 0;
    while a < attempts
        invariant
            10 <= width <= MAX_MAP_DIM,
            10 <= height <= MAX_MAP_DIM,
            1 <= min_room <= max_room <= MAX_MAP_DIM,
            elevation_bound matches Some(m) ==> 0 <= m <= MAX_ELEVATION,
            rooms@.len() <= target,
            forall|i: int| 0 <= i < rooms@.len() ==> room_fits(#[trigger] rooms@[i], width as int, height as int, min_room as int, max_room as int),
            forall|i: int| 0 <= i < rooms@.len() ==> elevation_ok(#[trigger] rooms@[i], elevation_bound),
            rooms_separated(rooms@),
            carved(g0, grid@, |x: int, y: int| in_some_room(rooms@, x, y)),
            attempts >= 1,
            (a >= 1 && target >= 1 && max_room + 4 < width && max_room + 4 < height) ==> rooms@.len() >= 1,
        ensures
            a >= 1,
        decreases attempts - a,
    {
        a += 1;
        if rooms.len() as u32 >= target {
            break;
        }
        let w = random_i32_inclusive(rng, min_room as i32, max_room as i32);
        let h = random_i32_inclusive(rng, min_room as i32, max_room as i32);
        if w >= width as i32 - 4 || h >= height as i32 - 4 {
            continue;
        }
        let x = random_i32_inclusive(rng, 1, width as i32 - w - 2);
        let y = random_i32_inclusive(rng, 1, height as i32 - h - 2);
        let elevation = match elevation_bound {
            Some(m) => Some(random_i32_inclusive(rng, -m, m)),
            None => None,
        };
        let candidate = Room { x, y, w, h, elevation };
        if touches_any(&rooms, &candidate) {
            continue;
        }
        let ghost before = grid@;
        let ghost old_rooms = rooms@;
        carve_room(grid, &candidate);
        rooms.push(candidate);
        proof {
            assert forall|i: int, j: int|
                0 <= i < rooms@.len() && 0 <= j < rooms@.len() && i != j implies !overlaps_with_margin(
                #[trigger] rooms@[i],
                #[trigger] rooms@[j],
                1,
            ) by {
                lemma_margin_symmetric(rooms@[i], rooms@[j]);
                if i < old_rooms.len() && j < old_rooms.len() {
                    assert(rooms@[i] == old_rooms[i] && rooms@[j] == old_rooms[j]);
                } else if i < old_rooms.len() {
                    assert(rooms@[i] == old_rooms[i]);
                } else {
                    assert(rooms@[j] == old_rooms[j]);
                }
            }
            assert forall|i: int| 0 <= i < rooms@.len() implies room_fits(#[trigger] rooms@[i], width as int, height as int, min_room as int, max_room as int) && elevation_ok(rooms@[i], elevation_bound) by {
                if i < old_rooms.len() {
                    assert(rooms@[i] == old_rooms[i]);
                }
            }
            lemma_carved_union(
                g0,
                before,
                grid@,
                |x: int, y: int| in_some_room(old_rooms, x, y),
                |x: int, y: int| in_room(candidate, x, y),
            );
            lemma_in_some_room_push(old_rooms, candidate);
            assert(rooms@ == old_rooms.push(candidate));
            lemma_carved_same_region(
                g0,
                grid@,
                |x: int, y: int| in_some_room(old_rooms, x, y) || in_room(candidate, x, y),
                |x: int, y: int| in_some_room(rooms@, x, y),
            );
        }
    }
    rooms
}

/// Rooms in non-decreasing order of the x coordinate of their centres.
pub open spec fn sorted_by_center_x(rooms: Seq<Room>) -> bool {
    forall|a: int, b: int| 0 <= a < b < rooms.len() ==> center_spec(#[trigger] rooms[a]).0 <= center_spec(#[trigger] rooms[b]).0
}

/// A room whose centre is computed without overflow.
pub open spec fn center_representable(r: Room) -> bool {
    &&& i32::MIN <= center_spec(r).0 <= i32::MAX
    &&& i32::MIN <= center_spec(r).1 <= i32::MAX
}

/// Whether `r` is one of `rooms`.
pub open spec fn is_one_of(r: Room, rooms: Seq<Room>) -> bool {
    exists|k: int| 0 <= k < rooms.len() && rooms[k] == r
}

/// `v` with the rooms at `a` and `b` exchanged.
pub open spec fn swapped(v: Seq<Room>, a: int, b: int) -> Seq<Room> {
    v.update(a, v[b]).update(b, v[a])
}

proof fn lemma_swap_keeps_rooms(v: Seq<Room>, a: int, b: int)
    requires
        0 <= a < v.len(),
        0 <= b < v.len(),
        a != b,
    ensures
        swapped(v, a, b).len() == v.len(),
        forall|i: int| 0 <= i < v.len() ==> #[trigger] is_one_of(swapped(v, a, b)[i], v),
        forall|x: int, y: int| #[trigger] in_some_room(swapped(v, a, b), x, y) == in_some_room(v, x, y),
        rooms_separated(v) ==> rooms_separated(swapped(v, a, b)),
{
    let w = swapped(v, a, b);
    let image = |i: int| if i == a { b } else if i == b { a } else { i };
    assert forall|i: int| 0 <= i < v.len() implies #[trigger] is_one_of(w[i], v) by {
        assert(w[i] == v[image(i)]);
    }
    assert forall|x: int, y: int| #[trigger] in_some_room(w, x, y) == in_some_room(v, x, y) by {
        if in_some_room(w, x, y) {
            let i = choose|i: int| 0 <= i < w.len() && in_room(#[trigger] w[i], x, y);
            assert(w[i] == v[image(i)]);
        }
        if in_some_room(v, x, y) {
            let i = choose|i: int| 0 <= i < v.len() && in_room(#[trigger] v[i], x, y);
            assert(w[image(i)] == v[i]);
        }
    }
    if rooms_separated(v) {
        assert forall|i: int, j: int| 0 <= i < w.len() && 0 <= j < w.len() && i != j implies !overlaps_with_margin(
            #[trigger] w[i],
            #[trigger] w[j],
            1,
        ) by {
            assert(w[i] == v[image(i)]);
            assert(w[j] == v[image(j)]);
        }
    }
}

/// Sort rooms by the x coordinate of their centres, keeping the order of rooms
/// with equal keys (a stable insertion sort).
/// `out` is `orig` reordered by `perm` (`out[a] == orig[perm[a]]`, each
/// position taken once), and rooms with equal centre x keep their order.
pub open spec fn stable_permutation(orig: Seq<Room>, out: Seq<Room>, perm: Seq<int>) -> bool {
    &&& perm.len() == orig.len()
    &&& out.len() == orig.len()
    &&& forall|a: int| 0 <= a < out.len() ==> 0 <= #[trigger] perm[a] < orig.len() && out[a] == orig[perm[a]]
    &&& forall|a: int, b: int| 0 <= a < b < out.len() ==> #[trigger] perm[a] != #[trigger] perm[b]
    &&& forall|a: int, b: int|
        0 <= a < b < out.len() && center_spec(#[trigger] out[a]).0 == center_spec(#[trigger] out[b]).0 ==> perm[a] < perm[b]
}

pub fn sort_rooms_by_center_x(rooms: &mut Vec<Room>)
    requires
        forall|i: int| 0 <= i < old(rooms)@.len() ==> center_representable(#[trigger] old(rooms)@[i]),
    ensures
        final(rooms)@.len() == old(rooms)@.len(),
        sorted_by_center_x(final(rooms)@),
        forall|i: int| 0 <= i < final(rooms)@.len() ==> #[trigger] is_one_of(final(rooms)@[i], old(rooms)@),
        forall|x: int, y: int| #[trigger] in_some_room(final(rooms)@, x, y) == in_some_room(old(rooms)@, x, y),
        rooms_separated(old(rooms)@) ==> rooms_separated(final(rooms)@),
        exists|perm: Seq<int>| #[trigger] stable_permutation(old(rooms)@, final(rooms)@, perm),
{
    let ghost orig = rooms@;
    let ghost mut perm: Seq<int> = Seq::new(orig.len(), |a: int| a);
    let n = rooms.len();
    if n == 0 {
        assert(stable_permutation(orig, rooms@, perm));
        return;
    }
    assert forall|a: int| 0 <= a < n implies #[trigger] is_one_of(rooms@[a], orig) by {
        assert(orig[a] == rooms@[a]);
    }
    let mut i: usize = 1;
    while i < n
        invariant
            1 <= i <= n,
            n == rooms@.len(),
            rooms@.len() == orig.len(),
            forall|k: int| 0 <= k < orig.len() ==> center_representable(#[trigger] orig[k]),
            forall|a: int| 0 <= a < n ==> #[trigger] is_one_of(rooms@[a], orig),
            forall|x: int, y: int| #[trigger] in_some_room(rooms@, x, y) == in_some_room(orig, x, y),
            rooms_separated(orig) ==> rooms_separated(rooms@),
            forall|a: int, b: int| 0 <= a < b < i ==> center_spec(#[trigger] rooms@[a]).0 <= center_spec(#[trigger] rooms@[b]).0,
            perm.len() == n,
            forall|a: int| 0 <= a < n ==> 0 <= #[trigger] perm[a] < n && rooms@[a] == orig[perm[a]],
            forall|a: int, b: int| 0 <= a < b < n ==> #[trigger] perm[a] != #[trigger] perm[b],
            forall|a: int| 0 <= a < i ==> #[trigger] perm[a] < i,
            forall|a: int| i <= a < n ==> #[trigger] perm[a] == a,
            forall|a: int, b: int|
                0 <= a < b < n && center_spec(#[trigger] rooms@[a]).0 == center_spec(#[trigger] rooms@[b]).0 ==> perm[a] < perm[b],
        decreases n - i,
    {
        let mut j: usize = i;
        loop
            invariant
                1 <= i < n,
                j <= i,
                n == rooms@.len(),
                rooms@.len() == orig.len(),
                forall|k: int| 0 <= k < orig.len() ==> center_representable(#[trigger] orig[k]),
                forall|a: int| 0 <= a < n ==> #[trigger] is_one_of(rooms@[a], orig),
                forall|x: int, y: int| #[trigger] in_some_room(rooms@, x, y) == in_some_room(orig, x, y),
                rooms_separated(orig) ==> rooms_separated(rooms@),
                forall|a: int, b: int| 0 <= a < b <= i && a != j && b != j ==> center_spec(#[trigger] rooms@[a]).0 <= center_spec(#[trigger] rooms@[b]).0,
                forall|b: int| j < b <= i ==> center_spec(rooms@[j as int]).0 < center_spec(#[trigger] rooms@[b]).0,
                perm.len() == n,
                forall|a: int| 0 <= a < n ==> 0 <= #[trigger] perm[a] < n && rooms@[a] == orig[perm[a]],
                forall|a: int, b: int| 0 <= a < b < n ==> #[trigger] perm[a] != #[trigger] perm[b],
                perm[j as int] == i,
                forall|a: int| 0 <= a <= i && a != j ==> #[trigger] perm[a] < i,
                forall|a: int| i < a < n ==> #[trigger] perm[a] == a,
                forall|a: int, b: int|
                    0 <= a < b < n && a != j && b != j && center_spec(#[trigger] rooms@[a]).0 == center_spec(#[trigger] rooms@[b]).0 ==> perm[a] < perm[b],
            ensures
                j == 0 || center_spec(rooms@[j - 1]).0 <= center_spec(rooms@[j as int]).0,
            decreases j,
        {
            if j == 0 {
                break;
            }
            proof {
                assert(is_one_of(rooms@[j - 1], orig));
                assert(is_one_of(rooms@[j as int], orig));
            }
            let left = rooms[j - 1].center().0;
            let here = rooms[j].center().0;
            if left <= here {
                break;
            }
            let ghost before = rooms@;
            let ghost pb = perm;
            let a = rooms[j - 1];
            let b = rooms[j];
            rooms.set(j - 1, b);
            rooms.set(j, a);
            proof {
                perm = pb.update(j - 1, pb[j as int]).update(j as int, pb[j - 1]);
                assert forall|p: int, q: int| 0 <= p < q < n implies #[trigger] perm[p] != #[trigger] perm[q] by {
                    let ip = if p == j - 1 { j as int } else if p == j { j - 1 } else { p };
                    let iq = if q == j - 1 { j as int } else if q == j { j - 1 } else { q };
                    assert(perm[p] == pb[ip] && perm[q] == pb[iq]);
                    if ip < iq {
                        assert(pb[ip] != pb[iq]);
                    } else {
                        assert(pb[iq] != pb[ip]);
                    }
                }
                assert forall|p: int, q: int|
                    0 <= p < q < n && p != j - 1 && q != j - 1 && center_spec(#[trigger] rooms@[p]).0 == center_spec(#[trigger] rooms@[q]).0 implies perm[p] < perm[q] by {
                    let ip = if p == j { j - 1 } else { p };
                    let iq = if q == j { j - 1 } else { q };
                    assert(rooms@[p] == before[ip] && rooms@[q] == before[iq]);
                    assert(perm[p] == pb[ip] && perm[q] == pb[iq]);
                    if p == j {
                        assert(center_spec(before[j as int]).0 < center_spec(before[q]).0 || q > i);
                    }
                }
                assert(rooms@ == swapped(before, j - 1, j as int));
                lemma_swap_keeps_rooms(before, j - 1, j as int);
                assert forall|p: int| 0 <= p < n implies #[trigger] is_one_of(rooms@[p], orig) by {
                    assert(is_one_of(rooms@[p], before));
                    let q = choose|q: int| 0 <= q < before.len() && before[q] == rooms@[p];
                    assert(is_one_of(before[q], orig));
                }
            }
            j -= 1;
        }
        proof {
            assert forall|a: int, b: int|
                0 <= a < b < n && center_spec(#[trigger] rooms@[a]).0 == center_spec(#[trigger] rooms@[b]).0 implies perm[a] < perm[b] by {
                if a == j {
                    if b <= i {
                        assert(center_spec(rooms@[j as int]).0 < center_spec(rooms@[b]).0);
                    }
                } else if b == j {
                    assert(perm[a] < i);
                }
            }
            assert forall|a: int| 0 <= a < i + 1 implies #[trigger] perm[a] < i + 1 by {}
            assert forall|a: int, b: int| 0 <= a < b < i + 1 implies center_spec(#[trigger] rooms@[a]).0 <= center_spec(#[trigger] rooms@[b]).0 by {
                if b == j && a + 1 < j {
                    assert(center_spec(rooms@[a]).0 <= center_spec(rooms@[j - 1]).0);
                }
            }
        }
        i += 1;
    }
    assert(stable_permutation(orig, rooms@, perm));
}

} // verus!
