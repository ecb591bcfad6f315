//! The wall/floor grid and the operations that carve floor into it.
//!
//! Every carving operation only ever turns cells into floor; its contract
//! names the exact set of cells it turns.
use vstd::prelude::*;

verus! {

/// Wall tile character.
pub const TILE_WALL: char = '#';

/// Floor tile character.
pub const TILE_FLOOR: char = '.';

/// Whether `(x, y)` names a cell of grid `g` (rows may differ in length).
pub open spec fn in_grid(g: Seq<Vec<char>>, x: int, y: int) -> bool {
    0 <= y < g.len() && 0 <= x < g[y]@.len()
}

/// Whether `(x, y)` is a floor cell of `g`; cells off the grid are not floor.
pub open spec fn is_floor_at(g: Seq<Vec<char>>, x: int, y: int) -> bool {
    in_grid(g, x, y) && g[y]@[x] == TILE_FLOOR
}

/// `new` is `old` with exactly the cells of `region` that lie on the grid turned to floor.
pub open spec fn carved(
    old: Seq<Vec<char>>,
    new: Seq<Vec<char>>,
    region: spec_fn(int, int) -> bool,
) -> bool {
    &&& new.len() == old.len()
    &&& forall|y: int| 0 <= y < old.len() ==> (#[trigger] new[y])@.len() == old[y]@.len()
    &&& forall|y: int, x: int|
        0 <= y < old.len() && 0 <= x < old[y]@.len() ==> (#[trigger] new[y]@[x]) == if region(
            x,
            y,
        ) {
            TILE_FLOOR
        } else {
            old[y]@[x]
        }
}

/// Carving in two steps carves the union of the two regions.
pub proof fn lemma_carved_union(
    a: Seq<Vec<char>>,
    b: Seq<Vec<char>>,
    c: Seq<Vec<char>>,
    r1: spec_fn(int, int) -> bool,
    r2: spec_fn(int, int) -> bool,
)
    requires
        carved(a, b, r1),
        carved(b, c, r2),
    ensures
        carved(a, c, |x: int, y: int| r1(x, y) || r2(x, y)),
{
    assert forall|y: int, x: int| 0 <= y < a.len() && 0 <= x < a[y]@.len() implies (
    #[trigger] c[y]@[x]) == if r1(x, y) || r2(x, y) {
        TILE_FLOOR
    } else {
        a[y]@[x]
    } by {
        assert(b[y]@.len() == a[y]@.len());
    }
}

/// A carving may be described by any region with the same cells.
pub proof fn lemma_carved_same_region(
    a: Seq<Vec<char>>,
    b: Seq<Vec<char>>,
    r1: spec_fn(int, int) -> bool,
    r2: spec_fn(int, int) -> bool,
)
    requires
        carved(a, b, r1),
        forall|x: int, y: int| #[trigger] r1(x, y) == r2(x, y),
    ensures
        carved(a, b, r2),
{
}

/// Turn the cell `(x, y)` to floor if it lies on the grid.
pub fn set_floor(grid: &mut Vec<Vec<char>>, x: i64, y: i64)
    ensures
        carved(old(grid)@, final(grid)@, |cx: int, cy: int| cx == x && cy == y),
{
    if 0 <= y && (y as u64) < (grid.len() as u64) {
        let yu = y as usize;
        if 0 <= x && (x as u64) < (grid[yu].len() as u64) {
            let xu = x as usize;
            grid[yu][xu] = TILE_FLOOR;
            assert(grid@[y as int]@ == old(grid)@[y as int]@.update(x as int, TILE_FLOOR));
        }
    }
    assert forall|cy: int, cx: int|
        0 <= cy < old(grid)@.len() && 0 <= cx < old(grid)@[cy]@.len() implies (
    #[trigger] grid@[cy]@[cx]) == if cx == x && cy == y {
        TILE_FLOOR
    } else {
        old(grid)@[cy]@[cx]
    } by {
        if cy != y {
            assert(grid@[cy] == old(grid)@[cy]);
        }
    }
}

/// Whether `x` lies between `a` and `b`, both included, in either order.
pub open spec fn between(a: int, b: int, x: int) -> bool {
    if a <= b {
        a <= x <= b
    } else {
        b <= x <= a
    }
}

/// Turn to floor the cells of row `y` from column `xa` to `xb` (none if `xa > xb`).
fn carve_row(grid: &mut Vec<Vec<char>>, xa: i64, xb: i64, y: i64)
    requires
        xb < i64::MAX,
    ensures
        carved(old(grid)@, final(grid)@, |cx: int, cy: int| cy == y && xa <= cx <= xb),
{
    let ghost g0 = grid@;
    let mut x: i64 = xa;
    proof {
        lemma_carved_same_region(g0, grid@, |cx: int, cy: int| false, |cx: int, cy: int| cy == y && xa <= cx < x);
    }
    while x <= xb
        invariant
            xa <= x,
            x <= xb + 1 || x == xa,
            xb < i64::MAX,
            carved(g0, grid@, |cx: int, cy: int| cy == y && xa <= cx < x),
        decreases xb + 1 - x,
    {
        let ghost before = grid@;
        set_floor(grid, x, y);
        proof {
            lemma_carved_union(
                g0,
                before,
                grid@,
                |cx: int, cy: int| cy == y && xa <= cx < x,
                |cx: int, cy: int| cx == x && cy == y,
            );
            lemma_carved_same_region(
                g0,
                grid@,
                |cx: int, cy: int| (cy == y && xa <= cx < x) || (cx == x && cy == y),
                |cx: int, cy: int| cy == y && xa <= cx < x + 1,
            );
        }
        x += 1;
    }
    proof {
        lemma_carved_same_region(
            g0,
            grid@,
            |cx: int, cy: int| cy == y && xa <= cx < x,
            |cx: int, cy: int| cy == y && xa <= cx <= xb,
        );
    }
}

/// Turn to floor the rectangle of columns `xa..=xb` and rows `ya..=yb`.
pub fn carve_rect(grid: &mut Vec<Vec<char>>, xa: i64, xb: i64, ya: i64, yb: i64)
    requires
        xb < i64::MAX,
        yb < i64::MAX,
    ensures
        carved(
            old(grid)@,
            final(grid)@,
            |cx: int, cy: int| xa <= cx <= xb && ya <= cy <= yb,
        ),
{
    let ghost g0 = grid@;
    let mut y: i64 = ya;
    proof {
        lemma_carved_same_region(g0, grid@, |cx: int, cy: int| false, |cx: int, cy: int| xa <= cx <= xb && ya <= cy < y);
    }
    while y <= yb
        invariant
            ya <= y,
            y <= yb + 1 || y == ya,
            xb < i64::MAX,
            yb < i64::MAX,
            carved(g0, grid@, |cx: int, cy: int| xa <= cx <= xb && ya <= cy < y),
        decreases yb + 1 - y,
    {
        let ghost before = grid@;
        carve_row(grid, xa, xb, y);
        proof {
            lemma_carved_union(
                g0,
                before,
                grid@,
                |cx: int, cy: int| xa <= cx <= xb && ya <= cy < y,
                |cx: int, cy: int| cy == y && xa <= cx <= xb,
            );
            lemma_carved_same_region(
                g0,
                grid@,
                |cx: int, cy: int| (xa <= cx <= xb && ya <= cy < y) || (cy == y && xa <= cx <= xb),
                |cx: int, cy: int| xa <= cx <= xb && ya <= cy < y + 1,
            );
        }
        y += 1;
    }
    proof {
        lemma_carved_same_region(
            g0,
            grid@,
            |cx: int, cy: int| xa <= cx <= xb && ya <= cy < y,
            |cx: int, cy: int| xa <= cx <= xb && ya <= cy <= yb,
        );
    }
}

/// Turn to floor every cell of row `y` from column `x1` to `x2`, in either order.
pub fn carve_horizontal_tunnel(grid: &mut Vec<Vec<char>>, x1: i32, x2: i32, y: i32)
    ensures
        carved(old(grid)@, final(grid)@, |cx: int, cy: int| cy == y && between(x1 as int, x2 as int, cx)),
{
    let (start, end) = if x1 <= x2 { (x1, x2) } else { (x2, x1) };
    carve_row(grid, start as i64, end as i64, y as i64);
    proof {
        lemma_carved_same_region(
            old(grid)@,
            grid@,
            |cx: int, cy: int| cy == y && start <= cx <= end,
            |cx: int, cy: int| cy == y && between(x1 as int, x2 as int, cx),
        );
    }
}

/// Turn to floor every cell of column `x` from row `y1` to `y2`, in either order.
pub fn carve_vertical_tunnel(grid: &mut Vec<Vec<char>>, y1: i32, y2: i32, x: i32)
    ensures
        carved(old(grid)@, final(grid)@, |cx: int, cy: int| cx == x && between(y1 as int, y2 as int, cy)),
{
    let (start, end) = if y1 <= y2 { (y1, y2) } else { (y2, y1) };
    carve_rect(grid, x as i64, x as i64, start as i64, end as i64);
    proof {
        lemma_carved_same_region(
            old(grid)@,
            grid@,
            |cx: int, cy: int| x <= cx <= x && start <= cy <= end,
            |cx: int, cy: int| cx == x && between(y1 as int, y2 as int, cy),
        );
    }
}

/// Half the width of a channel, rounded towards zero as integer division does.
pub open spec fn half_width(w: i32) -> int {
    if w >= 0 { w / 2 } else { -((-w) / 2) }
}

/// The cells of a horizontal channel: columns between `x1` and `x2`, rows within
/// half the channel width of `y`.
pub open spec fn in_wide_horizontal(x1: int, x2: int, y: int, w: i32, cx: int, cy: int) -> bool {
    between(x1, x2, cx) && y - half_width(w) <= cy <= y - half_width(w) + w - 1
}

/// The cells of a vertical channel: rows between `y1` and `y2`, columns within
/// half the channel width of `x`.
pub open spec fn in_wide_vertical(y1: int, y2: int, x: int, w: i32, cx: int, cy: int) -> bool {
    between(y1, y2, cy) && x - half_width(w) <= cx <= x - half_width(w) + w - 1
}

/// Carve a horizontal channel `width_tiles` rows wide, centred on row `y`
/// (rows `y - width_tiles / 2` onwards).
pub fn carve_wide_horizontal(grid: &mut Vec<Vec<char>>, x1: i32, x2: i32, y: i32, width_tiles: i32)
    ensures
        carved(
            old(grid)@,
            final(grid)@,
            |cx: int, cy: int| in_wide_horizontal(x1 as int, x2 as int, y as int, width_tiles, cx, cy),
        ),
{
    let (start, end) = if x1 <= x2 { (x1, x2) } else { (x2, x1) };
    let half = width_tiles / 2;
    assert(half as int == half_width(width_tiles));
    carve_rect(grid, start as i64, end as i64, y as i64 - half as i64, y as i64 - half as i64 + width_tiles as i64 - 1);
    proof {
        lemma_carved_same_region(
            old(grid)@,
            grid@,
            |cx: int, cy: int| start <= cx <= end && y - half <= cy <= y - half + width_tiles - 1,
            |cx: int, cy: int| in_wide_horizontal(x1 as int, x2 as int, y as int, width_tiles, cx, cy),
        );
    }
}

/// Carve a vertical channel `width_tiles` columns wide, centred on column `x`
/// (columns `x - width_tiles / 2` onwards).
pub fn carve_wide_vertical(grid: &mut Vec<Vec<char>>, y1: i32, y2: i32, x: i32, width_tiles: i32)
    ensures
        carved(
            old(grid)@,
            final(grid)@,
            |cx: int, cy: int| in_wide_vertical(y1 as int, y2 as int, x as int, width_tiles, cx, cy),
        ),
{
    let (start, end) = if y1 <= y2 { (y1, y2) } else { (y2, y1) };
    let half = width_tiles / 2;
    assert(half as int == half_width(width_tiles));
    carve_rect(grid, x as i64 - half as i64, x as i64 - half as i64 + width_tiles as i64 - 1, start as i64, end as i64);
    proof {
        lemma_carved_same_region(
            old(grid)@,
            grid@,
            |cx: int, cy: int| x - half <= cx <= x - half + width_tiles - 1 && start <= cy <= end,
            |cx: int, cy: int| in_wide_vertical(y1 as int, y2 as int, x as int, width_tiles, cx, cy),
        );
    }
}

/// The four quarters of a disk, by the side of its centre that they lie on.
#[derive(Debug, Clone, Copy, PartialEq, Eq, Structural)]
pub enum Quadrant {
    Up,
    Down,
    Left,
    Right,
}

/// Largest radius or channel width that the disk arithmetic is carried out for.
pub const MAX_DISK_EXTENT: i32 = 0x10_0000;

/// The bounding box of the quarter `quad` of a disk of radius `outer`, as offsets from its centre.
pub open spec fn quarter_box(quad: Quadrant, outer: int, dx: int, dy: int) -> bool {
    match quad {
        Quadrant::Down => 0 <= dy <= outer && -outer <= dx <= outer,
        Quadrant::Up => -outer <= dy <= 0 && -outer <= dx <= outer,
        Quadrant::Right => 0 <= dx <= outer && -outer <= dy <= outer,
        Quadrant::Left => -outer <= dx <= 0 && -outer <= dy <= outer,
    }
}

/// Inner radius of the ring that rounds a corner of a channel of width `w`:
/// the outer radius less half the channel width (at least 0).
pub open spec fn ring_inner(radius: int, w: i32) -> int {
    if radius - half_width(w) > 0 { radius - half_width(w) } else { 0 }
}

/// Outer radius of the ring that rounds a corner: the radius itself.
pub open spec fn ring_outer(radius: int, w: i32) -> int {
    radius
}

/// The cells of the quarter ring centred on `(cx, cy)`: in the quarter's box,
/// at a squared distance from the centre between the squared inner and outer radii.
pub open spec fn in_quarter_disk(
    cx: int,
    cy: int,
    radius: int,
    w: i32,
    quad: Quadrant,
    x: int,
    y: int,
) -> bool {
    let inner = ring_inner(radius, w);
    let outer = ring_outer(radius, w);
    let dx = x - cx;
    let dy = y - cy;
    &&& radius > 0
    &&& quarter_box(quad, outer, dx, dy)
    &&& inner * inner <= dx * dx + dy * dy <= outer * outer
}

/// The cells of row `cy + dy` whose offset `dx` lies in `dx_lo..=dx_hi` and that lie on the ring.
pub open spec fn ring_row_cell(
    cx: int,
    cy: int,
    dy: int,
    dx_lo: int,
    dx_hi: int,
    inner: int,
    outer: int,
    x: int,
    y: int,
) -> bool {
    &&& y == cy + dy
    &&& dx_lo <= x - cx <= dx_hi
    &&& inner * inner <= (x - cx) * (x - cx) + dy * dy <= outer * outer
}

proof fn lemma_square_bound(a: int, b: int)
    requires
        -b <= a <= b,
    ensures
        0 <= a * a <= b * b,
{
    assert(0 <= a * a <= b * b) by (nonlinear_arith)
        requires
            -b <= a <= b,
    ;
}

/// Carve the cells of one row of a ring.
fn carve_ring_row(
    grid: &mut Vec<Vec<char>>,
    cx: i64,
    cy: i64,
    dy: i64,
    dx_lo: i64,
    dx_hi: i64,
    inner: i64,
    outer: i64,
)
    requires
        0 <= inner <= outer <= 0x40_0000,
        -outer <= dx_lo,
        dx_hi <= outer,
        -outer <= dy <= outer,
        -0x1_0000_0000 <= cx <= 0x1_0000_0000,
        -0x1_0000_0000 <= cy <= 0x1_0000_0000,
    ensures
        carved(
            old(grid)@,
            final(grid)@,
            |x: int, y: int| ring_row_cell(cx as int, cy as int, dy as int, dx_lo as int, dx_hi as int, inner as int, outer as int, x, y),
        ),
{
    let ghost g0 = grid@;
    let ghost done = |x: int, y: int, upto: int|
        ring_row_cell(cx as int, cy as int, dy as int, dx_lo as int, upto - 1, inner as int, outer as int, x, y);
    let mut dx: i64 = dx_lo;
    proof {
        lemma_carved_same_region(g0, grid@, |x: int, y: int| false, |x: int, y: int| done(x, y, dx as int));
        lemma_square_bound(dy as int, outer as int);
        lemma_square_bound(inner as int, outer as int);
    }
    while dx <= dx_hi
        invariant
            dx_lo <= dx,
            dx <= dx_hi + 1 || dx == dx_lo,
            0 <= inner <= outer <= 0x40_0000,
            -outer <= dx_lo,
            dx_hi <= outer,
            -outer <= dy <= outer,
            0 <= dy * dy <= outer * outer,
            0 <= inner * inner <= outer * outer,
            -0x1_0000_0000 <= cx <= 0x1_0000_0000,
            -0x1_0000_0000 <= cy <= 0x1_0000_0000,
            done == (|x: int, y: int, upto: int|
                ring_row_cell(cx as int, cy as int, dy as int, dx_lo as int, upto - 1, inner as int, outer as int, x, y)),
            carved(g0, grid@, |x: int, y: int| done(x, y, dx as int)),
        decreases dx_hi + 1 - dx,
    {
        proof {
            lemma_square_bound(dx as int, outer as int);
            assert(outer * outer <= 0x40_0000 * 0x40_0000) by (nonlinear_arith)
                requires 0 <= outer <= 0x40_0000;
        }
        let d2 = dx * dx + dy * dy;
        let ghost before = grid@;
        if d2 <= outer * outer && d2 >= inner * inner {
            set_floor(grid, cx + dx, cy + dy);
            proof {
                lemma_carved_union(
                    g0,
                    before,
                    grid@,
                    |x: int, y: int| done(x, y, dx as int),
                    |x: int, y: int| x == cx + dx && y == cy + dy,
                );
                lemma_carved_same_region(
                    g0,
                    grid@,
                    |x: int, y: int| done(x, y, dx as int) || (x == cx + dx && y == cy + dy),
                    |x: int, y: int| done(x, y, dx + 1),
                );
            }
        } else {
            proof {
                lemma_carved_same_region(
                    g0,
                    grid@,
                    |x: int, y: int| done(x, y, dx as int),
                    |x: int, y: int| done(x, y, dx + 1),
                );
            }
        }
        dx += 1;
    }
    proof {
        lemma_carved_same_region(
            g0,
            grid@,
            |x: int, y: int| done(x, y, dx as int),
            |x: int, y: int| ring_row_cell(cx as int, cy as int, dy as int, dx_lo as int, dx_hi as int, inner as int, outer as int, x, y),
        );
    }
}

/// Carve the quarter ring that rounds a corner at `(cx, cy)`: outer radius
/// `radius`, inner radius `radius` less half the channel width (at least 0).
pub fn carve_quarter_disk(
    grid: &mut Vec<Vec<char>>,
    cx: i32,
    cy: i32,
    radius: i32,
    width_tiles: i32,
    quad: Quadrant,
)
    requires
        radius <= MAX_DISK_EXTENT,
        -MAX_DISK_EXTENT <= width_tiles <= MAX_DISK_EXTENT,
    ensures
        carved(
            old(grid)@,
            final(grid)@,
            |x: int, y: int| in_quarter_disk(cx as int, cy as int, radius as int, width_tiles, quad, x, y),
        ),
{
    if radius <= 0 {
        proof {
            lemma_carved_same_region(
                old(grid)@,
                grid@,
                |x: int, y: int| false,
                |x: int, y: int| in_quarter_disk(cx as int, cy as int, radius as int, width_tiles, quad, x, y),
            );
        }
        return;
    }
    let half = width_tiles / 2;
    let inner: i64 = if radius - half > 0 { (radius - half) as i64 } else { 0 };
    let outer: i64 = radius as i64;
    assert(half as int == half_width(width_tiles));
    if inner > outer {
        proof {
            assert forall|x: int, y: int| !#[trigger] in_quarter_disk(cx as int, cy as int, radius as int, width_tiles, quad, x, y) by {
                let dx = x - cx;
                let dy = y - cy;
                if dx * dx + dy * dy <= outer * outer {
                    assert(inner * inner > outer * outer) by (nonlinear_arith)
                        requires
                            inner > outer,
                            outer > 0,
                    ;
                }
            }
            lemma_carved_same_region(
                old(grid)@,
                grid@,
                |x: int, y: int| false,
                |x: int, y: int| in_quarter_disk(cx as int, cy as int, radius as int, width_tiles, quad, x, y),
            );
        }
        return;
    }
    let (dx_lo, dx_hi, dy_lo, dy_hi) = match quad {
        Quadrant::Down => (-outer, outer, 0, outer),
        Quadrant::Up => (-outer, outer, -outer, 0),
        Quadrant::Right => (0, outer, -outer, outer),
        Quadrant::Left => (-outer, 0, -outer, outer),
    };
    let ghost g0 = grid@;
    let ghost done = |x: int, y: int, upto: int|
        dy_lo <= y - cy < upto && ring_row_cell(cx as int, cy as int, y - cy, dx_lo as int, dx_hi as int, inner as int, outer as int, x, y);
    let mut dy: i64 = dy_lo;
    proof {
        lemma_carved_same_region(g0, grid@, |x: int, y: int| false, |x: int, y: int| done(x, y, dy as int));
    }
    while dy <= dy_hi
        invariant
            dy_lo <= dy <= dy_hi + 1,
            -outer <= dy_lo,
            dy_hi <= outer,
            -outer <= dx_lo,
            dx_hi <= outer,
            0 <= inner <= outer <= 0x40_0000,
            done == (|x: int, y: int, upto: int|
                dy_lo <= y - cy < upto && ring_row_cell(cx as int, cy as int, y - cy, dx_lo as int, dx_hi as int, inner as int, outer as int, x, y)),
            carved(g0, grid@, |x: int, y: int| done(x, y, dy as int)),
        decreases dy_hi + 1 - dy,
    {
        let ghost before = grid@;
        carve_ring_row(grid, cx as i64, cy as i64, dy, dx_lo, dx_hi, inner, outer);
        proof {
            lemma_carved_union(
                g0,
                before,
                grid@,
                |x: int, y: int| done(x, y, dy as int),
                |x: int, y: int| ring_row_cell(cx as int, cy as int, dy as int, dx_lo as int, dx_hi as int, inner as int, outer as int, x, y),
            );
            lemma_carved_same_region(
                g0,
                grid@,
                |x: int, y: int| done(x, y, dy as int) || ring_row_cell(cx as int, cy as int, dy as int, dx_lo as int, dx_hi as int, inner as int, outer as int, x, y),
                |x: int, y: int| done(x, y, dy + 1),
            );
        }
        dy += 1;
    }
    proof {
        assert(half as int == half_width(width_tiles));
        assert(inner == ring_inner(radius as int, width_tiles));
        assert(outer == ring_outer(radius as int, width_tiles));
        lemma_carved_same_region(
            g0,
            grid@,
            |x: int, y: int| done(x, y, dy as int),
            |x: int, y: int| in_quarter_disk(cx as int, cy as int, radius as int, width_tiles, quad, x, y),
        );
    }
}

/// Carve a horizontal channel from `x1` to `x2` along row `y`, and round the
/// corner at `(x2, y)` with a quarter ring of outer radius
/// `max(radius, width_tiles / 2)` below it (`turn_down`) or above it.
pub fn carve_wide_horizontal_with_rounded_turn(
    grid: &mut Vec<Vec<char>>,
    x1: i32,
    x2: i32,
    y: i32,
    width_tiles: i32,
    radius: i32,
    turn_down: bool,
)
    requires
        radius <= MAX_DISK_EXTENT,
        -MAX_DISK_EXTENT <= width_tiles <= MAX_DISK_EXTENT,
    ensures
        carved(
            old(grid)@,
            final(grid)@,
            |cx: int, cy: int|
                in_wide_horizontal(x1 as int, x2 as int, y as int, width_tiles, cx, cy)
                    || in_quarter_disk(
                    x2 as int,
                    y as int,
                    if radius >= half_width(width_tiles) { radius as int } else { half_width(width_tiles) },
                    width_tiles,
                    if turn_down { Quadrant::Down } else { Quadrant::Up },
                    cx,
                    cy,
                ),
        ),
{
    carve_wide_horizontal(grid, x1, x2, y, width_tiles);
    let ghost mid = grid@;
    let half = width_tiles / 2;
    let r = if radius >= half { radius } else { half };
    carve_quarter_disk(grid, x2, y, r, width_tiles, if turn_down { Quadrant::Down } else { Quadrant::Up });
    proof {
        lemma_carved_union(
            old(grid)@,
            mid,
            grid@,
            |cx: int, cy: int| in_wide_horizontal(x1 as int, x2 as int, y as int, width_tiles, cx, cy),
            |cx: int, cy: int| in_quarter_disk(x2 as int, y as int, r as int, width_tiles, if turn_down { Quadrant::Down } else { Quadrant::Up }, cx, cy),
        );
    }
}

/// Carve a vertical channel from `y1` to `y2` along column `x`, and round the
/// corner at `(x, y2)` with a quarter ring of outer radius
/// `max(radius, width_tiles / 2)` to its right (`turn_right`) or left.
pub fn carve_wide_vertical_with_rounded_turn(
    grid: &mut Vec<Vec<char>>,
    y1: i32,
    y2: i32,
    x: i32,
    width_tiles: i32,
    radius: i32,
    turn_right: bool,
)
    requires
        radius <= MAX_DISK_EXTENT,
        -MAX_DISK_EXTENT <= width_tiles <= MAX_DISK_EXTENT,
    ensures
        carved(
            old(grid)@,
            final(grid)@,
            |cx: int, cy: int|
                in_wide_vertical(y1 as int, y2 as int, x as int, width_tiles, cx, cy)
                    || in_quarter_disk(
                    x as int,
                    y2 as int,
                    if radius >= half_width(width_tiles) { radius as int } else { half_width(width_tiles) },
                    width_tiles,
                    if turn_right { Quadrant::Right } else { Quadrant::Left },
                    cx,
                    cy,
                ),
        ),
{
    carve_wide_vertical(grid, y1, y2, x, width_tiles);
    let ghost mid = grid@;
    let half = width_tiles / 2;
    let r = if radius >= half { radius } else { half };
    carve_quarter_disk(grid, x, y2, r, width_tiles, if turn_right { Quadrant::Right } else { Quadrant::Left });
    proof {
        lemma_carved_union(
            old(grid)@,
            mid,
            grid@,
            |cx: int, cy: int| in_wide_vertical(y1 as int, y2 as int, x as int, width_tiles, cx, cy),
            |cx: int, cy: int| in_quarter_disk(x as int, y2 as int, r as int, width_tiles, if turn_right { Quadrant::Right } else { Quadrant::Left }, cx, cy),
        );
    }
}

} // verus!
