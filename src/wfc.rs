//! Maze generation by wave function collapse over a fixed set of twelve
//! box-drawing tiles whose sides either connect or do not.
//!
//! Every cell keeps a bitmask of the tiles still possible there. The solver
//! repeatedly collapses the least-undecided cell to a random candidate and
//! narrows its neighbours until nothing changes; an attempt that empties a
//! domain is abandoned and the solver starts over, at most ten times, after
//! which it returns a blank grid.
use crate::rng::random_index;
use crate::text::chars_to_string;
use rand::rngs::StdRng;
use std::collections::VecDeque;
use vstd::prelude::*;

verus! {

/// Number of tiles in the tileset.
pub const WFC_TILE_COUNT: usize = 12;

/// Number of independent attempts before falling back to a blank grid.
pub const WFC_MAX_ATTEMPTS: u32 = 10;

/// A maze tile: its symbol and, for each side (up, right, down, left),
/// whether a path leaves through it.
#[derive(Debug, Clone, Copy)]
pub struct WfcTile {
    pub ch: char,
    pub edges: [bool; 4],
}

/// The symbol of tile `t` of the tileset.
pub open spec fn symbol_spec(t: int) -> char {
    if t == 0 {
        ' '
    } else if t == 1 {
        '─'
    } else if t == 2 {
        '│'
    } else if t == 3 {
        '┌'
    } else if t == 4 {
        '┐'
    } else if t == 5 {
        '└'
    } else if t == 6 {
        '┘'
    } else if t == 7 {
        '├'
    } else if t == 8 {
        '┤'
    } else if t == 9 {
        '┬'
    } else if t == 10 {
        '┴'
    } else {
        '┼'
    }
}

/// The sides (up, right, down, left) through which tile `t` connects.
pub open spec fn edges_spec(t: int) -> Seq<bool> {
    if t == 0 {
        seq![false, false, false, false]
    } else if t == 1 {
        seq![false, true, false, true]
    } else if t == 2 {
        seq![true, false, true, false]
    } else if t == 3 {
        seq![false, true, true, false]
    } else if t == 4 {
        seq![false, false, true, true]
    } else if t == 5 {
        seq![true, true, false, false]
    } else if t == 6 {
        seq![true, false, false, true]
    } else if t == 7 {
        seq![true, true, true, false]
    } else if t == 8 {
        seq![true, false, true, true]
    } else if t == 9 {
        seq![false, true, true, true]
    } else if t == 10 {
        seq![true, true, false, true]
    } else {
        seq![true, true, true, true]
    }
}

/// The index of the tile whose symbol is `c`, or the tile count if none is.
pub open spec fn symbol_index(c: char) -> int {
    if c == ' ' {
        0
    } else if c == '─' {
        1
    } else if c == '│' {
        2
    } else if c == '┌' {
        3
    } else if c == '┐' {
        4
    } else if c == '└' {
        5
    } else if c == '┘' {
        6
    } else if c == '├' {
        7
    } else if c == '┤' {
        8
    } else if c == '┬' {
        9
    } else if c == '┴' {
        10
    } else if c == '┼' {
        11
    } else {
        12
    }
}

/// Whether the tile drawn as `c` connects through side `d` (0 up, 1 right, 2 down, 3 left).
pub open spec fn char_edge(c: char, d: int) -> bool {
    symbol_index(c) < 12 && edges_spec(symbol_index(c))[d]
}

/// Whether the cell `(x, y)` of `rows` meets each of its neighbours edge to edge,
/// and connects through no side that faces off the grid.
pub open spec fn cell_fits(rows: Seq<Seq<char>>, w: int, h: int, x: int, y: int) -> bool {
    let c = rows[y][x];
    &&& symbol_index(c) < 12
    &&& if y == 0 {
        !char_edge(c, 0)
    } else {
        char_edge(c, 0) == char_edge(rows[y - 1][x], 2)
    }
    &&& if x + 1 == w {
        !char_edge(c, 1)
    } else {
        char_edge(c, 1) == char_edge(rows[y][x + 1], 3)
    }
    &&& if y + 1 == h {
        !char_edge(c, 2)
    } else {
        char_edge(c, 2) == char_edge(rows[y + 1][x], 0)
    }
    &&& if x == 0 {
        !char_edge(c, 3)
    } else {
        char_edge(c, 3) == char_edge(rows[y][x - 1], 1)
    }
}

/// A `w` by `h` grid of tileset symbols in which every cell fits its neighbours.
pub open spec fn maze_valid(rows: Seq<Seq<char>>, w: int, h: int) -> bool {
    &&& rows.len() == h
    &&& forall|y: int| 0 <= y < h ==> (#[trigger] rows[y]).len() == w
    &&& forall|y: int, x: int| 0 <= y < h && 0 <= x < w ==> #[trigger] cell_fits(rows, w, h, x, y)
}

/// The characters of each row.
pub open spec fn rows_view(rows: Seq<String>) -> Seq<Seq<char>> {
    rows.map_values(|r: String| r@)
}

/// The fixed tileset: blank, two straights, four corners, four tees and a cross.
pub fn wfc_tileset() -> (r: Vec<WfcTile>)
    ensures
        r@.len() == WFC_TILE_COUNT,
        forall|t: int| 0 <= t < 12 ==> (#[trigger] r@[t]).ch == symbol_spec(t) && r@[t].edges@ == edges_spec(t),
{
    let r = vec![
        WfcTile { ch: ' ', edges: [false, false, false, false] },
        WfcTile { ch: '─', edges: [false, true, false, true] },
        WfcTile { ch: '│', edges: [true, false, true, false] },
        WfcTile { ch: '┌', edges: [false, true, true, false] },
        WfcTile { ch: '┐', edges: [false, false, true, true] },
        WfcTile { ch: '└', edges: [true, true, false, false] },
        WfcTile { ch: '┘', edges: [true, false, false, true] },
        WfcTile { ch: '├', edges: [true, true, true, false] },
        WfcTile { ch: '┤', edges: [true, false, true, true] },
        WfcTile { ch: '┬', edges: [false, true, true, true] },
        WfcTile { ch: '┴', edges: [true, true, false, true] },
        WfcTile { ch: '┼', edges: [true, true, true, true] },
    ];
    assert forall|t: int| 0 <= t < 12 implies (#[trigger] r@[t]).ch == symbol_spec(t) && r@[t].edges@ == edges_spec(t) by {
        assert(r@[t].edges@ =~= edges_spec(t));
    }
    r
}

/// The side facing side `dir`.
pub fn opposite(dir: usize) -> (r: usize)
    ensures
        r == (dir as int + 2) % 4,
{
    ((dir % 4) + 2) % 4
}

/// Bit `i` of `d`, as 0 or 1.
pub open spec fn bit_of(d: u32, i: int) -> u32 {
    (d >> (i as u32)) & 1u32
}

/// Number of set bits of `d` among its `k` lowest.
pub open spec fn count_low_bits(d: u32, k: nat) -> nat
    decreases k,
{
    if k == 0 {
        0
    } else {
        count_low_bits(d, (k - 1) as nat) + bit_of(d, k - 1) as nat
    }
}

/// Number of set bits of `d`: the number of tiles still possible in a domain.
pub open spec fn bit_count(d: u32) -> nat {
    count_low_bits(d, 32)
}

/// Sum of the domain masks: it shrinks as the solver narrows domains.
pub open spec fn mask_sum(s: Seq<u32>) -> int
    decreases s.len(),
{
    if s.len() == 0 {
        0
    } else {
        mask_sum(s.drop_last()) + s.last()
    }
}

proof fn lemma_mask_sum_update(s: Seq<u32>, i: int, v: u32)
    requires
        0 <= i < s.len(),
    ensures
        mask_sum(s.update(i, v)) == mask_sum(s) - s[i] + v,
    decreases s.len(),
{
    let t = s.update(i, v);
    if i == s.len() - 1 {
        assert(t.drop_last() =~= s.drop_last());
    } else {
        lemma_mask_sum_update(s.drop_last(), i, v);
        assert(t.drop_last() =~= s.drop_last().update(i, v));
    }
}

proof fn lemma_mask_sum_nonneg(s: Seq<u32>)
    ensures
        mask_sum(s) >= 0,
    decreases s.len(),
{
    if s.len() > 0 {
        lemma_mask_sum_nonneg(s.drop_last());
    }
}

proof fn lemma_and_not_above(a: u32, b: u32)
    ensures
        a & b <= a,
{
    assert(a & b <= a) by (bit_vector);
}

proof fn lemma_single_bit_below(d: u32, c: u32)
    requires
        c < 32,
        d & (1u32 << c) != 0,
        d != (1u32 << c),
    ensures
        (1u32 << c) < d,
{
    assert((c < 32 && d & (1u32 << c) != 0 && d != (1u32 << c)) ==> (1u32 << c) < d) by (bit_vector);
}

proof fn lemma_bit_of_single(c: u32, k: u32)
    requires
        c < 32,
        k < 32,
    ensures
        ((1u32 << c) >> k) & 1u32 == if k == c { 1u32 } else { 0u32 },
{
    assert((c < 32 && k < 32) ==> ((1u32 << c) >> k) & 1u32 == if k == c { 1u32 } else { 0u32 }) by (bit_vector);
}

proof fn lemma_count_single(c: u32, k: nat)
    requires
        c < 32,
        k <= 32,
    ensures
        count_low_bits(1u32 << c, k) == if (c as int) < k { 1nat } else { 0nat },
    decreases k,
{
    if k > 0 {
        lemma_count_single(c, (k - 1) as nat);
        lemma_bit_of_single(c, (k - 1) as u32);
    }
}

/// Every domain holds only tiles of the tileset (bits 0 to 11).
pub open spec fn within_tileset(domains: Seq<u32>) -> bool {
    forall|i: int| 0 <= i < domains.len() ==> #[trigger] domains[i] <= 0xFFF
}

proof fn lemma_count_zero(k: nat)
    requires
        k <= 32,
    ensures
        count_low_bits(0u32, k) == 0,
    decreases k,
{
    if k > 0 {
        lemma_count_zero((k - 1) as nat);
        let s = (k - 1) as u32;
        assert((0u32 >> s) & 1u32 == 0u32) by (bit_vector);
    }
}

proof fn lemma_single_bit_in_tileset(c: u32)
    requires
        c < 12,
    ensures
        (1u32 << c) <= 0xFFF,
{
    assert(c < 12 ==> (1u32 << c) <= 0xFFF) by (bit_vector);
}

proof fn lemma_no_low_bit_is_zero(d: u32)
    requires
        d <= 0xFFF,
        d & (1u32 << 0u32) == 0,
        d & (1u32 << 1u32) == 0,
        d & (1u32 << 2u32) == 0,
        d & (1u32 << 3u32) == 0,
        d & (1u32 << 4u32) == 0,
        d & (1u32 << 5u32) == 0,
        d & (1u32 << 6u32) == 0,
        d & (1u32 << 7u32) == 0,
        d & (1u32 << 8u32) == 0,
        d & (1u32 << 9u32) == 0,
        d & (1u32 << 10u32) == 0,
        d & (1u32 << 11u32) == 0,
    ensures
        d == 0,
{
    assert((d <= 0xFFF && d & (1u32 << 0u32) == 0 && d & (1u32 << 1u32) == 0 && d & (1u32 << 2u32) == 0
        && d & (1u32 << 3u32) == 0 && d & (1u32 << 4u32) == 0 && d & (1u32 << 5u32) == 0 && d & (1u32
        << 6u32) == 0 && d & (1u32 << 7u32) == 0 && d & (1u32 << 8u32) == 0 && d & (1u32 << 9u32) == 0
        && d & (1u32 << 10u32) == 0 && d & (1u32 << 11u32) == 0) ==> d == 0) by (bit_vector);
}

/// Whether tile `t` is in domain `d`.
pub open spec fn holds_tile(d: u32, t: int) -> bool {
    bit_of(d, t) == 1
}

/// Whether tile `u` may lie on side `dir` of tile `t`: the sides that face
/// each other either both connect or both do not.
pub open spec fn fits_side(t: int, u: int, dir: int) -> bool {
    edges_spec(t)[dir] == edges_spec(u)[(dir + 2) % 4]
}

proof fn lemma_has_or_single(a: u32, j: u32, u: u32)
    requires
        j < 32,
        u < 32,
    ensures
        holds_tile(a | (1u32 << j), u as int) == (holds_tile(a, u as int) || u == j),
{
    assert((j < 32 && u < 32) ==> ((((a | (1u32 << j)) >> u) & 1u32 == 1u32) == (((a >> u) & 1u32 == 1u32) || u == j))) by (bit_vector);
}

proof fn lemma_has_or(a: u32, b: u32, u: u32)
    requires
        u < 32,
    ensures
        holds_tile(a | b, u as int) == (holds_tile(a, u as int) || holds_tile(b, u as int)),
{
    assert(u < 32 ==> ((((a | b) >> u) & 1u32 == 1u32) == (((a >> u) & 1u32 == 1u32) || ((b >> u) & 1u32 == 1u32)))) by (bit_vector);
}

proof fn lemma_has_and(a: u32, b: u32, u: u32)
    requires
        u < 32,
    ensures
        holds_tile(a & b, u as int) == (holds_tile(a, u as int) && holds_tile(b, u as int)),
{
    assert(u < 32 ==> ((((a & b) >> u) & 1u32 == 1u32) == (((a >> u) & 1u32 == 1u32) && ((b >> u) & 1u32 == 1u32)))) by (bit_vector);
}

proof fn lemma_has_test(d: u32, t: u32)
    requires
        t < 32,
    ensures
        (d & (1u32 << t) != 0) == holds_tile(d, t as int),
{
    assert(t < 32 ==> ((d & (1u32 << t) != 0) == ((d >> t) & 1u32 == 1u32))) by (bit_vector);
}

proof fn lemma_has_zero(u: u32)
    requires
        u < 32,
    ensures
        !holds_tile(0u32, u as int),
{
    assert((0u32 >> u) & 1u32 == 0u32) by (bit_vector);
}

proof fn lemma_count_at_least_one(d: u32, t: int, k: nat)
    requires
        0 <= t < k <= 32,
        holds_tile(d, t),
    ensures
        count_low_bits(d, k) >= 1,
    decreases k,
{
    if t < k - 1 {
        lemma_count_at_least_one(d, t, (k - 1) as nat);
    }
}

proof fn lemma_count_at_least_two(d: u32, t: int, u: int, k: nat)
    requires
        0 <= t < u < k <= 32,
        holds_tile(d, t),
        holds_tile(d, u),
    ensures
        count_low_bits(d, k) >= 2,
    decreases k,
{
    if u < k - 1 {
        lemma_count_at_least_two(d, t, u, (k - 1) as nat);
    } else {
        lemma_count_at_least_one(d, t, (k - 1) as nat);
    }
}

/// The number of set bits of `d`.
fn count_bits(d: u32) -> (r: usize)
    ensures
        r == bit_count(d),
        r <= 32,
{
    let mut c: usize = 0;
    let mut t: u32 = 0;
    while t < 32
        invariant
            t <= 32,
            c == count_low_bits(d, t as nat),
            c <= t,
        decreases 32 - t,
    {
        let b = (d >> t) & 1u32;
        assert(b <= 1) by (bit_vector)
            requires b == (d >> t) & 1u32;
        c += b as usize;
        t += 1;
    }
    c
}

/// The mask of the tiles that do not connect through side `dir`.
pub fn allowed_without_connection(tiles: &Vec<WfcTile>, dir: usize) -> (r: u32)
    requires
        tiles@.len() == WFC_TILE_COUNT,
        forall|t: int| 0 <= t < 12 ==> (#[trigger] tiles@[t]).ch == symbol_spec(t) && tiles@[t].edges@ == edges_spec(t),
        dir < 4,
    ensures
        r <= 0xFFF,
        forall|t: int| 0 <= t < 12 ==> #[trigger] holds_tile(r, t) == !edges_spec(t)[dir as int],
{
    let mut mask: u32 = 0;
    let mut i: usize = 0;
    assert forall|t: int| 0 <= t < 12 implies !#[trigger] holds_tile(mask, t) by {
        lemma_has_zero(t as u32);
    }
    assert(0u32 < (1u32 << 0u32)) by (bit_vector);
    while i < tiles.len()
        invariant
            i <= tiles@.len(),
            tiles@.len() == WFC_TILE_COUNT,
            forall|t: int| 0 <= t < 12 ==> (#[trigger] tiles@[t]).ch == symbol_spec(t) && tiles@[t].edges@ == edges_spec(t),
            dir < 4,
            mask < (1u32 << (i as u32)),
            forall|t: int| 0 <= t < 12 ==> #[trigger] holds_tile(mask, t) == (t < i && !edges_spec(t)[dir as int]),
        decreases tiles@.len() - i,
    {
        let ghost before = mask;
        if !tiles[i].edges[dir] {
            mask = mask | (1u32 << (i as u32));
            proof {
                assert forall|t: int| 0 <= t < 12 implies #[trigger] holds_tile(mask, t) == (t < i + 1 && !edges_spec(t)[dir as int]) by {
                    lemma_has_or_single(before, i as u32, t as u32);
                }
            }
        }
        proof {
            let iu = i as u32;
            assert((iu < 12 && before < (1u32 << iu)) ==> (before | (1u32 << iu)) < (1u32 << (iu + 1)) && before < (1u32 << (iu + 1))) by (bit_vector);
        }
        i += 1;
    }
    assert((mask < (1u32 << 12u32)) ==> mask <= 0xFFF) by (bit_vector);
    mask
}

/// `compat[4 * t + dir]`: the mask of the tiles that may lie on side `dir` of tile `t`.
pub fn build_compat(tiles: &Vec<WfcTile>) -> (compat: Vec<u32>)
    requires
        tiles@.len() == WFC_TILE_COUNT,
        forall|t: int| 0 <= t < 12 ==> (#[trigger] tiles@[t]).ch == symbol_spec(t) && tiles@[t].edges@ == edges_spec(t),
    ensures
        compat@.len() == 4 * WFC_TILE_COUNT,
        forall|t: int, dir: int, u: int|
            0 <= t < 12 && 0 <= dir < 4 && 0 <= u < 12 ==> (#[trigger] holds_tile(compat@[4 * t + dir], u)) == fits_side(t, u, dir),
{
    let mut compat: Vec<u32> = Vec::new();
    let mut i: usize = 0;
    while i < tiles.len()
        invariant
            i <= tiles@.len(),
            tiles@.len() == WFC_TILE_COUNT,
            forall|t: int| 0 <= t < 12 ==> (#[trigger] tiles@[t]).ch == symbol_spec(t) && tiles@[t].edges@ == edges_spec(t),
            compat@.len() == 4 * i,
            forall|t: int, dir: int, u: int|
                0 <= t < i && 0 <= dir < 4 && 0 <= u < 12 ==> (#[trigger] holds_tile(compat@[4 * t + dir], u)) == fits_side(t, u, dir),
        decreases tiles@.len() - i,
    {
        let mut dir: usize = 0;
        while dir < 4
            invariant
                i < tiles@.len(),
                tiles@.len() == WFC_TILE_COUNT,
                forall|t: int| 0 <= t < 12 ==> (#[trigger] tiles@[t]).ch == symbol_spec(t) && tiles@[t].edges@ == edges_spec(t),
                dir <= 4,
                compat@.len() == 4 * i + dir,
                forall|t: int, d: int, u: int|
                    0 <= t < i && 0 <= d < 4 && 0 <= u < 12 ==> (#[trigger] holds_tile(compat@[4 * t + d], u)) == fits_side(t, u, d),
                forall|d: int, u: int|
                    0 <= d < dir && 0 <= u < 12 ==> (#[trigger] holds_tile(compat@[4 * i + d], u)) == fits_side(i as int, u, d),
            decreases 4 - dir,
        {
            let mut mask: u32 = 0;
            let mut j: usize = 0;
            assert forall|u: int| 0 <= u < 12 implies !#[trigger] holds_tile(mask, u) by {
                lemma_has_zero(u as u32);
            }
            while j < tiles.len()
                invariant
                    i < tiles@.len(),
                    tiles@.len() == WFC_TILE_COUNT,
                    forall|t: int| 0 <= t < 12 ==> (#[trigger] tiles@[t]).ch == symbol_spec(t) && tiles@[t].edges@ == edges_spec(t),
                    dir < 4,
                    j <= tiles@.len(),
                    forall|u: int| 0 <= u < 12 ==> (#[trigger] holds_tile(mask, u)) == (u < j && fits_side(i as int, u, dir as int)),
                decreases tiles@.len() - j,
            {
                let ghost before = mask;
                if tiles[i].edges[dir] == tiles[j].edges[opposite(dir)] {
                    mask = mask | (1u32 << (j as u32));
                    proof {
                        assert forall|u: int| 0 <= u < 12 implies (#[trigger] holds_tile(mask, u)) == (u < j + 1 && fits_side(i as int, u, dir as int)) by {
                            lemma_has_or_single(before, j as u32, u as u32);
                        }
                    }
                }
                j += 1;
            }
            let ghost before_push = compat@;
            compat.push(mask);
            proof {
                assert forall|t: int, d: int, u: int|
                    0 <= t < i && 0 <= d < 4 && 0 <= u < 12 && #[trigger] holds_tile(compat@[4 * t + d], u) implies fits_side(t, u, d) by {
                    assert(compat@[4 * t + d] == before_push[4 * t + d]);
                }
                assert forall|d: int, u: int|
                    0 <= d < dir + 1 && 0 <= u < 12 && #[trigger] holds_tile(compat@[4 * i + d], u) implies fits_side(i as int, u, d) by {
                    if d < dir {
                        assert(compat@[4 * i + d] == before_push[4 * i + d]);
                    }
                }
            }
            dir += 1;
        }
        i += 1;
    }
    compat
}

proof fn lemma_cell_index(x: int, y: int, w: int, h: int)
    requires
        0 <= x < w,
        0 <= y < h,
    ensures
        0 <= y * w + x < w * h,
        (y * w + x) % w == x,
        (y * w + x) / w == y,
{
    assert(0 <= y * w + x < w * h) by (nonlinear_arith)
        requires
            0 <= x < w,
            0 <= y < h,
    ;
    vstd::arithmetic::div_mod::lemma_fundamental_div_mod_converse(y * w + x, w, y, x);
}

proof fn lemma_index_cell(i: int, w: int, h: int)
    requires
        0 <= i < w * h,
        w > 0,
    ensures
        0 <= i % w < w,
        0 <= i / w < h,
        (i / w) * w + i % w == i,
{
    vstd::arithmetic::div_mod::lemma_fundamental_div_mod(i, w);
    vstd::arithmetic::div_mod::lemma_div_pos_is_pos(i, w);
    vstd::arithmetic::div_mod::lemma_mod_pos_bound(i, w);
    let q = i / w;
    let r = i % w;
    assert(q * w == w * q) by (nonlinear_arith);
    if q >= h {
        assert(q * w >= h * w) by (nonlinear_arith)
            requires
                q >= h,
                w > 0,
        ;
        assert(w * h == h * w) by (nonlinear_arith);
    }
}

/// Whether tile `t` may stand at cell `i` of a `w`-wide, `h`-high grid
/// without connecting through a side that faces off the grid.
pub open spec fn border_ok(t: int, i: int, w: int, h: int) -> bool {
    let x = i % w;
    let y = i / w;
    &&& (y == 0 ==> !edges_spec(t)[0])
    &&& (x + 1 == w ==> !edges_spec(t)[1])
    &&& (y + 1 == h ==> !edges_spec(t)[2])
    &&& (x == 0 ==> !edges_spec(t)[3])
}

/// Cell `j` holds exactly the tiles that fit its borders.
pub open spec fn fresh_at(dom: Seq<u32>, j: int, w: int, h: int) -> bool {
    &&& dom[j] <= 0xFFF
    &&& forall|t: int| 0 <= t < 12 ==> #[trigger] holds_tile(dom[j], t) == border_ok(t, j, w, h)
}

proof fn lemma_full_mask(t: u32)
    requires
        t < 12,
    ensures
        holds_tile(0xFFFu32, t as int),
{
    assert(t < 12 ==> (0xFFFu32 >> t) & 1u32 == 1u32) by (bit_vector);
}

/// Fresh domains: every tile everywhere, but for the tiles that would connect
/// off the grid along its border.
fn initial_domains(tiles: &Vec<WfcTile>, width: usize, height: usize, all_mask: u32) -> (domains: Vec<u32>)
    requires
        tiles@.len() == WFC_TILE_COUNT,
        forall|t: int| 0 <= t < 12 ==> (#[trigger] tiles@[t]).ch == symbol_spec(t) && tiles@[t].edges@ == edges_spec(t),
        width > 0,
        height > 0,
        width * height <= usize::MAX,
        all_mask == 0xFFF,
    ensures
        domains@.len() == width * height,
        within_tileset(domains@),
        forall|j: int| 0 <= j < width * height ==> #[trigger] fresh_at(domains@, j, width as int, height as int),
{
    let n = width * height;
    let mut domains: Vec<u32> = Vec::new();
    let mut k: usize = 0;
    while k < n
        invariant
            k <= n,
            domains@.len() == k,
            all_mask == 0xFFF,
            forall|j: int| 0 <= j < k ==> #[trigger] domains@[j] == 0xFFF,
        decreases n - k,
    {
        domains.push(all_mask);
        k += 1;
    }
    let ghost w = width as int;
    let ghost h = height as int;
    let mut y: usize = 0;
    while y < height
        invariant
            y <= height,
            domains@.len() == n,
            n == width * height,
            tiles@.len() == WFC_TILE_COUNT,
            forall|t: int| 0 <= t < 12 ==> (#[trigger] tiles@[t]).ch == symbol_spec(t) && tiles@[t].edges@ == edges_spec(t),
            all_mask == 0xFFF,
            w == width,
            h == height,
            forall|j: int| 0 <= j < n && j < y * w ==> #[trigger] fresh_at(domains@, j, w, h),
            forall|j: int| 0 <= j < n && j >= y * w ==> #[trigger] domains@[j] == 0xFFF,
        decreases height - y,
    {
        let mut x: usize = 0;
        while x < width
            invariant
                x <= width,
                y < height,
                domains@.len() == n,
                n == width * height,
                tiles@.len() == WFC_TILE_COUNT,
                forall|t: int| 0 <= t < 12 ==> (#[trigger] tiles@[t]).ch == symbol_spec(t) && tiles@[t].edges@ == edges_spec(t),
                all_mask == 0xFFF,
                w == width,
                h == height,
                forall|j: int| 0 <= j < n && j < y * w + x ==> #[trigger] fresh_at(domains@, j, w, h),
                forall|j: int| 0 <= j < n && j >= y * w + x ==> #[trigger] domains@[j] == 0xFFF,
            decreases width - x,
        {
            let mut mask = all_mask;
            let a0 = allowed_without_connection(tiles, 0);
            let a1 = allowed_without_connection(tiles, 1);
            let a2 = allowed_without_connection(tiles, 2);
            let a3 = allowed_without_connection(tiles, 3);
            let ghost m0 = mask;
            if y == 0 {
                mask = mask & a0;
            }
            let ghost m1 = mask;
            if x + 1 == width {
                mask = mask & a1;
            }
            let ghost m2 = mask;
            if y + 1 == height {
                mask = mask & a2;
            }
            let ghost m3 = mask;
            if x == 0 {
                mask = mask & a3;
            }
            proof {
                lemma_cell_index(x as int, y as int, w, h);
            }
            let i = y * width + x;
            let d = domains[i] & mask;
            proof {
                lemma_and_not_above(domains@[i as int], mask);
                assert forall|t: int| 0 <= t < 12 implies #[trigger] holds_tile(d, t) == border_ok(t, i as int, w, h) by {
                    let tu = t as u32;
                    lemma_full_mask(tu);
                    lemma_has_and(m0, a0, tu);
                    lemma_has_and(m1, a1, tu);
                    lemma_has_and(m2, a2, tu);
                    lemma_has_and(m3, a3, tu);
                    lemma_has_and(0xFFFu32, mask, tu);
                }
            }
            let ghost before = domains@;
            domains.set(i, d);
            proof {
                assert forall|j: int| 0 <= j < n && j < y * w + x + 1 implies #[trigger] fresh_at(domains@, j, w, h) by {
                    if j != i {
                        assert(domains@[j] == before[j]);
                        assert(fresh_at(before, j, w, h));
                    }
                }
                assert forall|j: int| 0 <= j < n && j >= y * w + x + 1 implies #[trigger] domains@[j] == 0xFFF by {
                    assert(domains@[j] == before[j]);
                }
            }
            x += 1;
        }
        proof {
            assert(y * w + w == (y + 1) * w) by (nonlinear_arith);
        }
        y += 1;
    }
    proof {
        assert(y * w == n) by (nonlinear_arith)
            requires
                y == h,
                w == width,
                h == height,
                n == width * height,
        ;
        assert forall|j: int| 0 <= j < domains@.len() implies #[trigger] domains@[j] <= 0xFFF by {
            assert(fresh_at(domains@, j, w, h));
        }
    }
    domains
}

/// The index of the neighbour of cell `i` on side `dir` (0 up, 1 right,
/// 2 down, 3 left) in a `w`-wide, `h`-high grid, or -1 off the grid.
pub open spec fn nb(i: int, dir: int, w: int, h: int) -> int {
    let x = i % w;
    let y = i / w;
    if dir == 0 {
        if y > 0 { i - w } else { -1 }
    } else if dir == 1 {
        if x + 1 < w { i + 1 } else { -1 }
    } else if dir == 2 {
        if y + 1 < h { i + w } else { -1 }
    } else {
        if x > 0 { i - 1 } else { -1 }
    }
}

/// Every tile still possible at the neighbour of `i` on side `dir` fits some
/// tile still possible at `i`.
pub open spec fn supported(dom: Seq<u32>, w: int, h: int, i: int, dir: int) -> bool {
    let n = nb(i, dir, w, h);
    n < 0 || forall|u: int|
        0 <= u < 12 && #[trigger] holds_tile(dom[n], u) ==> exists|t: int|
            0 <= t < 12 && #[trigger] holds_tile(dom[i], t) && fits_side(t, u, dir)
}

/// Cell `i` waits in `queue` at or after `head`.
pub open spec fn pending(queue: Seq<usize>, head: int, i: int) -> bool {
    exists|k: int| head <= k < queue.len() && queue[k] == i
}

/// Some cell has no tile left.
pub open spec fn has_empty(dom: Seq<u32>) -> bool {
    exists|i: int| 0 <= i < dom.len() && dom[i] == 0
}

/// Arc consistency up to the queue: unless some domain is empty, every side
/// of every cell is supported, or the cell is still to be propagated from, or
/// it is cell `c` and the side comes at or after `from_dir`.
pub open spec fn consistent_except(dom: Seq<u32>, queue: Seq<usize>, head: int, w: int, h: int, c: int, from_dir: int) -> bool {
    has_empty(dom) || forall|i: int, dir: int|
        0 <= i < dom.len() && 0 <= dir < 4 ==> #[trigger] supported(dom, w, h, i, dir) || pending(queue, head, i)
            || (i == c && dir >= from_dir)
}

/// Arc consistency up to the queue.
pub open spec fn consistent(dom: Seq<u32>, queue: Seq<usize>, head: int, w: int, h: int) -> bool {
    consistent_except(dom, queue, head, w, h, -1, 4)
}

/// Every tile still possible at a cell fits its borders.
pub open spec fn within_borders(dom: Seq<u32>, w: int, h: int) -> bool {
    forall|j: int, t: int| 0 <= j < dom.len() && 0 <= t < 12 && #[trigger] holds_tile(dom[j], t) ==> border_ok(t, j, w, h)
}

/// `v` holds no tile that `d` does not.
pub open spec fn narrower(v: u32, d: u32) -> bool {
    forall|u: int| 0 <= u < 12 && #[trigger] holds_tile(v, u) ==> holds_tile(d, u)
}

proof fn lemma_nb_range(i: int, dir: int, w: int, h: int)
    requires
        0 <= i < w * h,
        w > 0,
        0 <= dir < 4,
    ensures
        nb(i, dir, w, h) == -1 || (0 <= nb(i, dir, w, h) < w * h && nb(i, dir, w, h) != i),
{
    lemma_index_cell(i, w, h);
    let x = i % w;
    let y = i / w;
    assert(y * w + w <= w * h) by (nonlinear_arith)
        requires
            0 <= y < h,
            w > 0,
    ;
    if y + 1 < h {
        assert(y * w + 2 * w <= w * h) by (nonlinear_arith)
            requires
                0 <= y,
                y + 1 < h,
                w > 0,
        ;
    }
    if y > 0 {
        assert(y * w >= w) by (nonlinear_arith)
            requires
                y > 0,
                w > 0,
        ;
    }
}

proof fn lemma_empty_stays(dom: Seq<u32>, j: int, v: u32)
    requires
        has_empty(dom),
        0 <= j < dom.len(),
        v <= 0xFFF,
        narrower(v, dom[j]),
    ensures
        has_empty(dom.update(j, v)),
{
    let k = choose|k: int| 0 <= k < dom.len() && dom[k] == 0;
    if k == j {
        assert forall|s: u32| s < 12 implies #[trigger] (v & (1u32 << s)) == 0 by {
            lemma_has_test(v, s);
            lemma_has_test(0u32, s);
            lemma_has_zero(s);
        }
        assert(v & (1u32 << 0u32) == 0);
        assert(v & (1u32 << 1u32) == 0);
        assert(v & (1u32 << 2u32) == 0);
        assert(v & (1u32 << 3u32) == 0);
        assert(v & (1u32 << 4u32) == 0);
        assert(v & (1u32 << 5u32) == 0);
        assert(v & (1u32 << 6u32) == 0);
        assert(v & (1u32 << 7u32) == 0);
        assert(v & (1u32 << 8u32) == 0);
        assert(v & (1u32 << 9u32) == 0);
        assert(v & (1u32 << 10u32) == 0);
        assert(v & (1u32 << 11u32) == 0);
        lemma_no_low_bit_is_zero(v);
    }
    assert(dom.update(j, v)[k] == 0);
}

proof fn lemma_supported_narrow(dom: Seq<u32>, w: int, h: int, i: int, dir: int, j: int, v: u32)
    requires
        supported(dom, w, h, i, dir),
        0 <= j < dom.len(),
        0 <= i < dom.len(),
        i != j,
        narrower(v, dom[j]),
        nb(i, dir, w, h) < dom.len(),
    ensures
        supported(dom.update(j, v), w, h, i, dir),
{
    let d2 = dom.update(j, v);
    let n = nb(i, dir, w, h);
    if n >= 0 {
        assert forall|u: int| 0 <= u < 12 && #[trigger] holds_tile(d2[n], u) implies exists|t: int|
            0 <= t < 12 && #[trigger] holds_tile(d2[i], t) && fits_side(t, u, dir) by {
            assert(holds_tile(dom[n], u));
            let t = choose|t: int| 0 <= t < 12 && #[trigger] holds_tile(dom[i], t) && fits_side(t, u, dir);
            assert(d2[i] == dom[i]);
            assert(holds_tile(d2[i], t));
        }
    }
}

/// Narrowing cell `j` and queueing it keeps the domains consistent up to the queue.
proof fn lemma_narrow_and_queue(dom: Seq<u32>, queue: Seq<usize>, head: int, w: int, h: int, c: int, from_dir: int, j: int, v: u32)
    requires
        consistent_except(dom, queue, head, w, h, c, from_dir),
        0 <= j < dom.len(),
        j <= usize::MAX,
        0 <= head <= queue.len(),
        dom.len() == w * h,
        w > 0,
        j != c,
        v <= 0xFFF,
        narrower(v, dom[j]),
    ensures
        consistent_except(dom.update(j, v), queue.push(j as usize), head, w, h, c, from_dir),
{
    let d2 = dom.update(j, v);
    let q2 = queue.push(j as usize);
    if has_empty(dom) {
        lemma_empty_stays(dom, j, v);
    } else {
        assert forall|i: int, dir: int| 0 <= i < d2.len() && 0 <= dir < 4 implies #[trigger] supported(d2, w, h, i, dir)
            || pending(q2, head, i) || (i == c && dir >= from_dir) by {
            if i == j {
                assert(q2[queue.len() as int] == j as usize);
            } else {
                lemma_nb_range(i, dir, w, h);
                if supported(dom, w, h, i, dir) {
                    lemma_supported_narrow(dom, w, h, i, dir, j, v);
                } else if pending(queue, head, i) {
                    let k = choose|k: int| head <= k < queue.len() && queue[k] == i;
                    assert(q2[k] == i);
                }
            }
        }
    }
}

/// The side that a tile connects through and the borders it must avoid pick
/// a tile of the set that does so.
pub open spec fn side_witness(dir: int, top: bool, right: bool, bottom: bool, left: bool) -> int {
    if dir == 0 {
        if !bottom { 2 } else if !right { 5 } else { 6 }
    } else if dir == 1 {
        if !left { 1 } else if !bottom { 3 } else { 5 }
    } else if dir == 2 {
        if !top { 2 } else if !right { 3 } else { 4 }
    } else {
        if !right { 1 } else if !bottom { 4 } else { 6 }
    }
}

proof fn lemma_side_witness(dir: int, top: bool, right: bool, bottom: bool, left: bool)
    requires
        0 <= dir < 4,
        !(top && bottom),
        !(left && right),
        dir == 0 ==> !top,
        dir == 1 ==> !right,
        dir == 2 ==> !bottom,
        dir == 3 ==> !left,
    ensures
        ({
            let t = side_witness(dir, top, right, bottom, left);
            &&& 0 <= t < 12
            &&& edges_spec(t)[dir]
            &&& top ==> !edges_spec(t)[0]
            &&& right ==> !edges_spec(t)[1]
            &&& bottom ==> !edges_spec(t)[2]
            &&& left ==> !edges_spec(t)[3]
        }),
{
}

/// Fresh domains are consistent: every tile on a side has a partner.
proof fn lemma_fresh_consistent(dom: Seq<u32>, w: int, h: int)
    requires
        dom.len() == w * h,
        w >= 2,
        h >= 2,
        forall|j: int| 0 <= j < w * h ==> #[trigger] fresh_at(dom, j, w, h),
    ensures
        consistent(dom, Seq::<usize>::empty(), 0, w, h),
        within_borders(dom, w, h),
{
    assert forall|i: int, dir: int| 0 <= i < dom.len() && 0 <= dir < 4 implies #[trigger] supported(dom, w, h, i, dir)
        || pending(Seq::<usize>::empty(), 0, i) || (i == -1 && dir >= 4) by {
        lemma_nb_range(i, dir, w, h);
        let n = nb(i, dir, w, h);
        lemma_index_cell(i, w, h);
        if n >= 0 {
            assert(fresh_at(dom, i, w, h));
            assert(fresh_at(dom, n, w, h));
            assert forall|u: int| 0 <= u < 12 && #[trigger] holds_tile(dom[n], u) implies exists|t: int|
                0 <= t < 12 && #[trigger] holds_tile(dom[i], t) && fits_side(t, u, dir) by {
                if edges_spec(u)[(dir + 2) % 4] {
                    let x = i % w;
                    let y = i / w;
                    lemma_side_witness(dir, y == 0, x + 1 == w, y + 1 == h, x == 0);
                    let t = side_witness(dir, y == 0, x + 1 == w, y + 1 == h, x == 0);
                    assert(border_ok(t, i, w, h));
                    assert(holds_tile(dom[i], t));
                } else {
                    assert(border_ok(0, i, w, h));
                    assert(holds_tile(dom[i], 0));
                }
            }
        }
    }
    assert forall|j: int, t: int| 0 <= j < dom.len() && 0 <= t < 12 && #[trigger] holds_tile(dom[j], t) implies border_ok(t, j, w, h) by {
        assert(fresh_at(dom, j, w, h));
    }
}

/// The first cell, in scan order, with the fewest candidates among those with more than one.
fn lowest_entropy_cell(domains: &Vec<u32>) -> (r: Option<usize>)
    ensures
        r matches Some(i) ==> {
            &&& i < domains@.len()
            &&& bit_count(domains@[i as int]) > 1
            &&& forall|j: int|
                0 <= j < domains@.len() && bit_count(#[trigger] domains@[j]) > 1 ==> bit_count(domains@[j]) >= bit_count(domains@[i as int])
                    && (j < i ==> bit_count(domains@[j]) > bit_count(domains@[i as int]))
        },
        r is None ==> forall|i: int| 0 <= i < domains@.len() ==> bit_count(#[trigger] domains@[i]) <= 1,
{
    let mut best_i: Option<usize> = None;
    let mut best_count: usize = usize::MAX;
    let mut i: usize = 0;
    while i < domains.len()
        invariant
            i <= domains@.len(),
            best_i matches Some(b) ==> {
                &&& b < i
                &&& best_count == bit_count(domains@[b as int])
                &&& bit_count(domains@[b as int]) > 1
                &&& forall|j: int| 0 <= j < i && bit_count(#[trigger] domains@[j]) > 1 ==> bit_count(domains@[j]) >= best_count
                    && (j < b ==> bit_count(domains@[j]) > best_count)
            },
            best_i is None ==> forall|k: int| 0 <= k < i ==> bit_count(#[trigger] domains@[k]) <= 1,
            best_i is None ==> best_count == usize::MAX,
        decreases domains@.len() - i,
    {
        let c = count_bits(domains[i]);
        if c > 1 && c < best_count {
            best_count = c;
            best_i = Some(i);
        }
        i += 1;
    }
    best_i
}

/// `s` holds, cell by cell, no tile that `d` does not.
pub open spec fn below(s: Seq<u32>, d: Seq<u32>) -> bool {
    &&& s.len() == d.len()
    &&& forall|j: int| 0 <= j < s.len() ==> #[trigger] narrower(s[j], d[j])
}

/// Every side of every cell of `s` is supported: `s` is arc consistent.
pub open spec fn closed(s: Seq<u32>, w: int, h: int) -> bool {
    forall|i: int, dir: int| 0 <= i < s.len() && 0 <= dir < 4 ==> #[trigger] supported(s, w, h, i, dir)
}

proof fn lemma_below_trans(a: Seq<u32>, b: Seq<u32>, c: Seq<u32>)
    requires
        below(a, b),
        below(b, c),
    ensures
        below(a, c),
{
    assert forall|j: int| 0 <= j < a.len() implies #[trigger] narrower(a[j], c[j]) by {
        assert(narrower(a[j], b[j]));
        assert(narrower(b[j], c[j]));
    }
}

/// Narrowing the neighbour on side `dir` of cell `c` to the tiles that fit
/// some tile of `c` keeps every arc-consistent family below the domains.
proof fn lemma_family_stays_below(
    s: Seq<u32>,
    dom: Seq<u32>,
    w: int,
    h: int,
    c: int,
    dir: int,
    n: int,
    allowed: u32,
    after: u32,
)
    requires
        closed(s, w, h),
        below(s, dom),
        0 <= c < dom.len(),
        0 <= dir < 4,
        n == nb(c, dir, w, h),
        0 <= n < dom.len(),
        forall|u: int, t: int| 0 <= u < 12 && 0 <= t < 12 && #[trigger] holds_tile(dom[c], t) && fits_side(t, u, dir) ==> #[trigger] holds_tile(allowed, u),
        forall|u: int| 0 <= u < 12 ==> #[trigger] holds_tile(after, u) == (holds_tile(dom[n], u) && holds_tile(allowed, u)),
    ensures
        below(s, dom.update(n, after)),
{
    let d2 = dom.update(n, after);
    assert forall|j: int| 0 <= j < s.len() implies #[trigger] narrower(s[j], d2[j]) by {
        assert(narrower(s[j], dom[j]));
        if j == n {
            assert forall|u: int| 0 <= u < 12 && #[trigger] holds_tile(s[j], u) implies holds_tile(d2[j], u) by {
                assert(supported(s, w, h, c, dir));
                let t = choose|t: int| 0 <= t < 12 && #[trigger] holds_tile(s[c], t) && fits_side(t, u, dir);
                assert(narrower(s[c], dom[c]));
                assert(holds_tile(dom[c], t));
                assert(holds_tile(allowed, u));
            }
        }
    }
}

proof fn lemma_pop_front(dom: Seq<u32>, queue: Seq<usize>, w: int, h: int)
    requires
        consistent(dom, queue, 0, w, h),
        0 < queue.len(),
    ensures
        consistent_except(dom, queue.subrange(1, queue.len() as int), 0, w, h, queue[0] as int, 0),
{
    let rest = queue.subrange(1, queue.len() as int);
    if !has_empty(dom) {
        assert forall|i: int, dir: int| 0 <= i < dom.len() && 0 <= dir < 4 implies #[trigger] supported(dom, w, h, i, dir)
            || pending(rest, 0, i) || (i == queue[0] as int && dir >= 0) by {
            if !supported(dom, w, h, i, dir) {
                assert(pending(queue, 0, i) || (i == -1 && dir >= 4));
                let k = choose|k: int| 0 <= k < queue.len() && queue[k] == i;
                if k > 0 {
                    assert(rest[k - 1] == i);
                }
            }
        }
    }
}

proof fn lemma_advance(dom: Seq<u32>, queue: Seq<usize>, head: int, w: int, h: int, c: int, dir: int)
    requires
        consistent_except(dom, queue, head, w, h, c, dir),
        supported(dom, w, h, c, dir),
    ensures
        consistent_except(dom, queue, head, w, h, c, dir + 1),
{
}

proof fn lemma_close(dom: Seq<u32>, queue: Seq<usize>, head: int, w: int, h: int, c: int)
    requires
        consistent_except(dom, queue, head, w, h, c, 4),
    ensures
        consistent(dom, queue, head, w, h),
{
}

/// Narrow the domains from the cells waiting in `queue`: each neighbour
/// keeps only the tiles compatible with some candidate of the cell, and is
/// queued in turn when it lost one. When the domains start consistent up to
/// the queue (`track`) and no domain empties, every cell ends supported on
/// every side.
fn propagate(
    domains: &mut Vec<u32>,
    queue: &mut VecDeque<usize>,
    compat: &Vec<u32>,
    width: usize,
    height: usize,
    track: Ghost<bool>,
)
    requires
        old(domains)@.len() == width * height,
        width > 0,
        compat@.len() == 4 * WFC_TILE_COUNT,
        forall|t: int, dir: int, u: int|
            0 <= t < 12 && 0 <= dir < 4 && 0 <= u < 12 ==> (#[trigger] holds_tile(compat@[4 * t + dir], u)) == fits_side(t, u, dir),
        forall|k: int| 0 <= k < old(queue)@.len() ==> #[trigger] old(queue)@[k] < width * height,
        within_tileset(old(domains)@),
        within_borders(old(domains)@, width as int, height as int),
        track@ ==> consistent(old(domains)@, old(queue)@, 0, width as int, height as int),
    ensures
        final(domains)@.len() == width * height,
        within_tileset(final(domains)@),
        within_borders(final(domains)@, width as int, height as int),
        forall|k: int| 0 <= k < final(queue)@.len() ==> #[trigger] final(queue)@[k] < width * height,
        mask_sum(final(domains)@) <= mask_sum(old(domains)@),
        track@ ==> consistent(final(domains)@, final(queue)@, 0, width as int, height as int),
        has_empty(final(domains)@) || final(queue)@.len() == 0,
        below(final(domains)@, old(domains)@),
        forall|f: Seq<u32>| closed(f, width as int, height as int) && #[trigger] below(f, old(domains)@) ==> below(f, final(domains)@),
{
    let n = domains.len();
    let ghost w = width as int;
    let ghost h = height as int;
    loop
        invariant
            domains@.len() == n,
            n == width * height,
            w == width,
            h == height,
            width > 0,
            compat@.len() == 4 * WFC_TILE_COUNT,
            forall|t: int, dir: int, u: int|
                0 <= t < 12 && 0 <= dir < 4 && 0 <= u < 12 ==> (#[trigger] holds_tile(compat@[4 * t + dir], u)) == fits_side(t, u, dir),
            forall|k: int| 0 <= k < queue@.len() ==> #[trigger] queue@[k] < n,
            mask_sum(domains@) <= mask_sum(old(domains)@),
            within_tileset(domains@),
            within_borders(domains@, w, h),
            track@ ==> consistent(domains@, queue@, 0, w, h),
            below(domains@, old(domains)@),
            forall|f: Seq<u32>| closed(f, w, h) && #[trigger] below(f, old(domains)@) ==> below(f, domains@),
        ensures
            below(domains@, old(domains)@),
            forall|f: Seq<u32>| closed(f, w, h) && #[trigger] below(f, old(domains)@) ==> below(f, domains@),
            domains@.len() == n,
            forall|k: int| 0 <= k < queue@.len() ==> #[trigger] queue@[k] < n,
            mask_sum(domains@) <= mask_sum(old(domains)@),
            within_tileset(domains@),
            within_borders(domains@, w, h),
            track@ ==> consistent(domains@, queue@, 0, w, h),
            has_empty(domains@) || queue@.len() == 0,
        decreases mask_sum(domains@), queue@.len(),
    {
        proof {
            lemma_mask_sum_nonneg(domains@);
        }
        let ghost q0 = queue@;
        let i0 = match queue.pop_front() {
            Some(c) => c,
            None => {
                break;
            },
        };
        proof {
            if track@ {
                lemma_pop_front(domains@, q0, w, h);
            }
            assert(queue@ == q0.subrange(1, q0.len() as int));
            assert forall|k: int| 0 <= k < queue@.len() implies #[trigger] queue@[k] < n by {
                assert(queue@[k] == q0[k + 1]);
            }
        }
        let ghost sum_before = mask_sum(domains@);
        let ghost pending_before = queue@.len();
        proof {
            lemma_mask_sum_nonneg(domains@);
            lemma_index_cell(i0 as int, width as int, height as int);
        }
        let x0 = i0 % width;
        let y0 = i0 / width;
        let d0 = domains[i0];
        if d0 == 0 {
            break;
        }
        let mut dir: usize = 0;
        let mut emptied = false;
        while dir < 4 && !emptied
            invariant
                domains@.len() == n,
                n == width * height,
                w == width,
                h == height,
                width > 0,
                i0 < n,
                x0 == i0 % width,
                y0 == i0 / width,
                x0 < width,
                y0 < height,
                (y0 as int) * w + (x0 as int) == i0,
                d0 == domains@[i0 as int],
                dir <= 4,
                compat@.len() == 4 * WFC_TILE_COUNT,
                forall|t: int, dr: int, u: int|
                    0 <= t < 12 && 0 <= dr < 4 && 0 <= u < 12 ==> (#[trigger] holds_tile(compat@[4 * t + dr], u)) == fits_side(t, u, dr),
                    forall|k: int| 0 <= k < queue@.len() ==> #[trigger] queue@[k] < n,
                mask_sum(domains@) <= sum_before,
                queue@.len() > pending_before ==> mask_sum(domains@) < sum_before,
                queue@.len() >= pending_before,
                sum_before <= mask_sum(old(domains)@),
                within_tileset(domains@),
                within_borders(domains@, w, h),
                emptied ==> has_empty(domains@),
                track@ && !emptied ==> consistent_except(domains@, queue@, 0, w, h, i0 as int, dir as int),
                below(domains@, old(domains)@),
                forall|f: Seq<u32>| closed(f, w, h) && #[trigger] below(f, old(domains)@) ==> below(f, domains@),
            decreases 4 - dir,
        {
            let neighbour: Option<(usize, usize)> = if dir == 0 {
                if y0 == 0 { None } else { Some((x0, y0 - 1)) }
            } else if dir == 1 {
                if x0 + 1 >= width { None } else { Some((x0 + 1, y0)) }
            } else if dir == 2 {
                if y0 + 1 >= height { None } else { Some((x0, y0 + 1)) }
            } else {
                if x0 == 0 { None } else { Some((x0 - 1, y0)) }
            };
            proof {
                lemma_nb_range(i0 as int, dir as int, w, h);
                assert((y0 as int - 1) * w == (y0 as int) * w - w) by (nonlinear_arith);
                assert((y0 as int + 1) * w == (y0 as int) * w + w) by (nonlinear_arith);
            }
            match neighbour {
                Some((nx, ny)) => {
                    proof {
                        lemma_cell_index(nx as int, ny as int, width as int, height as int);
                    }
                    let ni = ny * width + nx;
                    assert(ni as int == nb(i0 as int, dir as int, w, h));
                    let mut allowed: u32 = 0;
                    let mut t: usize = 0;
                    assert forall|u: int| 0 <= u < 12 && #[trigger] holds_tile(allowed, u) implies exists|tt: int|
                        0 <= tt < 12 && #[trigger] holds_tile(d0, tt) && fits_side(tt, u, dir as int) by {
                        lemma_has_zero(u as u32);
                    }
                    while t < WFC_TILE_COUNT
                        invariant
                            t <= WFC_TILE_COUNT,
                            dir < 4,
                            compat@.len() == 4 * WFC_TILE_COUNT,
                            forall|tt: int, dr: int, u: int|
                                0 <= tt < 12 && 0 <= dr < 4 && 0 <= u < 12 ==> (#[trigger] holds_tile(compat@[4 * tt + dr], u)) == fits_side(tt, u, dr),
                            forall|u: int| 0 <= u < 12 && #[trigger] holds_tile(allowed, u) ==> exists|tt: int|
                                0 <= tt < 12 && #[trigger] holds_tile(d0, tt) && fits_side(tt, u, dir as int),
                            forall|u: int, tt: int| 0 <= u < 12 && 0 <= tt < t && #[trigger] holds_tile(d0, tt) && fits_side(tt, u, dir as int) ==> #[trigger] holds_tile(allowed, u),
                        decreases WFC_TILE_COUNT - t,
                    {
                        let ghost before_allowed = allowed;
                        proof {
                            lemma_has_test(d0, t as u32);
                        }
                        if (d0 & (1u32 << (t as u32))) != 0 {
                            let cm = compat[4 * t + dir];
                            allowed = allowed | cm;
                            proof {
                                lemma_has_test(d0, t as u32);
                                assert forall|u: int| 0 <= u < 12 && #[trigger] holds_tile(allowed, u) implies exists|tt: int|
                                    0 <= tt < 12 && #[trigger] holds_tile(d0, tt) && fits_side(tt, u, dir as int) by {
                                    lemma_has_or(before_allowed, cm, u as u32);
                                    if holds_tile(cm, u) {
                                        assert(fits_side(t as int, u, dir as int));
                                        assert(holds_tile(d0, t as int));
                                    }
                                }
                                assert forall|u: int, tt: int| 0 <= u < 12 && 0 <= tt < t + 1 && #[trigger] holds_tile(d0, tt) && fits_side(tt, u, dir as int) implies #[trigger] holds_tile(allowed, u) by {
                                    lemma_has_or(before_allowed, cm, u as u32);
                                }
                            }
                        }
                        t += 1;
                    }
                    let before = domains[ni];
                    let after = before & allowed;
                    let ghost dom_before = domains@;
                    proof {
                        lemma_and_not_above(before, allowed);
                        assert forall|u: int| 0 <= u < 12 && #[trigger] holds_tile(after, u) implies holds_tile(before, u) && holds_tile(allowed, u) by {
                            lemma_has_and(before, allowed, u as u32);
                        }
                    }
                    if after != before {
                        proof {
                            lemma_mask_sum_update(domains@, ni as int, after);
                        }
                        domains.set(ni, after);
                        proof {
                            assert forall|u: int| 0 <= u < 12 implies #[trigger] holds_tile(after, u) == (holds_tile(dom_before[ni as int], u) && holds_tile(allowed, u)) by {
                                lemma_has_and(before, allowed, u as u32);
                            }
                            assert(domains@ == dom_before.update(ni as int, after));
                            assert forall|f: Seq<u32>| closed(f, w, h) && #[trigger] below(f, old(domains)@) implies below(f, domains@) by {
                                assert(below(f, dom_before));
                                lemma_family_stays_below(f, dom_before, w, h, i0 as int, dir as int, ni as int, allowed, after);
                            }
                            assert(below(domains@, dom_before)) by {
                                assert forall|j: int| 0 <= j < domains@.len() implies #[trigger] narrower(domains@[j], dom_before[j]) by {
                                    if j != ni {
                                        assert(domains@[j] == dom_before[j]);
                                    }
                                }
                            }
                            lemma_below_trans(domains@, dom_before, old(domains)@);
                            assert forall|j: int, tt: int| 0 <= j < domains@.len() && 0 <= tt < 12 && #[trigger] holds_tile(domains@[j], tt) implies border_ok(tt, j, w, h) by {
                                if j == ni {
                                    assert(holds_tile(dom_before[j], tt));
                                } else {
                                    assert(domains@[j] == dom_before[j]);
                                }
                            }
                        }
                        if after == 0 {
                            proof {
                                assert(domains@[ni as int] == 0);
                            }
                            emptied = true;
                        } else {
                            let ghost q_before = queue@;
                            queue.push_back(ni);
                            proof {
                                if track@ {
                                    lemma_narrow_and_queue(dom_before, q_before, 0, w, h, i0 as int, dir as int, ni as int, after);
                                }
                                assert(domains@ == dom_before.update(ni as int, after));
                                if track@ && !has_empty(domains@) {
                                    assert(domains@[i0 as int] == d0);
                                    assert forall|u: int| 0 <= u < 12 && #[trigger] holds_tile(domains@[ni as int], u) implies exists|tt: int|
                                        0 <= tt < 12 && #[trigger] holds_tile(domains@[i0 as int], tt) && fits_side(tt, u, dir as int) by {
                                        assert(holds_tile(allowed, u));
                                    }
                                    assert(supported(domains@, w, h, i0 as int, dir as int));
                                    lemma_advance(domains@, queue@, 0, w, h, i0 as int, dir as int);
                                }
                            }
                        }
                    } else {
                        proof {
                            if track@ && !has_empty(domains@) {
                                assert forall|u: int| 0 <= u < 12 && #[trigger] holds_tile(domains@[ni as int], u) implies exists|tt: int|
                                    0 <= tt < 12 && #[trigger] holds_tile(domains@[i0 as int], tt) && fits_side(tt, u, dir as int) by {
                                    lemma_has_and(before, allowed, u as u32);
                                    assert(holds_tile(allowed, u));
                                }
                                assert(supported(domains@, w, h, i0 as int, dir as int));
                                lemma_advance(domains@, queue@, 0, w, h, i0 as int, dir as int);
                            }
                        }
                    }
                },
                None => {
                    proof {
                        assert(nb(i0 as int, dir as int, w, h) == -1);
                        if track@ && !has_empty(domains@) {
                            lemma_advance(domains@, queue@, 0, w, h, i0 as int, dir as int);
                        }
                    }
                },
            }
            dir += 1;
        }
        proof {
            if track@ && !emptied {
                lemma_close(domains@, queue@, 0, w, h, i0 as int);
            }
            lemma_mask_sum_nonneg(domains@);
        }
    }
}

/// Set every cell's first remaining tile (tile 0 where none remains).
fn resolved_ids(domains: &Vec<u32>, width: usize, height: usize) -> (ids: Vec<Vec<usize>>)
    requires
        domains@.len() == width * height,
    ensures
        ids@.len() == height,
        forall|y: int| 0 <= y < height ==> (#[trigger] ids@[y])@.len() == width,
        forall|y: int, x: int| 0 <= y < height && 0 <= x < width ==> (#[trigger] ids@[y]@[x]) < WFC_TILE_COUNT,
        forall|y: int, x: int|
            0 <= y < height && 0 <= x < width && domains@[y * width + x] != 0 && domains@[y * width + x] <= 0xFFF
                ==> holds_tile(domains@[y * width + x], #[trigger] ids@[y]@[x] as int),
{
    let n = domains.len();
    let mut ids: Vec<Vec<usize>> = Vec::new();
    let mut y: usize = 0;
    while y < height
        invariant
            y <= height,
            domains@.len() == width * height,
            n == domains@.len(),
            ids@.len() == y,
            forall|yy: int| 0 <= yy < y ==> (#[trigger] ids@[yy])@.len() == width,
            forall|yy: int, x: int| 0 <= yy < y && 0 <= x < width ==> (#[trigger] ids@[yy]@[x]) < WFC_TILE_COUNT,
            forall|yy: int, x: int|
                0 <= yy < y && 0 <= x < width && domains@[yy * width + x] != 0 && domains@[yy * width + x] <= 0xFFF
                    ==> holds_tile(domains@[yy * width + x], #[trigger] ids@[yy]@[x] as int),
        decreases height - y,
    {
        let mut row: Vec<usize> = Vec::new();
        let mut x: usize = 0;
        while x < width
            invariant
                x <= width,
                y < height,
                domains@.len() == width * height,
                n == domains@.len(),
                row@.len() == x,
                forall|k: int| 0 <= k < x ==> (#[trigger] row@[k]) < WFC_TILE_COUNT,
                forall|k: int|
                    0 <= k < x && domains@[y * width + k] != 0 && domains@[y * width + k] <= 0xFFF
                        ==> holds_tile(domains@[y * width + k], #[trigger] row@[k] as int),
            decreases width - x,
        {
            proof {
                lemma_cell_index(x as int, y as int, width as int, height as int);
            }
            assert(y * width + x < n);
            let d = domains[y * width + x];
            let mut tile_id: usize = 0;
            let mut found = false;
            let mut t: usize = 0;
            while t < WFC_TILE_COUNT && !found
                invariant
                    t <= WFC_TILE_COUNT,
                    tile_id < WFC_TILE_COUNT,
                    found ==> holds_tile(d, tile_id as int),
                    !found ==> forall|s: u32| s < t ==> #[trigger] (d & (1u32 << s)) == 0,
                decreases WFC_TILE_COUNT - t + (if found { 0int } else { 1int }),
            {
                if (d & (1u32 << (t as u32))) != 0 {
                    proof {
                        lemma_has_test(d, t as u32);
                    }
                    tile_id = t;
                    found = true;
                } else {
                    t += 1;
                }
            }
            proof {
                if !found && d <= 0xFFF {
                    assert(d & (1u32 << 0u32) == 0);
                    assert(d & (1u32 << 1u32) == 0);
                    assert(d & (1u32 << 2u32) == 0);
                    assert(d & (1u32 << 3u32) == 0);
                    assert(d & (1u32 << 4u32) == 0);
                    assert(d & (1u32 << 5u32) == 0);
                    assert(d & (1u32 << 6u32) == 0);
                    assert(d & (1u32 << 7u32) == 0);
                    assert(d & (1u32 << 8u32) == 0);
                    assert(d & (1u32 << 9u32) == 0);
                    assert(d & (1u32 << 10u32) == 0);
                    assert(d & (1u32 << 11u32) == 0);
                    lemma_no_low_bit_is_zero(d);
                }
            }
            row.push(tile_id);
            x += 1;
        }
        ids.push(row);
        y += 1;
    }
    ids
}

/// Whether tile `ids[y][x]` connects through side `d`.
pub open spec fn id_edge(ids: Seq<Vec<usize>>, x: int, y: int, d: int) -> bool {
    edges_spec(ids[y]@[x] as int)[d]
}

/// `cell_fits`, stated over tile indices.
pub open spec fn id_cell_fits(ids: Seq<Vec<usize>>, w: int, h: int, x: int, y: int) -> bool {
    &&& if y == 0 {
        !id_edge(ids, x, y, 0)
    } else {
        id_edge(ids, x, y, 0) == id_edge(ids, x, y - 1, 2)
    }
    &&& if x + 1 == w {
        !id_edge(ids, x, y, 1)
    } else {
        id_edge(ids, x, y, 1) == id_edge(ids, x + 1, y, 3)
    }
    &&& if y + 1 == h {
        !id_edge(ids, x, y, 2)
    } else {
        id_edge(ids, x, y, 2) == id_edge(ids, x, y + 1, 0)
    }
    &&& if x == 0 {
        !id_edge(ids, x, y, 3)
    } else {
        id_edge(ids, x, y, 3) == id_edge(ids, x - 1, y, 1)
    }
}

/// A `w` by `h` grid of tile indices below the tile count.
pub open spec fn ids_shaped(ids: Seq<Vec<usize>>, w: int, h: int) -> bool {
    &&& ids.len() == h
    &&& forall|y: int| 0 <= y < h ==> (#[trigger] ids[y])@.len() == w
    &&& forall|y: int, x: int| 0 <= y < h && 0 <= x < w ==> (#[trigger] ids[y]@[x]) < WFC_TILE_COUNT
}

/// Whether every cell of the resolved grid meets its neighbours edge to edge
/// and opens through no border.
fn ids_fit(ids: &Vec<Vec<usize>>, tiles: &Vec<WfcTile>, width: usize, height: usize) -> (ok: bool)
    requires
        ids_shaped(ids@, width as int, height as int),
        tiles@.len() == WFC_TILE_COUNT,
        forall|t: int| 0 <= t < 12 ==> (#[trigger] tiles@[t]).ch == symbol_spec(t) && tiles@[t].edges@ == edges_spec(t),
    ensures
        ok ==> forall|y: int, x: int| 0 <= y < height && 0 <= x < width ==> #[trigger] id_cell_fits(ids@, width as int, height as int, x, y),
{
    let mut y: usize = 0;
    while y < height
        invariant
            y <= height,
            ids_shaped(ids@, width as int, height as int),
            tiles@.len() == WFC_TILE_COUNT,
            forall|t: int| 0 <= t < 12 ==> (#[trigger] tiles@[t]).ch == symbol_spec(t) && tiles@[t].edges@ == edges_spec(t),
            forall|yy: int, x: int| 0 <= yy < y && 0 <= x < width ==> #[trigger] id_cell_fits(ids@, width as int, height as int, x, yy),
        decreases height - y,
    {
        let mut x: usize = 0;
        while x < width
            invariant
                x <= width,
                y < height,
                ids_shaped(ids@, width as int, height as int),
                tiles@.len() == WFC_TILE_COUNT,
                forall|t: int| 0 <= t < 12 ==> (#[trigger] tiles@[t]).ch == symbol_spec(t) && tiles@[t].edges@ == edges_spec(t),
                forall|yy: int, xx: int| 0 <= yy < y && 0 <= xx < width ==> #[trigger] id_cell_fits(ids@, width as int, height as int, xx, yy),
                forall|xx: int| 0 <= xx < x ==> #[trigger] id_cell_fits(ids@, width as int, height as int, xx, y as int),
            decreases width - x,
        {
            let e = tiles[ids[y][x]].edges;
            let up = if y == 0 { !e[0] } else { e[0] == tiles[ids[y - 1][x]].edges[2] };
            let right = if x + 1 == width { !e[1] } else { e[1] == tiles[ids[y][x + 1]].edges[3] };
            let down = if y + 1 == height { !e[2] } else { e[2] == tiles[ids[y + 1][x]].edges[0] };
            let left = if x == 0 { !e[3] } else { e[3] == tiles[ids[y][x - 1]].edges[1] };
            if !(up && right && down && left) {
                return false;
            }
            assert(id_cell_fits(ids@, width as int, height as int, x as int, y as int));
            x += 1;
        }
        y += 1;
    }
    true
}

/// One row of the grid per string, each tile drawn by its symbol.
fn render_ids(ids: &Vec<Vec<usize>>, tiles: &Vec<WfcTile>, width: usize, height: usize) -> (rows: Vec<String>)
    requires
        ids_shaped(ids@, width as int, height as int),
        tiles@.len() == WFC_TILE_COUNT,
        forall|t: int| 0 <= t < 12 ==> (#[trigger] tiles@[t]).ch == symbol_spec(t) && tiles@[t].edges@ == edges_spec(t),
    ensures
        rows@.len() == height,
        forall|y: int| 0 <= y < height ==> (#[trigger] rows@[y])@.len() == width,
        forall|y: int, x: int| 0 <= y < height && 0 <= x < width ==> (#[trigger] rows@[y]@[x]) == symbol_spec(ids@[y]@[x] as int),
{
    let mut rows: Vec<String> = Vec::new();
    let mut y: usize = 0;
    while y < height
        invariant
            y <= height,
            ids_shaped(ids@, width as int, height as int),
            tiles@.len() == WFC_TILE_COUNT,
            forall|t: int| 0 <= t < 12 ==> (#[trigger] tiles@[t]).ch == symbol_spec(t) && tiles@[t].edges@ == edges_spec(t),
            rows@.len() == y,
            forall|yy: int| 0 <= yy < y ==> (#[trigger] rows@[yy])@.len() == width,
            forall|yy: int, x: int| 0 <= yy < y && 0 <= x < width ==> (#[trigger] rows@[yy]@[x]) == symbol_spec(ids@[yy]@[x] as int),
        decreases height - y,
    {
        let mut chars: Vec<char> = Vec::new();
        let mut x: usize = 0;
        while x < width
            invariant
                x <= width,
                y < height,
                ids_shaped(ids@, width as int, height as int),
                tiles@.len() == WFC_TILE_COUNT,
                forall|t: int| 0 <= t < 12 ==> (#[trigger] tiles@[t]).ch == symbol_spec(t) && tiles@[t].edges@ == edges_spec(t),
                chars@.len() == x,
                forall|k: int| 0 <= k < x ==> (#[trigger] chars@[k]) == symbol_spec(ids@[y as int]@[k] as int),
            decreases width - x,
        {
            chars.push(tiles[ids[y][x]].ch);
            x += 1;
        }
        let row = chars_to_string(&chars);
        rows.push(row);
        y += 1;
    }
    rows
}

proof fn lemma_symbol_round_trip(t: int)
    requires
        0 <= t < 12,
    ensures
        symbol_index(symbol_spec(t)) == t,
{
}

proof fn lemma_rows_from_ids(ids: Seq<Vec<usize>>, rows: Seq<Seq<char>>, w: int, h: int)
    requires
        ids_shaped(ids, w, h),
        rows.len() == h,
        forall|y: int| 0 <= y < h ==> (#[trigger] rows[y]).len() == w,
        forall|y: int, x: int| 0 <= y < h && 0 <= x < w ==> (#[trigger] rows[y][x]) == symbol_spec(ids[y]@[x] as int),
        forall|y: int, x: int| 0 <= y < h && 0 <= x < w ==> #[trigger] id_cell_fits(ids, w, h, x, y),
    ensures
        maze_valid(rows, w, h),
{
    assert forall|y: int, x: int| 0 <= y < h && 0 <= x < w implies #[trigger] cell_fits(rows, w, h, x, y) by {
        assert(id_cell_fits(ids, w, h, x, y));
        lemma_symbol_round_trip(ids[y]@[x] as int);
        if y > 0 {
            lemma_symbol_round_trip(ids[y - 1]@[x] as int);
        }
        if y + 1 < h {
            lemma_symbol_round_trip(ids[y + 1]@[x] as int);
        }
        if x > 0 {
            lemma_symbol_round_trip(ids[y]@[x - 1] as int);
        }
        if x + 1 < w {
            lemma_symbol_round_trip(ids[y]@[x + 1] as int);
        }
    }
}

proof fn lemma_unique_tile(d: u32, t: int, u: int)
    requires
        bit_count(d) <= 1,
        0 <= t < 12,
        0 <= u < 12,
        holds_tile(d, t),
        holds_tile(d, u),
    ensures
        t == u,
{
    if t < u {
        lemma_count_at_least_two(d, t, u, 32);
    } else if u < t {
        lemma_count_at_least_two(d, u, t, 32);
    }
}

/// A grid of single tiles, each supported on every side and fitting its
/// borders, fits edge to edge.
proof fn lemma_resolved_fit(dom: Seq<u32>, ids: Seq<Vec<usize>>, w: int, h: int)
    requires
        w > 0,
        h > 0,
        dom.len() == w * h,
        forall|i: int, dir: int| 0 <= i < dom.len() && 0 <= dir < 4 ==> #[trigger] supported(dom, w, h, i, dir),
        within_borders(dom, w, h),
        forall|i: int| 0 <= i < dom.len() ==> bit_count(#[trigger] dom[i]) <= 1,
        ids_shaped(ids, w, h),
        forall|y: int, x: int| 0 <= y < h && 0 <= x < w ==> holds_tile(dom[y * w + x], #[trigger] ids[y]@[x] as int),
    ensures
        forall|y: int, x: int| 0 <= y < h && 0 <= x < w ==> #[trigger] id_cell_fits(ids, w, h, x, y),
{
    assert forall|y: int, x: int| 0 <= y < h && 0 <= x < w implies #[trigger] id_cell_fits(ids, w, h, x, y) by {
        lemma_cell_index(x, y, w, h);
        let i = y * w + x;
        let t0 = ids[y]@[x] as int;
        assert(holds_tile(dom[i], t0));
        assert(border_ok(t0, i, w, h));
        assert((y - 1) * w == y * w - w) by (nonlinear_arith);
        assert((y + 1) * w == y * w + w) by (nonlinear_arith);
        if y > 0 {
            lemma_cell_index(x, y - 1, w, h);
            let u = ids[y - 1]@[x] as int;
            assert(holds_tile(dom[(y - 1) * w + x], u));
            assert(nb(i, 0, w, h) == (y - 1) * w + x);
            assert(supported(dom, w, h, i, 0));
            let t = choose|t: int| 0 <= t < 12 && #[trigger] holds_tile(dom[i], t) && fits_side(t, u, 0);
            lemma_unique_tile(dom[i], t, t0);
        }
        if x + 1 < w {
            lemma_cell_index(x + 1, y, w, h);
            let u = ids[y]@[x + 1] as int;
            assert(holds_tile(dom[y * w + (x + 1)], u));
            assert(nb(i, 1, w, h) == y * w + (x + 1));
            assert(supported(dom, w, h, i, 1));
            let t = choose|t: int| 0 <= t < 12 && #[trigger] holds_tile(dom[i], t) && fits_side(t, u, 1);
            lemma_unique_tile(dom[i], t, t0);
        }
        if y + 1 < h {
            lemma_cell_index(x, y + 1, w, h);
            let u = ids[y + 1]@[x] as int;
            assert(holds_tile(dom[(y + 1) * w + x], u));
            assert(nb(i, 2, w, h) == (y + 1) * w + x);
            assert(supported(dom, w, h, i, 2));
            let t = choose|t: int| 0 <= t < 12 && #[trigger] holds_tile(dom[i], t) && fits_side(t, u, 2);
            lemma_unique_tile(dom[i], t, t0);
        }
        if x > 0 {
            lemma_cell_index(x - 1, y, w, h);
            let u = ids[y]@[x - 1] as int;
            assert(holds_tile(dom[y * w + (x - 1)], u));
            assert(nb(i, 3, w, h) == y * w + (x - 1));
            assert(supported(dom, w, h, i, 3));
            let t = choose|t: int| 0 <= t < 12 && #[trigger] holds_tile(dom[i], t) && fits_side(t, u, 3);
            lemma_unique_tile(dom[i], t, t0);
        }
    }
}

/// Whether some cell has no tile left.
fn has_empty_domain(domains: &Vec<u32>) -> (r: bool)
    ensures
        r == exists|i: int| 0 <= i < domains@.len() && domains@[i] == 0,
{
    let mut i: usize = 0;
    while i < domains.len()
        invariant
            i <= domains@.len(),
            forall|k: int| 0 <= k < i ==> domains@[k] != 0,
        decreases domains@.len() - i,
    {
        if domains[i] == 0 {
            return true;
        }
        i += 1;
    }
    false
}

/// The grid drawn with the blank tile only.
fn blank_rows(width: usize, height: usize) -> (rows: Vec<String>)
    ensures
        maze_valid(rows_view(rows@), width as int, height as int),
{
    let mut chars: Vec<char> = Vec::new();
    let mut x: usize = 0;
    while x < width
        invariant
            x <= width,
            chars@.len() == x,
            forall|k: int| 0 <= k < x ==> chars@[k] == ' ',
        decreases width - x,
    {
        chars.push(' ');
        x += 1;
    }
    let mut rows: Vec<String> = Vec::new();
    let mut y: usize = 0;
    while y < height
        invariant
            y <= height,
            chars@.len() == width,
            forall|k: int| 0 <= k < width ==> chars@[k] == ' ',
            rows@.len() == y,
            forall|yy: int| 0 <= yy < y ==> (#[trigger] rows@[yy])@ == chars@,
        decreases height - y,
    {
        rows.push(chars_to_string(&chars));
        y += 1;
    }
    let ghost v = rows_view(rows@);
    assert forall|yy: int, xx: int| 0 <= yy < height && 0 <= xx < width implies #[trigger] cell_fits(v, width as int, height as int, xx, yy) by {
        assert(v[yy] == rows@[yy]@);
        if yy > 0 {
            assert(v[yy - 1] == rows@[yy - 1]@);
        }
        if yy + 1 < height {
            assert(v[yy + 1] == rows@[yy + 1]@);
        }
    }
    rows
}

/// The candidate tiles of domain `d` among tiles `0..t`, in increasing order.
pub open spec fn candidates_upto(d: u32, t: nat) -> Seq<usize>
    decreases t,
{
    if t == 0 {
        Seq::empty()
    } else {
        let p = candidates_upto(d, (t - 1) as nat);
        if holds_tile(d, t - 1) {
            p.push((t - 1) as usize)
        } else {
            p
        }
    }
}

/// The candidate tiles of domain `d`, in increasing order.
pub open spec fn candidates(d: u32) -> Seq<usize> {
    candidates_upto(d, 12)
}

proof fn lemma_candidates_upto(d: u32, t: nat)
    requires
        t <= 12,
    ensures
        forall|k: int| 0 <= k < candidates_upto(d, t).len() ==> (#[trigger] candidates_upto(d, t)[k]) < t && holds_tile(d, candidates_upto(d, t)[k] as int),
        forall|u: int| 0 <= u < t && holds_tile(d, u) ==> #[trigger] candidates_upto(d, t).contains(u as usize),
    decreases t,
{
    if t > 0 {
        lemma_candidates_upto(d, (t - 1) as nat);
        let p = candidates_upto(d, (t - 1) as nat);
        let q = candidates_upto(d, t);
        assert forall|u: int| 0 <= u < t && holds_tile(d, u) implies #[trigger] q.contains(u as usize) by {
            if u < t - 1 {
                assert(p.contains(u as usize));
                let k = choose|k: int| 0 <= k < p.len() && p[k] == u as usize;
                assert(q[k] == p[k]);
            } else {
                assert(q[q.len() - 1] == u as usize);
            }
        }
    }
}

/// The tiles still possible in domain `d`, in increasing order.
pub fn candidate_tiles(d: u32) -> (r: Vec<usize>)
    ensures
        r@ == candidates(d),
{
    let mut options: Vec<usize> = Vec::new();
    let mut t: usize = 0;
    while t < WFC_TILE_COUNT
        invariant
            t <= WFC_TILE_COUNT,
            options@ == candidates_upto(d, t as nat),
        decreases WFC_TILE_COUNT - t,
    {
        proof {
            lemma_has_test(d, t as u32);
        }
        if (d & (1u32 << (t as u32))) != 0 {
            options.push(t);
        }
        t += 1;
    }
    options
}

proof fn lemma_nonzero_has_tile(d: u32)
    requires
        d <= 0xFFF,
        d != 0,
    ensures
        exists|u: int| 0 <= u < 12 && #[trigger] holds_tile(d, u),
{
    if !(exists|u: int| 0 <= u < 12 && #[trigger] holds_tile(d, u)) {
        assert forall|s: u32| s < 12 implies #[trigger] (d & (1u32 << s)) == 0 by {
            lemma_has_test(d, s);
            assert(!holds_tile(d, s as int));
        }
        assert(d & (1u32 << 0u32) == 0);
        assert(d & (1u32 << 1u32) == 0);
        assert(d & (1u32 << 2u32) == 0);
        assert(d & (1u32 << 3u32) == 0);
        assert(d & (1u32 << 4u32) == 0);
        assert(d & (1u32 << 5u32) == 0);
        assert(d & (1u32 << 6u32) == 0);
        assert(d & (1u32 << 7u32) == 0);
        assert(d & (1u32 << 8u32) == 0);
        assert(d & (1u32 << 9u32) == 0);
        assert(d & (1u32 << 10u32) == 0);
        assert(d & (1u32 << 11u32) == 0);
        lemma_no_low_bit_is_zero(d);
    }
}

/// One solver step: cell `cell` is collapsed to its `pick`-th candidate
/// (in increasing order) and the constraints are propagated. The domains
/// become the largest arc-consistent narrowing of the collapsed domains, as
/// far as propagation goes before a domain empties; the result is `true`
/// exactly when no domain is empty, and then the collapsed cell holds exactly
/// the chosen tile and, if every cell was supported on every side before,
/// every cell still is.
pub fn collapse_and_propagate(
    domains: &mut Vec<u32>,
    cell: usize,
    pick: usize,
    compat: &Vec<u32>,
    width: usize,
    height: usize,
) -> (ok: bool)
    requires
        old(domains)@.len() == width * height,
        width > 0,
        cell < old(domains)@.len(),
        pick < candidates(old(domains)@[cell as int]).len(),
        bit_count(old(domains)@[cell as int]) > 1,
        compat@.len() == 4 * WFC_TILE_COUNT,
        forall|t: int, dir: int, u: int|
            0 <= t < 12 && 0 <= dir < 4 && 0 <= u < 12 ==> (#[trigger] holds_tile(compat@[4 * t + dir], u)) == fits_side(t, u, dir),
        within_tileset(old(domains)@),
        within_borders(old(domains)@, width as int, height as int),
        !has_empty(old(domains)@),
    ensures
        ({
            let c = candidates(old(domains)@[cell as int])[pick as int];
            let start = old(domains)@.update(cell as int, 1u32 << (c as u32));
            &&& below(final(domains)@, start)
            &&& forall|f: Seq<u32>| closed(f, width as int, height as int) && #[trigger] below(f, start) ==> below(f, final(domains)@)
            &&& ok ==> forall|u: int| 0 <= u < 12 ==> #[trigger] holds_tile(final(domains)@[cell as int], u) == (u == c)
        }),
        ok == !has_empty(final(domains)@),
        closed(old(domains)@, width as int, height as int) && ok ==> closed(final(domains)@, width as int, height as int),
        final(domains)@.len() == width * height,
        within_tileset(final(domains)@),
        within_borders(final(domains)@, width as int, height as int),
        mask_sum(final(domains)@) < mask_sum(old(domains)@),
{
    let ghost w = width as int;
    let ghost h = height as int;
    let d = domains[cell];
    let options = candidate_tiles(d);
    let choice = options[pick];
    proof {
        lemma_candidates_upto(d, 12);
        assert(choice < 12 && holds_tile(d, choice as int));
        lemma_has_test(d, choice as u32);
    }
    let single = 1u32 << (choice as u32);
    let ghost dom_before = domains@;
    proof {
        lemma_single_bit_in_tileset(choice as u32);
        lemma_count_single(choice as u32, 32);
        lemma_single_bit_below(d, choice as u32);
        lemma_mask_sum_update(domains@, cell as int, single);
        assert forall|u: int| 0 <= u < 12 implies #[trigger] holds_tile(single, u) == (u == choice) by {
            lemma_bit_of_single(choice as u32, u as u32);
        }
        if closed(dom_before, w, h) {
        assert(consistent(dom_before, Seq::<usize>::empty(), 0, w, h)) by {
            assert forall|i: int, dir: int| 0 <= i < dom_before.len() && 0 <= dir < 4 implies #[trigger] supported(dom_before, w, h, i, dir)
                || pending(Seq::<usize>::empty(), 0, i) || (i == -1 && dir >= 4) by {
                assert(closed(dom_before, w, h));
            }
        }
        }
    }
    domains.set(cell, single);
    let mut queue: VecDeque<usize> = VecDeque::new();
    queue.push_back(cell);
    proof {
        if closed(dom_before, w, h) {
            lemma_narrow_and_queue(dom_before, Seq::<usize>::empty(), 0, w, h, -1, 4, cell as int, single);
        }
        assert(domains@ == dom_before.update(cell as int, single));
        assert(queue@ == Seq::<usize>::empty().push(cell));
        assert forall|j: int, tt: int| 0 <= j < domains@.len() && 0 <= tt < 12 && #[trigger] holds_tile(domains@[j], tt) implies border_ok(tt, j, w, h) by {
            if j == cell {
                assert(holds_tile(dom_before[j], tt));
            } else {
                assert(domains@[j] == dom_before[j]);
            }
        }
    }
    let ghost start = domains@;
    propagate(domains, &mut queue, compat, width, height, Ghost(closed(dom_before, w, h)));
    let ok = !has_empty_domain(domains);
    proof {
        if ok {
            assert(!has_empty(domains@));
            if closed(dom_before, w, h) {
                assert forall|i: int, dir: int| 0 <= i < domains@.len() && 0 <= dir < 4 implies #[trigger] supported(domains@, w, h, i, dir) by {
                    assert(supported(domains@, w, h, i, dir) || pending(queue@, 0, i) || (i == -1 && dir >= 4));
                }
            }
            let fc = domains@[cell as int];
            assert(narrower(fc, start[cell as int]));
            assert(fc != 0);
            lemma_nonzero_has_tile(fc);
            assert forall|u: int| 0 <= u < 12 implies #[trigger] holds_tile(fc, u) == (u == choice) by {
                if u == choice {
                    let v = choose|v: int| 0 <= v < 12 && #[trigger] holds_tile(fc, v);
                    assert(holds_tile(single, v));
                }
            }
        }
    }
    ok
}

/// One attempt of the solver: fresh domains, then rounds that collapse the
/// least-undecided cell (fewest candidates above one, first in scan order) to
/// a randomly drawn candidate and propagate, until every cell is decided
/// (the resolved maze) or a domain empties (`None`).
pub fn wfc_attempt(
    tiles: &Vec<WfcTile>,
    compat: &Vec<u32>,
    width: usize,
    height: usize,
    rng: &mut StdRng,
) -> (r: Option<Vec<String>>)
    requires
        width >= 1,
        height >= 1,
        width * height <= usize::MAX,
        tiles@.len() == WFC_TILE_COUNT,
        forall|t: int| 0 <= t < 12 ==> (#[trigger] tiles@[t]).ch == symbol_spec(t) && tiles@[t].edges@ == edges_spec(t),
        compat@.len() == 4 * WFC_TILE_COUNT,
        forall|t: int, dir: int, u: int|
            0 <= t < 12 && 0 <= dir < 4 && 0 <= u < 12 ==> (#[trigger] holds_tile(compat@[4 * t + dir], u)) == fits_side(t, u, dir),
    ensures
        r matches Some(rows) ==> maze_valid(rows_view(rows@), width as int, height as int),
{
    let all_mask: u32 = 0xFFF;
    let mut domains = initial_domains(&tiles, width, height, all_mask);
    proof {
        let w = width as int;
        let h = height as int;
        if w >= 2 && h >= 2 {
            lemma_fresh_consistent(domains@, w, h);
        }
        assert forall|j: int, t: int| 0 <= j < domains@.len() && 0 <= t < 12 && #[trigger] holds_tile(domains@[j], t) implies border_ok(t, j, w, h) by {
            assert(fresh_at(domains@, j, w, h));
        }
        assert(!has_empty(domains@)) by {
            if has_empty(domains@) {
                let k = choose|k: int| 0 <= k < domains@.len() && domains@[k] == 0;
                assert(fresh_at(domains@, k, w, h));
                assert(border_ok(0, k, w, h));
                lemma_has_zero(0);
            }
        }
        if w >= 2 && h >= 2 {
            assert forall|i: int, dir: int| 0 <= i < domains@.len() && 0 <= dir < 4 implies #[trigger] supported(domains@, w, h, i, dir) by {
                assert(supported(domains@, w, h, i, dir) || pending(Seq::<usize>::empty(), 0, i) || (i == -1 && dir >= 4));
            }
        }
    }
    loop
        invariant_except_break
            !has_empty(domains@),
            (width >= 2 && height >= 2) ==> closed(domains@, width as int, height as int),
        invariant
            width >= 1,
            height >= 1,
            width * height <= usize::MAX,
            tiles@.len() == WFC_TILE_COUNT,
            forall|t: int| 0 <= t < 12 ==> (#[trigger] tiles@[t]).ch == symbol_spec(t) && tiles@[t].edges@ == edges_spec(t),
            compat@.len() == 4 * WFC_TILE_COUNT,
            forall|t: int, dir: int, u: int|
                0 <= t < 12 && 0 <= dir < 4 && 0 <= u < 12 ==> (#[trigger] holds_tile(compat@[4 * t + dir], u)) == fits_side(t, u, dir),
            domains@.len() == width * height,
            within_tileset(domains@),
            within_borders(domains@, width as int, height as int),
        decreases mask_sum(domains@),
    {
        match lowest_entropy_cell(&domains) {
            Some(i) => {
                let d = domains[i];
                if d == 0 {
                    break;
                }
                let options = candidate_tiles(d);
                proof {
                    lemma_nonzero_has_tile(d);
                    let u = choose|u: int| 0 <= u < 12 && #[trigger] holds_tile(d, u);
                    lemma_candidates_upto(d, 12);
                    assert(options@.contains(u as usize));
                }
                let k = random_index(rng, options.len());
                let ok = collapse_and_propagate(&mut domains, i, k, &compat, width, height);
                if !ok {
                    break;
                }
            },
            None => {
                if has_empty_domain(&domains) {
                    break;
                }
                let ids = resolved_ids(&domains, width, height);
                // Fresh domains are arc consistent once the grid is at
                // least two tiles each way, and propagation keeps them so;
                // a grid one tile wide or high is checked edge to edge.
                let fits = if width >= 2 && height >= 2 {
                    proof {
                        let w = width as int;
                        let h = height as int;
                        assert forall|y: int, x: int| 0 <= y < h && 0 <= x < w implies holds_tile(domains@[y * w + x], #[trigger] ids@[y]@[x] as int) by {
                            lemma_cell_index(x, y, w, h);
                            assert(domains@[y * w + x] <= 0xFFF);
                            assert(domains@[y * w + x] != 0);
                        }
                        assert forall|i: int, dir: int| 0 <= i < domains@.len() && 0 <= dir < 4 implies #[trigger] supported(domains@, w, h, i, dir) by {
                            assert(closed(domains@, w, h));
                        }
                        lemma_resolved_fit(domains@, ids@, w, h);
                    }
                    true
                } else {
                    ids_fit(&ids, &tiles, width, height)
                };
                if !fits {
                    break;
                }
                let rows = render_ids(&ids, &tiles, width, height);
                proof {
                    let v = rows_view(rows@);
                    assert forall|y: int| 0 <= y < height implies (#[trigger] v[y]).len() == width by {
                        assert(v[y] == rows@[y]@);
                    }
                    assert forall|y: int, x: int| 0 <= y < height && 0 <= x < width implies (#[trigger] v[y][x]) == symbol_spec(ids@[y]@[x] as int) by {
                        assert(v[y] == rows@[y]@);
                    }
                    lemma_rows_from_ids(ids@, v, width as int, height as int);
                }
                return Some(rows);
            },
        }
        proof {
            lemma_mask_sum_nonneg(domains@);
        }
    }
    None
}

/// A `width` by `height` maze of box-drawing tiles, one string per row, found
/// by wave function collapse: up to ten independent attempts, and the blank
/// grid when every one of them reached an empty domain. Whatever comes back,
/// every tile meets its neighbours edge to edge and no path leaves the grid.
pub fn generate_wfc_tilemap(width: usize, height: usize, rng: &mut StdRng) -> (r: Vec<String>)
    requires
        width >= 1,
        height >= 1,
        width * height <= usize::MAX,
    ensures
        maze_valid(rows_view(r@), width as int, height as int),
{
    let tiles = wfc_tileset();
    let compat = build_compat(&tiles);
    let mut attempts: u32 = 0;
    while attempts < WFC_MAX_ATTEMPTS
        invariant
            width >= 1,
            height >= 1,
            width * height <= usize::MAX,
            tiles@.len() == WFC_TILE_COUNT,
            forall|t: int| 0 <= t < 12 ==> (#[trigger] tiles@[t]).ch == symbol_spec(t) && tiles@[t].edges@ == edges_spec(t),
            compat@.len() == 4 * WFC_TILE_COUNT,
            forall|t: int, dir: int, u: int|
                0 <= t < 12 && 0 <= dir < 4 && 0 <= u < 12 ==> (#[trigger] holds_tile(compat@[4 * t + dir], u)) == fits_side(t, u, dir),
        decreases WFC_MAX_ATTEMPTS - attempts,
    {
        attempts += 1;
        match wfc_attempt(&tiles, &compat, width, height, rng) {
            Some(rows) => {
                return rows;
            },
            None => {},
        }
    }
    blank_rows(width, height)
}

} // verus!
