use level_generator::carve::{TILE_FLOOR, TILE_WALL};
use level_generator::dungeon::{generate, GenerationMode, GeneratorParams, Level};
use level_generator::tiles::TileType;
use level_generator::visualize::to_ascii;
use level_generator::wfc::wfc_tileset;

fn params_base() -> GeneratorParams {
    GeneratorParams {
        width: 60,
        height: 25,
        rooms: 10,
        min_room: 4,
        max_room: 10,
        seed: Some(42),
        mode: GenerationMode::Classic,
        channel_width: 2,
        corner_radius: 2,
        enable_elevation: false,
        max_elevation: 2,
        enable_obstacles: false,
        obstacle_density_permille: 300,
    }
}

fn count_chars(tiles: &[String], target: char) -> usize {
    tiles.iter().map(|row| row.chars().filter(|&c| c == target).count()).sum()
}

fn all_chars_in_set(tiles: &[String], allowed: &[char]) -> bool {
    let mut ok = true;
    for row in tiles {
        for ch in row.chars() {
            if !allowed.contains(&ch) {
                ok = false;
                break;
            }
        }
    }
    ok
}

fn parse_grid(tiles: &[String]) -> Vec<Vec<char>> {
    tiles.iter().map(|r| r.chars().collect::<Vec<char>>()).collect::<Vec<_>>()
}

fn reachable_floor_count(tiles: &[String]) -> Option<usize> {
    let grid = parse_grid(tiles);
    let h = grid.len();
    let w = grid[0].len();
    let mut start: Option<(usize, usize)> = None;
    for y in 0..h {
        for x in 0..w {
            if grid[y][x] == TILE_FLOOR {
                start = Some((x, y));
                break;
            }
        }
        if start.is_some() {
            break;
        }
    }
    let (sx, sy) = start?;
    let mut visited = vec![vec![false; w]; h];
    let mut q = std::collections::VecDeque::new();
    visited[sy][sx] = true;
    q.push_back((sx, sy));
    let mut floors_seen = 1usize;
    while let Some((x, y)) = q.pop_front() {
        let dirs = [(1, 0), (-1, 0), (0, 1), (0, -1)];
        for (dx, dy) in dirs {
            let nx = x as i32 + dx;
            let ny = y as i32 + dy;
            if nx >= 0 && ny >= 0 && (ny as usize) < h && (nx as usize) < w {
                let ux = nx as usize;
                let uy = ny as usize;
                if !visited[uy][ux] && grid[uy][ux] == TILE_FLOOR {
                    visited[uy][ux] = true;
                    floors_seen += 1;
                    q.push_back((ux, uy));
                }
            }
        }
    }
    Some(floors_seen)
}

fn edges_of(ch: char) -> [bool; 4] {
    let ts = wfc_tileset();
    let mut edges_by_char: std::collections::HashMap<char, [bool; 4]> = std::collections::HashMap::new();
    for t in &ts {
        edges_by_char.insert(t.ch, t.edges);
    }
    *edges_by_char.get(&ch).unwrap_or(&[false, false, false, false])
}

fn assert_maze_valid(a: &Level) {
    let h = a.tiles.len();
    let w = a.tiles[0].chars().count();
    for y in 0..h {
        let row: Vec<char> = a.tiles[y].chars().collect();
        for x in 0..w {
            let e = edges_of(row[x]);
            if y == 0 { assert!(!e[0]); } else {
                let ue = edges_of(a.tiles[y - 1].chars().nth(x).unwrap());
                assert_eq!(e[0], ue[2]);
            }
            if x + 1 == w { assert!(!e[1]); } else {
                let re = edges_of(a.tiles[y].chars().nth(x + 1).unwrap());
                assert_eq!(e[1], re[3]);
            }
            if y + 1 == h { assert!(!e[2]); } else {
                let de = edges_of(a.tiles[y + 1].chars().nth(x).unwrap());
                assert_eq!(e[2], de[0]);
            }
            if x == 0 { assert!(!e[3]); } else {
                let le = edges_of(a.tiles[y].chars().nth(x - 1).unwrap());
                assert_eq!(e[3], le[1]);
            }
        }
    }
}

#[test]
fn classic_deterministic_with_seed() {
    let mut p = params_base();
    p.mode = GenerationMode::Classic;
    p.seed = Some(123);
    let a = generate(&p);
    let b = generate(&p);
    assert_eq!(a.tiles, b.tiles);
    assert!(all_chars_in_set(&a.tiles, &[TILE_WALL, TILE_FLOOR]));
}

#[test]
fn marble_deterministic_with_seed() {
    let mut p = params_base();
    p.mode = GenerationMode::Marble;
    p.channel_width = 3;
    p.corner_radius = 3;
    p.seed = Some(999);
    let a = generate(&p);
    let b = generate(&p);
    assert_eq!(a.tiles, b.tiles);
    assert!(all_chars_in_set(&a.tiles, &[TILE_WALL, TILE_FLOOR]));
}

#[test]
fn classic_connectivity_of_floors() {
    let mut p = params_base();
    p.mode = GenerationMode::Classic;
    p.seed = Some(7);
    let lvl = generate(&p);
    let seen = match reachable_floor_count(&lvl.tiles) {
        Some(n) => n,
        None => return,
    };
    let total_floors = count_chars(&lvl.tiles, TILE_FLOOR);
    assert_eq!(seen, total_floors);
}

#[test]
fn wfc_deterministic_and_valid_adjacency() {
    let mut p = params_base();
    p.mode = GenerationMode::Wfc;
    p.width = 20;
    p.height = 10;
    p.seed = Some(2024);
    let a = generate(&p);
    let b = generate(&p);
    assert_eq!(a.tiles, b.tiles);
    assert_maze_valid(&a);
}

#[test]
fn classic_seed_123_is_repeatable_and_connected() {
    let mut p = params_base();
    p.seed = Some(123);
    let a = generate(&p);
    let b = generate(&p);
    assert_eq!(a.tiles, b.tiles);
    assert!(all_chars_in_set(&a.tiles, &[TILE_WALL, TILE_FLOOR]));
    assert_eq!(reachable_floor_count(&a.tiles), Some(count_chars(&a.tiles, TILE_FLOOR)));
    assert!(a.marble_tiles.is_none());
    assert_eq!(a.seed, 123);
}

#[test]
fn marble_seed_999_is_repeatable() {
    let mut p = params_base();
    p.mode = GenerationMode::Marble;
    p.channel_width = 3;
    p.corner_radius = 3;
    p.seed = Some(999);
    let a = generate(&p);
    let b = generate(&p);
    assert_eq!(a.tiles, b.tiles);
    let ma = a.marble_tiles.as_ref().unwrap();
    let mb = b.marble_tiles.as_ref().unwrap();
    assert_eq!(ma.len(), 25);
    for y in 0..ma.len() {
        assert_eq!(ma[y].len(), 60);
        for x in 0..ma[y].len() {
            assert_eq!(ma[y][x].tile_type, mb[y][x].tile_type);
            assert_eq!(ma[y][x].rotation, mb[y][x].rotation);
            assert!(ma[y][x].rotation < 4);
            let floor = a.tiles[y].chars().nth(x).unwrap() == TILE_FLOOR;
            assert_eq!(floor, ma[y][x].tile_type != TileType::Empty);
        }
    }
}

#[test]
fn maze_seed_2024_is_repeatable_and_valid() {
    let mut p = params_base();
    p.mode = GenerationMode::Wfc;
    p.width = 20;
    p.height = 10;
    p.seed = Some(2024);
    let a = generate(&p);
    let b = generate(&p);
    assert_eq!(a.tiles, b.tiles);
    assert_eq!(a.tiles.len(), 10);
    assert!(a.tiles.iter().all(|r| r.chars().count() == 20));
    assert!(a.rooms.is_empty());
    assert!(a.marble_tiles.is_none());
    assert_maze_valid(&a);
}

fn elevated_obstacle_params(obstacles: bool) -> GeneratorParams {
    let mut p = params_base();
    p.mode = GenerationMode::Marble;
    p.seed = Some(31337);
    p.enable_elevation = true;
    p.max_elevation = 2;
    p.enable_obstacles = obstacles;
    p.obstacle_density_permille = 400;
    p
}

#[test]
fn marble_elevation_and_obstacles_stay_in_bounds() {
    let with = generate(&elevated_obstacle_params(true));
    let without = generate(&elevated_obstacle_params(false));
    assert!(!with.rooms.is_empty());
    for r in &with.rooms {
        let e = r.elevation.unwrap();
        assert!(-2 <= e && e <= 2);
        let m = without.marble_tiles.as_ref().unwrap();
        for y in r.y..r.y + r.h {
            for x in r.x..r.x + r.w {
                assert_eq!(m[y as usize][x as usize].elevation, e);
            }
        }
    }
    assert_eq!(with.tiles, without.tiles);
    let mw = with.marble_tiles.as_ref().unwrap();
    let mo = without.marble_tiles.as_ref().unwrap();
    let mut obstacles = 0;
    for y in 0..mw.len() {
        for x in 0..mw[y].len() {
            assert!(mw[y][x].rotation < 4);
            assert!(-2 <= mw[y][x].elevation && mw[y][x].elevation <= 2);
            if mw[y][x].tile_type == TileType::Obstacle {
                obstacles += 1;
                assert!(mo[y][x].tile_type.is_passable());
                assert_ne!(mo[y][x].tile_type, TileType::Obstacle);
                assert_eq!(mw[y][x].elevation, mo[y][x].elevation);
            } else {
                assert_eq!(mw[y][x].tile_type, mo[y][x].tile_type);
            }
        }
    }
    assert!(obstacles > 0);
    for r in with.rooms.iter().filter(|r| r.w * r.h >= 30) {
        let mut inside = 0;
        for y in (r.y + 1)..(r.y + r.h - 1) {
            for x in (r.x + 1)..(r.x + r.w - 1) {
                if mw[y as usize][x as usize].tile_type == TileType::Obstacle {
                    inside += 1;
                }
            }
        }
        assert!(inside >= 1);
    }
}

#[test]
fn rooms_are_sorted_separated_and_inside() {
    let mut p = params_base();
    p.seed = Some(5);
    let lvl = generate(&p);
    assert!(lvl.rooms.len() <= 10);
    for (i, a) in lvl.rooms.iter().enumerate() {
        assert!(a.x >= 1 && a.y >= 1 && a.x + a.w + 2 <= 60 && a.y + a.h + 2 <= 25);
        assert!(a.w >= 4 && a.w <= 10 && a.h >= 4 && a.h <= 10);
        assert!(a.elevation.is_none());
        if i > 0 {
            assert!(lvl.rooms[i - 1].center().0 <= a.center().0);
        }
        for b in lvl.rooms.iter().skip(i + 1) {
            let touching = a.x - 1 < b.x + b.w && b.x < a.x + a.w + 1 && a.y - 1 < b.y + b.h && b.y < a.y + a.h + 1;
            assert!(!touching);
        }
        for y in a.y..a.y + a.h {
            assert_eq!(lvl.tiles[y as usize].chars().nth(a.x as usize), Some(TILE_FLOOR));
        }
    }
}

#[test]
fn small_sizes_are_raised_to_minimums() {
    let mut p = params_base();
    p.width = 3;
    p.height = 0;
    p.min_room = 0;
    p.max_room = 0;
    p.seed = Some(1);
    let lvl = generate(&p);
    assert_eq!(lvl.width, 10);
    assert_eq!(lvl.height, 10);
    assert_eq!(lvl.tiles.len(), 10);
    assert!(lvl.tiles.iter().all(|r| r.chars().count() == 10));
    for r in &lvl.rooms {
        assert!(r.w >= 3 && r.w <= 4);
    }
}

#[test]
fn zero_rooms_leaves_all_walls() {
    let mut p = params_base();
    p.rooms = 0;
    let lvl = generate(&p);
    assert!(lvl.rooms.is_empty());
    assert_eq!(count_chars(&lvl.tiles, TILE_FLOOR), 0);
}

#[test]
fn seed_is_recorded_when_drawn() {
    let mut p = params_base();
    p.seed = None;
    let lvl = generate(&p);
    p.seed = Some(lvl.seed);
    let again = generate(&p);
    assert_eq!(lvl.tiles, again.tiles);
}

#[test]
fn ascii_preview_joins_rows() {
    let mut p = params_base();
    p.seed = Some(9);
    let lvl = generate(&p);
    let ascii = to_ascii(&lvl);
    assert_eq!(ascii, lvl.tiles.join("\n"));
    assert_eq!(ascii.lines().count(), 25);
}

#[test]
fn default_params() {
    let d = GeneratorParams::default();
    assert_eq!(d.width, 80);
    assert_eq!(d.height, 25);
    assert_eq!(d.rooms, 12);
    assert_eq!(d.mode, GenerationMode::Classic);
    assert_eq!(d.obstacle_density_permille, 300);
    assert!(d.seed.is_none());
}

#[test]
fn classic_floor_connected_across_seeds() {
    for seed in 0..30u64 {
        let mut p = params_base();
        p.seed = Some(seed);
        p.width = 40 + (seed as u32 % 5) * 10;
        p.height = 20 + (seed as u32 % 3) * 5;
        let lvl = generate(&p);
        if let Some(seen) = reachable_floor_count(&lvl.tiles) {
            assert_eq!(seen, count_chars(&lvl.tiles, TILE_FLOOR), "seed {}", seed);
        }
    }
}

#[test]
fn marble_tiles_mark_exactly_the_floor() {
    let mut p = params_base();
    p.mode = GenerationMode::Marble;
    p.seed = Some(77);
    p.enable_elevation = true;
    let lvl = generate(&p);
    let m = lvl.marble_tiles.as_ref().unwrap();
    for (y, row) in lvl.tiles.iter().enumerate() {
        for (x, c) in row.chars().enumerate() {
            assert_eq!(c == TILE_FLOOR, m[y][x].tile_type != TileType::Empty);
            if m[y][x].tile_type == TileType::Empty {
                assert_eq!(m[y][x].elevation, 0);
                assert!(!m[y][x].has_walls);
            }
        }
    }
}

#[test]
fn negative_elevation_bound_is_clamped() {
    let mut p = params_base();
    p.mode = GenerationMode::Marble;
    p.enable_elevation = true;
    p.max_elevation = -3;
    p.seed = Some(12);
    let lvl = generate(&p);
    for r in &lvl.rooms {
        assert_eq!(r.elevation, Some(0));
    }
}
