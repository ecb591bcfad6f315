use level_generator::carve::{
    carve_horizontal_tunnel, carve_quarter_disk, carve_vertical_tunnel, carve_wide_horizontal, set_floor,
    Quadrant, TILE_FLOOR, TILE_WALL,
};
use level_generator::cli::{parse_mode, ModeArg};
use level_generator::elevation::create_corridor_elevation_map;
use level_generator::marble::{count_connections_downstream, grid_to_marble_tiles};
use level_generator::obstacles::place_obstacles_in_rooms;
use level_generator::room::{intersects_with_margin, place_rooms, sort_rooms_by_center_x, Room};
use level_generator::tiles::{Direction, MarbleTile, TileType};
use level_generator::wfc::{build_compat, generate_wfc_tilemap, opposite, wfc_attempt, wfc_tileset};
use rand::rngs::StdRng;
use rand::SeedableRng;

fn seeded_rng(seed: u64) -> StdRng {
    StdRng::seed_from_u64(seed)
}

fn walls(w: usize, h: usize) -> Vec<Vec<char>> {
    vec![vec![TILE_WALL; w]; h]
}

fn floors(g: &[Vec<char>]) -> Vec<(usize, usize)> {
    let mut out = Vec::new();
    for (y, row) in g.iter().enumerate() {
        for (x, c) in row.iter().enumerate() {
            if *c == TILE_FLOOR {
                out.push((x, y));
            }
        }
    }
    out
}

fn room(x: i32, y: i32, w: i32, h: i32) -> Room {
    Room { x, y, w, h, elevation: None }
}

#[test]
fn room_intersection_and_center() {
    let a = room(0, 0, 4, 4);
    assert!(a.intersects(&room(3, 3, 2, 2)));
    assert!(!a.intersects(&room(4, 0, 2, 2)));
    assert!(intersects_with_margin(&a, &room(4, 0, 2, 2), 1));
    assert!(!intersects_with_margin(&a, &room(5, 0, 2, 2), 1));
    assert_eq!(room(2, 3, 5, 4).center(), (4, 5));
    assert_eq!(room(-3, 0, -3, 1).center(), (-4, 0));
}

#[test]
fn set_floor_ignores_cells_off_the_grid() {
    let mut g = walls(3, 2);
    set_floor(&mut g, 2, 1);
    set_floor(&mut g, 3, 1);
    set_floor(&mut g, -1, 0);
    assert_eq!(floors(&g), vec![(2, 1)]);
}

#[test]
fn l_tunnels_cover_both_legs() {
    let mut g = walls(8, 6);
    carve_horizontal_tunnel(&mut g, 5, 1, 2);
    carve_vertical_tunnel(&mut g, 4, 2, 1);
    assert_eq!(floors(&g), vec![(1, 2), (2, 2), (3, 2), (4, 2), (5, 2), (1, 3), (1, 4)]);
}

#[test]
fn wide_channel_spans_half_width_each_side() {
    let mut g = walls(6, 7);
    carve_wide_horizontal(&mut g, 1, 2, 3, 3);
    assert_eq!(floors(&g), vec![(1, 2), (2, 2), (1, 3), (2, 3), (1, 4), (2, 4)]);
}

#[test]
fn quarter_ring_matches_its_formula() {
    let mut g = walls(15, 15);
    carve_quarter_disk(&mut g, 7, 7, 3, 2, Quadrant::Down);
    let (inner, outer) = (2i32, 3i32);
    let mut expected = Vec::new();
    for y in 0..15i32 {
        for x in 0..15i32 {
            let (dx, dy) = (x - 7, y - 7);
            let d2 = dx * dx + dy * dy;
            if dy >= 0 && d2 >= inner * inner && d2 <= outer * outer {
                expected.push((x as usize, y as usize));
            }
        }
    }
    assert_eq!(floors(&g), expected);
    assert!(g[7][7] == TILE_WALL);
    assert!(g[10][7] == TILE_FLOOR);
    assert!(g[11][7] == TILE_WALL);
    let mut none = walls(5, 5);
    carve_quarter_disk(&mut none, 2, 2, 0, 2, Quadrant::Left);
    assert!(floors(&none).is_empty());
}

#[test]
fn even_channel_is_exactly_as_wide() {
    let mut g = walls(6, 8);
    carve_wide_horizontal(&mut g, 1, 2, 3, 2);
    assert_eq!(floors(&g), vec![(1, 2), (2, 2), (1, 3), (2, 3)]);
}

#[test]
fn t_junction_rotation_is_its_missing_side() {
    let mut g = walls(5, 5);
    g[2][1] = TILE_FLOOR;
    g[2][2] = TILE_FLOOR;
    g[2][3] = TILE_FLOOR;
    g[1][2] = TILE_FLOOR;
    let e = vec![vec![0i32; 5]; 5];
    let m = grid_to_marble_tiles(&g, &e, 5, 5, false);
    assert_eq!(m[2][2].tile_type, TileType::TJunction);
    assert_eq!(m[2][2].rotation, 2);
}

#[test]
fn one_wide_grid_is_classified() {
    let g = vec![vec![TILE_FLOOR]; 3];
    let e = vec![vec![0i32; 1]; 3];
    let m = grid_to_marble_tiles(&g, &e, 1, 3, false);
    assert_eq!(m[0][0].tile_type, TileType::OpenPlatform);
    assert_eq!(m[1][0].tile_type, TileType::Straight);
    assert_eq!(m[2][0].tile_type, TileType::OpenPlatform);
}

#[test]
fn opposite_sides() {
    assert_eq!(opposite(0), 2);
    assert_eq!(opposite(1), 3);
    assert_eq!(opposite(3), 1);
}

#[test]
fn wfc_tilemap_has_the_asked_size() {
    let mut rng = seeded_rng(11);
    let rows = generate_wfc_tilemap(12, 10, &mut rng);
    assert_eq!(rows.len(), 10);
    assert!(rows.iter().all(|r| r.chars().count() == 12));
    let symbols = " ─│┌┐└┘├┤┬┴┼";
    assert!(rows.iter().all(|r| r.chars().all(|c| symbols.contains(c))));
    assert!(rows.iter().any(|r| r.chars().any(|c| c != ' ')));
}

#[test]
fn corridor_row_becomes_gates_between_platforms() {
    let mut g = walls(7, 5);
    for x in 1..6 {
        g[2][x] = TILE_FLOOR;
    }
    let e = vec![vec![0i32; 7]; 5];
    let m = grid_to_marble_tiles(&g, &e, 7, 5, false);
    let types: Vec<TileType> = (1..6).map(|x| m[2][x].tile_type).collect();
    assert_eq!(
        types,
        vec![TileType::OpenPlatform, TileType::OneWayGate, TileType::OneWayGate, TileType::OneWayGate, TileType::OpenPlatform]
    );
    assert_eq!(m[2][2].rotation, 1);
    assert_eq!(m[0][0].tile_type, TileType::Empty);
}

#[test]
fn column_run_becomes_gates_and_corner_a_curve() {
    // A vertical run from (2,1) down to (2,4), turning east to (4,4).
    let mut g = walls(7, 7);
    for y in 1..5 {
        g[y][2] = TILE_FLOOR;
    }
    g[4][3] = TILE_FLOOR;
    g[4][4] = TILE_FLOOR;
    let e = vec![vec![0i32; 7]; 7];
    let m = grid_to_marble_tiles(&g, &e, 7, 7, false);
    assert_eq!(m[1][2].tile_type, TileType::OpenPlatform);
    assert_eq!(m[2][2].tile_type, TileType::OneWayGate);
    assert_eq!(m[4][2].tile_type, TileType::Curve90);
    assert_eq!(m[4][2].rotation, 0);
}

#[test]
fn cross_with_long_arms_becomes_merge() {
    // Runs: north 5, south 2, east 3, west 3.
    let mut g = walls(15, 15);
    for i in 3..12 {
        g[7][i] = TILE_FLOOR;
    }
    for i in 1..11 {
        g[i][7] = TILE_FLOOR;
    }
    let e = vec![vec![0i32; 15]; 15];
    let m = grid_to_marble_tiles(&g, &e, 15, 15, false);
    assert_eq!(m[7][7].tile_type, TileType::Merge);
    assert_eq!(m[7][7].rotation, 0);
    // Equal longest runs in two directions leave the cross as it is.
    let mut tie = walls(15, 15);
    for i in 1..14 {
        tie[7][i] = TILE_FLOOR;
        tie[i][7] = TILE_FLOOR;
    }
    let mt = grid_to_marble_tiles(&tie, &e, 15, 15, false);
    assert_eq!(mt[7][7].tile_type, TileType::CrossJunction);
    let base = vec![vec![MarbleTile::with_params(TileType::Straight, 0, 0, true); 15]; 15];
    assert_eq!(count_connections_downstream(&base, &g, 15, 15, 7, 6, Direction::North), 5);
    assert_eq!(count_connections_downstream(&base, &g, 15, 15, 7, -1, Direction::North), 0);
}

#[test]
fn slopes_and_half_pipes_follow_elevation_steps() {
    let mut g = walls(8, 5);
    for x in 1..7 {
        g[2][x] = TILE_FLOOR;
    }
    let mut e = vec![vec![0i32; 8]; 5];
    for x in 4..7 {
        e[2][x] = 1;
    }
    let m = grid_to_marble_tiles(&g, &e, 8, 5, true);
    assert_eq!(m[2][3].tile_type, TileType::OneWayGate);
    assert_eq!(m[2][1].tile_type, TileType::OpenPlatform);
    let mut g2 = walls(5, 5);
    g2[1][1] = TILE_FLOOR;
    g2[2][1] = TILE_FLOOR;
    g2[2][2] = TILE_FLOOR;
    g2[2][3] = TILE_FLOOR;
    let mut e2 = vec![vec![0i32; 5]; 5];
    e2[2][3] = 1;
    e2[1][1] = 1;
    let m2 = grid_to_marble_tiles(&g2, &e2, 5, 5, true);
    assert_eq!(m2[2][1].tile_type, TileType::HalfPipe);
    assert_eq!(m2[2][3].tile_type, TileType::Slope);
    assert_eq!(m2[2][3].rotation, 1);
    assert_eq!(m2[1][1].tile_type, TileType::Slope);
    assert_eq!(m2[1][1].rotation, 0);
    assert_eq!(m2[1][1].elevation, 1);
}

#[test]
fn open_platform_next_to_a_step_becomes_slope() {
    let mut g = walls(5, 5);
    g[2][1] = TILE_FLOOR;
    g[2][2] = TILE_FLOOR;
    let mut e = vec![vec![0i32; 5]; 5];
    e[2][2] = 1;
    let m = grid_to_marble_tiles(&g, &e, 5, 5, true);
    assert_eq!(m[2][1].tile_type, TileType::Slope);
    assert_eq!(m[2][1].rotation, 1);
    assert_eq!(m[2][2].tile_type, TileType::Slope);
    assert_eq!(m[2][2].elevation, 1);
}

#[test]
fn elevations_spread_from_rooms_and_stay_in_range() {
    let mut g = walls(20, 5);
    let a = Room { x: 1, y: 1, w: 3, h: 3, elevation: Some(2) };
    let b = Room { x: 15, y: 1, w: 3, h: 3, elevation: Some(-2) };
    for y in 1..4 {
        for x in 1..4 {
            g[y][x] = TILE_FLOOR;
            g[y][x + 14] = TILE_FLOOR;
        }
    }
    for x in 4..15 {
        g[2][x] = TILE_FLOOR;
    }
    let e = create_corridor_elevation_map(&g, &[a, b].to_vec(), 20, 5);
    assert_eq!(e[1][1], 2);
    assert_eq!(e[3][17], -2);
    assert_eq!(e[0][0], 0);
    assert_eq!(e[2][4], 2);
    assert_eq!(e[2][14], -2);
    for row in &e {
        for v in row {
            assert!(-2 <= *v && *v <= 2);
        }
    }
}

#[test]
fn obstacles_land_inside_large_rooms_only() {
    let mut m = vec![vec![MarbleTile::with_params(TileType::OpenPlatform, 1, 0, false); 10]; 10];
    let rooms = vec![room(1, 1, 6, 6), room(7, 7, 3, 3)];
    let mut rng = seeded_rng(3);
    place_obstacles_in_rooms(&mut m, &rooms, &mut rng, 1000, 10, 10);
    let mut count = 0;
    for y in 0..10 {
        for x in 0..10 {
            if m[y][x].tile_type == TileType::Obstacle {
                count += 1;
                assert!((2..6).contains(&x) && (2..6).contains(&y));
                assert_eq!(m[y][x].elevation, 1);
                assert!(!m[y][x].has_walls);
            }
        }
    }
    assert!(count >= 1 && count <= 3);
    let mut walls_only = vec![vec![MarbleTile::empty(); 10]; 10];
    place_obstacles_in_rooms(&mut walls_only, &rooms, &mut rng, 1000, 10, 10);
    assert!(walls_only.iter().all(|r| r.iter().all(|t| t.tile_type == TileType::Empty)));
}

#[test]
fn placed_rooms_are_carved_and_sorted() {
    let mut g = walls(40, 20);
    let mut rng = seeded_rng(8);
    let mut rooms = place_rooms(&mut g, 6, 40, 20, 3, 6, Some(1), &mut rng);
    assert!(rooms.len() <= 6);
    for r in &rooms {
        let e = r.elevation.unwrap();
        assert!(-1 <= e && e <= 1);
        assert_eq!(g[r.y as usize][r.x as usize], TILE_FLOOR);
    }
    sort_rooms_by_center_x(&mut rooms);
    for i in 1..rooms.len() {
        assert!(rooms[i - 1].center().0 <= rooms[i].center().0);
    }
}

#[test]
fn sort_keeps_equal_keys_in_order() {
    let mut rooms = vec![room(5, 0, 2, 2), room(1, 1, 2, 2), room(5, 9, 2, 2), room(0, 4, 4, 2)];
    sort_rooms_by_center_x(&mut rooms);
    let ys: Vec<i32> = rooms.iter().map(|r| r.y).collect();
    assert_eq!(ys, vec![1, 4, 0, 9]);
}

#[test]
fn mode_names_parse_ignoring_case() {
    assert_eq!(parse_mode("Classic"), Ok(ModeArg::Classic));
    assert_eq!(parse_mode("DUNGEON"), Ok(ModeArg::Classic));
    assert_eq!(parse_mode("marbles"), Ok(ModeArg::Marble));
    assert_eq!(parse_mode("Wave"), Ok(ModeArg::Wfc));
    assert_eq!(parse_mode("MAZE"), Err("invalid mode: maze (expected classic|marble)".to_string()));
    let m: ModeArg = "WFC".parse().unwrap();
    assert_eq!(m, ModeArg::Wfc);
}

#[test]
fn negative_width_ring_is_empty() {
    let mut g = walls(9, 9);
    carve_quarter_disk(&mut g, 4, 4, 2, -4, Quadrant::Up);
    assert!(floors(&g).is_empty());
}

#[test]
fn elevations_stay_between_zero_and_room_levels() {
    let mut g = walls(16, 5);
    let a = Room { x: 1, y: 1, w: 3, h: 3, elevation: Some(2) };
    let b = Room { x: 12, y: 1, w: 3, h: 3, elevation: Some(1) };
    for y in 1..4 {
        for x in 1..4 {
            g[y][x] = TILE_FLOOR;
            g[y][x + 11] = TILE_FLOOR;
        }
    }
    for x in 4..12 {
        g[2][x] = TILE_FLOOR;
    }
    let e = create_corridor_elevation_map(&g, &[a, b].to_vec(), 16, 5);
    for (y, row) in e.iter().enumerate() {
        for (x, v) in row.iter().enumerate() {
            assert!(0 <= *v && *v <= 2);
            if g[y][x] != TILE_FLOOR {
                assert_eq!(*v, 0);
            }
        }
    }
    assert_eq!(e[2][13], 1);
    assert_eq!(e[1][2], 2);
}

#[test]
fn obstacle_count_follows_density() {
    let mut m = vec![vec![MarbleTile::with_params(TileType::OpenPlatform, 0, 0, false); 12]; 12];
    let rooms = vec![room(1, 1, 10, 10)];
    let mut rng = seeded_rng(5);
    place_obstacles_in_rooms(&mut m, &rooms, &mut rng, 200, 12, 12);
    let count = m.iter().flatten().filter(|t| t.tile_type == TileType::Obstacle).count();
    assert!(count >= 1 && count <= 2);
}

#[test]
fn one_wide_maze_is_blank() {
    let mut rng = seeded_rng(4);
    let rows = generate_wfc_tilemap(1, 6, &mut rng);
    assert_eq!(rows.len(), 6);
    assert!(rows.iter().all(|r| r == " "));
    let row = generate_wfc_tilemap(7, 1, &mut rng);
    assert_eq!(row, vec!["       ".to_string()]);
}

#[test]
fn density_above_one_places_more_obstacles() {
    let mut m = vec![vec![MarbleTile::with_params(TileType::OpenPlatform, 0, 0, false); 12]; 12];
    let rooms = vec![room(1, 1, 10, 10)];
    let mut rng = seeded_rng(6);
    place_obstacles_in_rooms(&mut m, &rooms, &mut rng, 3000, 12, 12);
    let count = m.iter().flatten().filter(|t| t.tile_type == TileType::Obstacle).count();
    assert!(count >= 1 && count <= 30);
}

#[test]
fn single_attempt_gives_a_full_grid_or_nothing() {
    let tiles = wfc_tileset();
    let compat = build_compat(&tiles);
    let symbols = " ─│┌┐└┘├┤┬┴┼";
    let mut successes = 0;
    for seed in 0..5u64 {
        let mut rng = seeded_rng(seed);
        if let Some(rows) = wfc_attempt(&tiles, &compat, 9, 7, &mut rng) {
            successes += 1;
            assert_eq!(rows.len(), 7);
            assert!(rows.iter().all(|r| r.chars().count() == 9 && r.chars().all(|c| symbols.contains(c))));
        }
    }
    assert!(successes >= 1);
}
