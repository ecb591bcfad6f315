use level_generator::tiles::{Direction, MarbleTile, TileType};

#[test]
fn test_tile_creation() {
    let tile = MarbleTile::new(TileType::Straight);
    assert_eq!(tile.tile_type, TileType::Straight);
    assert_eq!(tile.elevation, 0);
    assert_eq!(tile.rotation, 0);
    assert!(tile.has_walls);
}

#[test]
fn test_tile_connections() {
    let straight = MarbleTile::new(TileType::Straight);
    assert_eq!(straight.connections().len(), 2);
    assert!(straight.connects(Direction::North));
    assert!(straight.connects(Direction::South));
    assert!(!straight.connects(Direction::East));
    assert!(!straight.connects(Direction::West));
}

#[test]
fn test_tile_rotation() {
    let mut curve = MarbleTile::new(TileType::Curve90);
    assert!(curve.connects(Direction::North));
    assert!(curve.connects(Direction::East));

    curve.rotation = 1; // Rotate 90° clockwise
    assert!(curve.connects(Direction::East));
    assert!(curve.connects(Direction::South));
}

#[test]
fn test_direction_opposite() {
    assert_eq!(Direction::North.opposite(), Direction::South);
    assert_eq!(Direction::East.opposite(), Direction::West);
}

#[test]
fn test_slope_compatibility() {
    let ground = MarbleTile::with_params(TileType::Straight, 0, 0, true);
    let slope = MarbleTile::with_params(TileType::Slope, 0, 0, true);
    let elevated = MarbleTile::with_params(TileType::Straight, 1, 0, true);

    // Slope at elevation 0 should connect to both ground (0) and elevated (1)
    assert!(slope.compatible_with(&ground, Direction::North));
    assert!(slope.compatible_with(&elevated, Direction::North));
}

#[test]
fn passability_and_walls_by_type() {
    assert!(!TileType::Empty.is_passable());
    assert!(!TileType::Obstacle.is_passable());
    assert!(TileType::Slope.is_passable());
    assert!(TileType::Merge.has_default_walls());
    assert!(!TileType::OpenPlatform.has_default_walls());
    assert!(!TileType::LaunchPad.has_default_walls());
}

#[test]
fn ascii_characters_by_type() {
    assert_eq!(TileType::Empty.to_ascii(true), '#');
    assert_eq!(TileType::Obstacle.to_ascii(false), 'O');
    assert_eq!(TileType::Straight.to_ascii(true), '.');
    assert_eq!(TileType::OpenPlatform.to_ascii(false), '·');
    assert_eq!(MarbleTile::empty().to_ascii(), '#');
}

#[test]
fn rotation_is_taken_mod_four() {
    let t = MarbleTile::with_params(TileType::Curve90, 3, 7, true);
    assert_eq!(t.rotation, 3);
    assert_eq!(t.elevation, 3);
    assert_eq!(Direction::West.rotate(1), Direction::North);
    assert_eq!(Direction::North.rotate(255), Direction::West);
    assert_eq!(Direction::South.rotate(2), Direction::North);
}

#[test]
fn connections_turn_with_rotation() {
    let t = MarbleTile::with_params(TileType::TJunction, 0, 1, true);
    assert_eq!(t.connections(), vec![Direction::East, Direction::South, Direction::West]);
    let pad = MarbleTile::with_params(TileType::LaunchPad, 0, 2, true);
    assert_eq!(pad.connections(), vec![Direction::South]);
    assert!(MarbleTile::empty().connections().is_empty());
}

#[test]
fn compatibility_needs_both_sides_and_equal_elevation() {
    let a = MarbleTile::with_params(TileType::Straight, 0, 0, true);
    let b = MarbleTile::with_params(TileType::Straight, 1, 0, true);
    let side = MarbleTile::with_params(TileType::Straight, 0, 1, true);
    assert!(a.compatible_with(&a.clone(), Direction::North));
    assert!(!a.compatible_with(&b, Direction::North));
    assert!(!a.compatible_with(&side, Direction::East));
    let high_slope = MarbleTile::with_params(TileType::Slope, 2, 0, true);
    assert!(!high_slope.compatible_with(&a, Direction::South));
}

#[test]
fn metadata_and_default() {
    let t = MarbleTile::new(TileType::Bridge).with_metadata("{\"k\":1}".to_string());
    assert_eq!(t.metadata, "{\"k\":1}");
    assert_eq!(t.tile_type, TileType::Bridge);
    let d = MarbleTile::default();
    assert_eq!(d.tile_type, TileType::Empty);
    assert!(!d.has_walls);
}
