//! Procedural level generation for tile-grid games: room-and-corridor
//! dungeons, wide rounded marble-track channels with elevation and obstacles,
//! and mazes solved by wave function collapse.
pub mod carve;
pub mod cli;
pub mod connectivity;
pub mod dungeon;
pub mod elevation;
pub mod marble;
pub mod obstacles;
pub mod rng;
pub mod room;
pub mod text;
pub mod tiles;
pub mod visualize;
pub mod wfc;

pub use cli::ModeArg;
pub use dungeon::{generate, GenerationMode, GeneratorParams, Level};
pub use room::Room;
pub use tiles::{Direction, MarbleTile, TileType};
pub use visualize::to_ascii;
