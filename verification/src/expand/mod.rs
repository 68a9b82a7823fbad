//! The shapes of an expanded level: the Map16 tile grid a level loader
//! fills, where layer 2's objects sit in it, and the diagnostics a capture
//! reports. The loading itself is the caller's: these types hold and check
//! what it produced.
//!
//! The game keeps the grid in two byte planes: low bytes at `$7EC800` and
//! high bytes at `$7FC800`, `0x3800` bytes each.

pub mod diagnostics;
pub mod load;
pub mod oam;
pub mod tiles;

pub use diagnostics::{Diagnostic, Pass, summarize};
pub use load::level_rows;
pub use oam::{SpriteObject, object_sizes, screen_objects};
pub use tiles::{
    GRID_LEN, LAYER2_TILEMAP_LEN, LEVEL_SIZES, Layer2Objects, LevelTiles, PIPE_FIRST, PIPE_LAST,
    PIPE_TILE_COUNT, PIPE_VARIANTS, SCREEN_COLS, SCREEN_ROWS, max_screens,
};
