//! The sizes and counts of the game.

use vstd::prelude::*;

verus! {

/// The name of the game.
pub const NAME: &'static str = "Snake v01";

/// The width of the playing field, in cells.
pub const BOARD_WIDTH: u8 = 10;

/// The height of the playing field, in cells.
pub const BOARD_HEIGHT: u8 = 10;

/// How many networks one generation holds.
pub const NUM_INDIVIDUALS: u32 = 1000;

/// How many games each network plays per generation.
pub const NUM_GAMES_NN: u32 = 20;

/// How many generations are bred.
pub const NUM_GENERATIONS: u32 = 20;

/// The number of ticks after which a game played by a network ends.
pub const NN_MAX_GAME_TIME: u32 = 100;

/// How many games each learner plays.
pub const NUM_GAMES_QL: u32 = 2000;

/// How many learners play side by side.
pub const NUM_QLS: u32 = 4;

/// The side of a drawn cell, in pixels.
pub const BLOCK_SIZE: u32 = 20;

/// Updates per second.
pub const RENDER_UPS: u64 = 20;

/// The most frames drawn per second.
pub const RENDER_FPS_MAX: u64 = 20;

} // verus!
