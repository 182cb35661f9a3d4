//! Game logic of a small networked grid shooter: levels and mazes,
//! grid movement, laser hits, bot behaviour and the authoritative server
//! state machine.

use vstd::prelude::*;

pub mod ai;
pub mod controls;
pub mod editor;
pub mod game;
pub mod handlers;
pub mod launcher;
pub mod laws;
pub mod levels;
pub mod physics;
pub mod protocol;
pub mod scoreboard;
pub mod server;
pub mod tick;
mod rng;

pub use levels::{generate_random_maze, get_static_level, parse_map_str, Level};

verus! {

/// Default UDP port of the server.
pub const DEFAULT_PORT: u16 = 10500;

/// Server simulation rate.
pub const TICK_RATE_HZ: u64 = 30;

} // verus!
