//! Messages that clients send to the server, and the match phases.

use vstd::prelude::*;

verus! {

/// A movement request of a player.
#[derive(Debug, Clone, Copy, PartialEq, Eq, Structural)]
pub enum PlayerAction {
    MoveForward,
    MoveBackward,
    TurnLeft,
    TurnRight,
}

/// A datagram from a client to the server.
#[derive(Debug, Clone)]
pub enum ClientMessage {
    Join { name: String },
    Input { action: PlayerAction },
    Shoot,
    RequestLevel { level_idx: usize },
    BackToLobby,
    Heartbeat,
    Leave,
    CustomMap { width: usize, height: usize, cells: Vec<bool> },
    StartGame,
    ToggleBots,
}

/// Phase of the match.
#[derive(Debug, Clone, Copy, PartialEq, Eq, Structural)]
pub enum MatchState {
    Lobby,
    Playing,
    GameOver,
}

} // verus!
