//! The client's decisions each frame: how the connection moves on, when
//! `Join` and `Heartbeat` go out, and which messages the keys send.

use vstd::prelude::*;

use crate::protocol::{ClientMessage, MatchState, PlayerAction};

verus! {

/// Pause between two `Join` attempts, in nanoseconds.
pub const JOIN_RETRY_NANOS: u64 = 500_000_000;

/// Pause between two heartbeats, in nanoseconds.
pub const HEARTBEAT_NANOS: u64 = 1_000_000_000;

/// Where the client stands in its connection.
#[derive(Debug, Clone, Copy, PartialEq, Eq, Structural)]
pub enum LinkPhase {
    Launcher,
    Joining,
    Playing,
    Rejected,
}

/// What the client learnt since the last frame.
#[derive(Debug, Clone, Copy, PartialEq, Eq, Structural)]
pub struct LinkEvent {
    /// `Escape` was pressed.
    pub escaped: bool,
    /// The launcher handed over an address and a name.
    pub launched: bool,
    /// The server refused the join.
    pub rejected: bool,
    /// The server welcomed the client.
    pub welcomed: bool,
    /// Nanoseconds since the last `Join` went out.
    pub since_join: u64,
    /// Nanoseconds since the last heartbeat went out.
    pub since_heartbeat: u64,
}

/// The next phase and what to send.
#[derive(Debug, Clone, Copy, PartialEq, Eq, Structural)]
pub struct LinkStep {
    pub phase: LinkPhase,
    pub send_join: bool,
    pub send_heartbeat: bool,
    /// Tell the server the client leaves.
    pub send_leave: bool,
    /// Close the client.
    pub quit: bool,
}

/// One frame of the connection without `Escape`: the launcher hands over
/// to joining; while
/// joining, a `Join` goes out once `JOIN_RETRY_NANOS` have passed since the
/// last, and a refusal, or else a welcome, ends the wait; while playing, a
/// heartbeat goes out once `HEARTBEAT_NANOS` have passed; a refused client
/// stays refused.
pub open spec fn link_carry_on(phase: LinkPhase, ev: LinkEvent) -> LinkStep {
    match phase {
        LinkPhase::Launcher => LinkStep {
            phase: if ev.launched { LinkPhase::Joining } else { LinkPhase::Launcher },
            send_join: false,
            send_heartbeat: false,
            send_leave: false,
            quit: false,
        },
        LinkPhase::Joining => LinkStep {
            phase: if ev.rejected {
                LinkPhase::Rejected
            } else if ev.welcomed {
                LinkPhase::Playing
            } else {
                LinkPhase::Joining
            },
            send_join: ev.since_join > JOIN_RETRY_NANOS,
            send_heartbeat: false,
            send_leave: false,
            quit: false,
        },
        LinkPhase::Playing => LinkStep {
            phase: LinkPhase::Playing,
            send_join: false,
            send_heartbeat: ev.since_heartbeat > HEARTBEAT_NANOS,
            send_leave: false,
            quit: false,
        },
        LinkPhase::Rejected => LinkStep { phase: LinkPhase::Rejected, send_join: false, send_heartbeat: false, send_leave: false, quit: false },
    }
}

/// One frame of the connection: `Escape` in the launcher closes the
/// client; elsewhere it tells the server the client leaves and returns to
/// the launcher. Without it, see `link_carry_on`.
pub open spec fn link_next(phase: LinkPhase, ev: LinkEvent) -> LinkStep {
    if ev.escaped {
        if phase == LinkPhase::Launcher {
            LinkStep { phase: LinkPhase::Launcher, send_join: false, send_heartbeat: false, send_leave: false, quit: true }
        } else {
            LinkStep { phase: LinkPhase::Launcher, send_join: false, send_heartbeat: false, send_leave: true, quit: false }
        }
    } else {
        link_carry_on(phase, ev)
    }
}

/// One frame of the connection; see `link_next`.
pub fn link_step(phase: LinkPhase, ev: LinkEvent) -> (step: LinkStep)
    ensures
        step == link_next(phase, ev),
{
    if ev.escaped {
        return if phase == LinkPhase::Launcher {
            LinkStep { phase: LinkPhase::Launcher, send_join: false, send_heartbeat: false, send_leave: false, quit: true }
        } else {
            LinkStep { phase: LinkPhase::Launcher, send_join: false, send_heartbeat: false, send_leave: true, quit: false }
        };
    }
    match phase {
        LinkPhase::Launcher => LinkStep {
            phase: if ev.launched { LinkPhase::Joining } else { LinkPhase::Launcher },
            send_join: false,
            send_heartbeat: false,
            send_leave: false,
            quit: false,
        },
        LinkPhase::Joining => {
            let next = if ev.rejected {
                LinkPhase::Rejected
            } else if ev.welcomed {
                LinkPhase::Playing
            } else {
                LinkPhase::Joining
            };
            LinkStep { phase: next, send_join: ev.since_join > JOIN_RETRY_NANOS, send_heartbeat: false, send_leave: false, quit: false }
        },
        LinkPhase::Playing => LinkStep {
            phase: LinkPhase::Playing,
            send_join: false,
            send_heartbeat: ev.since_heartbeat > HEARTBEAT_NANOS,
            send_leave: false,
            quit: false,
        },
        LinkPhase::Rejected => LinkStep { phase: LinkPhase::Rejected, send_join: false, send_heartbeat: false, send_leave: false, quit: false },
    }
}

/// The keys pressed this frame. `shoot` is `Space`, or a left click inside
/// the 3D view; `level` is the level a number key asks for (`1` to `4`
/// ask for 0 to 3).
#[derive(Debug, Clone, Copy, PartialEq, Eq, Structural)]
pub struct Keys {
    pub forward: bool,
    pub backward: bool,
    pub turn_left: bool,
    pub turn_right: bool,
    pub shoot: bool,
    pub start: bool,
    pub toggle_bots: bool,
    pub edit: bool,
    pub level: Option<usize>,
}

/// What the client knows when it reads the keys.
#[derive(Debug, Clone, Copy, PartialEq, Eq, Structural)]
pub struct FrameView {
    pub match_state: MatchState,
    pub is_host: bool,
    pub edit_mode: bool,
    pub alive: bool,
}

/// The move a frame's keys ask for: forward, else back, else left, else
/// right.
pub open spec fn key_action(keys: Keys) -> Option<PlayerAction> {
    if keys.forward {
        Some(PlayerAction::MoveForward)
    } else if keys.backward {
        Some(PlayerAction::MoveBackward)
    } else if keys.turn_left {
        Some(PlayerAction::TurnLeft)
    } else if keys.turn_right {
        Some(PlayerAction::TurnRight)
    } else {
        None
    }
}

/// The edit mode after the frame: `E` switches it, for the host only.
pub open spec fn edit_after(view: FrameView, keys: Keys) -> bool {
    if keys.edit && view.is_host {
        !view.edit_mode
    } else {
        view.edit_mode
    }
}

/// The messages a frame's keys send, in order. Outside the editor, a
/// living player in a round sends its move and then its shot; the host in
/// the lobby starts the round, or else toggles the bots. Then, with the
/// edit mode as the frame leaves it, the host outside the editor asks for
/// the level of a number key.
pub open spec fn frame_messages(view: FrameView, keys: Keys) -> Seq<ClientMessage> {
    let play: Seq<ClientMessage> = if !view.edit_mode && view.match_state == MatchState::Playing && view.alive {
        (match key_action(keys) {
            Some(a) => seq![ClientMessage::Input { action: a }],
            None => Seq::<ClientMessage>::empty(),
        }) + if keys.shoot {
            seq![ClientMessage::Shoot]
        } else {
            Seq::<ClientMessage>::empty()
        }
    } else {
        Seq::<ClientMessage>::empty()
    };
    let lobby: Seq<ClientMessage> = if !view.edit_mode && view.match_state == MatchState::Lobby && view.is_host {
        if keys.start {
            seq![ClientMessage::StartGame]
        } else if keys.toggle_bots {
            seq![ClientMessage::ToggleBots]
        } else {
            Seq::<ClientMessage>::empty()
        }
    } else {
        Seq::<ClientMessage>::empty()
    };
    let level: Seq<ClientMessage> = if !edit_after(view, keys) && view.is_host {
        match keys.level {
            Some(i) => seq![ClientMessage::RequestLevel { level_idx: i }],
            None => Seq::<ClientMessage>::empty(),
        }
    } else {
        Seq::<ClientMessage>::empty()
    };
    play + lobby + level
}

/// The messages the frame's keys send and the edit mode after the frame;
/// see `frame_messages` and `edit_after`.
pub fn frame_commands(view: FrameView, keys: Keys) -> (out: (Vec<ClientMessage>, bool))
    ensures
        out.0@ == frame_messages(view, keys),
        out.1 == edit_after(view, keys),
{
    let mut msgs: Vec<ClientMessage> = Vec::new();
    if !view.edit_mode && view.match_state == MatchState::Playing && view.alive {
        let action = if keys.forward {
            Some(PlayerAction::MoveForward)
        } else if keys.backward {
            Some(PlayerAction::MoveBackward)
        } else if keys.turn_left {
            Some(PlayerAction::TurnLeft)
        } else if keys.turn_right {
            Some(PlayerAction::TurnRight)
        } else {
            None
        };
        if let Some(a) = action {
            msgs.push(ClientMessage::Input { action: a });
        }
        if keys.shoot {
            msgs.push(ClientMessage::Shoot);
        }
    }
    if !view.edit_mode && view.match_state == MatchState::Lobby && view.is_host {
        if keys.start {
            msgs.push(ClientMessage::StartGame);
        } else if keys.toggle_bots {
            msgs.push(ClientMessage::ToggleBots);
        }
    }
    let edit = if keys.edit && view.is_host {
        !view.edit_mode
    } else {
        view.edit_mode
    };
    if !edit && view.is_host {
        if let Some(i) = keys.level {
            msgs.push(ClientMessage::RequestLevel { level_idx: i });
        }
    }
    proof {
        assert(msgs@ =~= frame_messages(view, keys));
    }
    (msgs, edit)
}

} // verus!
