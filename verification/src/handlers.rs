//! How the server answers each client message.

use vstd::prelude::*;

use crate::game::{
    dir_delta, dirs_valid, find_player, has_id, ids_unique, index_of, left_of, lemma_index_of,
    lemma_update_keeps_valid, remove_player, right_of, upsert_player, upserted, PlayerState,
    FULL_HEALTH, MAX_PLAYERS, SHOOT_COOLDOWN_TICKS,
};
use crate::levels::Level;
use crate::physics::{
    along, find_random_spawn, occupied_by_other, occupied_cells, occupied_seq, valid_spawn,
};
use crate::protocol::{ClientMessage, MatchState, PlayerAction};
use crate::server::{
    addrs_unique, count_humans, find_session, first_where, human_count, is_bot,
    lemma_upsert_keeps_dirs, session_index, ClientAddr, LogLine, Reply, ServerEvent, ServerModel,
    ServerState, ClientSession,
};

verus! {

/// A human player fresh on `cell`, facing east, with full health.
pub open spec fn new_human(id: u32, name: String, cell: (usize, usize)) -> PlayerState {
    PlayerState {
        id,
        name,
        x: cell.0,
        y: cell.1,
        dir_idx: 0,
        score: 0,
        deaths: 0,
        health: FULL_HEALTH,
        is_alive: true,
        is_bot: false,
        respawn_ticks: 0,
    }
}

/// A new client is refused while `MAX_PLAYERS` humans play.
pub open spec fn join_refused(pre: ServerModel, src: ClientAddr) -> bool {
    session_index(pre.sessions, src) < 0 && human_count(pre.players) >= MAX_PLAYERS
}

/// The player id of the client after its `Join`: a new client gets the
/// next id, a known one keeps its own.
pub open spec fn joined_id(pre: ServerModel, src: ClientAddr) -> u32 {
    let si = session_index(pre.sessions, src);
    if si < 0 {
        pre.next_player_id
    } else {
        pre.sessions[si].player_id
    }
}

/// The players after a human with id `pid` enters on `cell`, and, during
/// a round with bots, the first bot leaves.
pub open spec fn players_after_entry(pre: ServerModel, pid: u32, name: String, cell: (usize, usize)) -> Seq<PlayerState> {
    let ps1 = upserted(pre.players, new_human(pid, name, cell));
    let b = first_where(ps1, is_bot(), 0);
    if pre.match_state == MatchState::Playing && pre.bots_enabled && b >= 0 {
        ps1.remove(b)
    } else {
        ps1
    }
}

/// The outcome of a `Join` from `src` with `name` at time `now`.
#[verifier::opaque]
pub open spec fn join_outcome(
    level: Level,
    pre: ServerModel,
    src: ClientAddr,
    name: String,
    now: u64,
    post: ServerModel,
    events: Seq<ServerEvent>,
) -> bool {
    if join_refused(pre, src) {
        &&& post == pre
        &&& events == seq![
            ServerEvent::Send { to: src, reply: Reply::RejectFull },
            ServerEvent::Log { line: LogLine::Rejected { addr: src } },
        ]
    } else {
        let fresh = session_index(pre.sessions, src) < 0;
        let pid = joined_id(pre, src);
        let sessions = if fresh {
            pre.sessions.push(
                ClientSession { addr: src, name: name, player_id: pid, last_packet: now, shoot_cooldown: 0 },
            )
        } else {
            pre.sessions
        };
        let next_id = if fresh {
            pre.next_player_id.wrapping_add(1)
        } else {
            pre.next_player_id
        };
        let e1: Seq<ServerEvent> = if fresh {
            seq![ServerEvent::Log { line: LogLine::Joined { name: name, addr: src } }]
        } else {
            seq![]
        };
        if has_id(pre.players, pid) {
            &&& post == ServerModel { sessions, next_player_id: next_id, ..pre }
            &&& events == e1.push(
                ServerEvent::Send { to: src, reply: Reply::Welcome { player_id: pid, is_host: pid == pre.host_id } },
            )
        } else {
            let host = if pre.host_id == 0 {
                pid
            } else {
                pre.host_id
            };
            let e2: Seq<ServerEvent> = if pre.host_id == 0 {
                seq![ServerEvent::Log { line: LogLine::HostAssigned { id: pid } }]
            } else {
                seq![]
            };
            exists|cell: (usize, usize)|
                #![trigger valid_spawn(level, occupied_seq(pre.players, None), cell)]
                {
                    let ps1 = upserted(pre.players, new_human(pid, name, cell));
                    let b = first_where(ps1, is_bot(), 0);
                    let removes = pre.match_state == MatchState::Playing && pre.bots_enabled && b >= 0;
                    let e3: Seq<ServerEvent> = if removes {
                        seq![ServerEvent::Log { line: LogLine::BotRemoved { id: ps1[b].id } }]
                    } else {
                        seq![]
                    };
                    &&& valid_spawn(level, occupied_seq(pre.players, None), cell)
                    &&& post == ServerModel {
                        sessions,
                        next_player_id: next_id,
                        players: players_after_entry(pre, pid, name, cell),
                        host_id: host,
                        ..pre
                    }
                    &&& events == e1 + e2 + e3 + seq![
                        ServerEvent::Send {
                            to: src,
                            reply: Reply::Welcome { player_id: pid, is_host: pid == host },
                        },
                    ]
                }
        }
    }
}

/// Removing the player at a position keeps ids unique and directions valid.
pub proof fn lemma_remove_keeps_valid(ps: Seq<PlayerState>, i: int)
    requires
        ids_unique(ps),
        dirs_valid(ps),
        0 <= i < ps.len(),
    ensures
        ids_unique(ps.remove(i)),
        dirs_valid(ps.remove(i)),
        !has_id(ps.remove(i), ps[i].id),
{
    let r = ps.remove(i);
    assert forall|a: int, b: int| 0 <= a < r.len() && 0 <= b < r.len() && a != b implies #[trigger] r[a].id
        != #[trigger] r[b].id by {
        let a0 = if a < i { a } else { a + 1 };
        let b0 = if b < i { b } else { b + 1 };
        assert(r[a] == ps[a0] && r[b] == ps[b0]);
    }
    assert forall|a: int| 0 <= a < r.len() implies #[trigger] r[a].dir_idx < 4 by {
        let a0 = if a < i { a } else { a + 1 };
        assert(r[a] == ps[a0]);
    }
    assert forall|a: int| 0 <= a < r.len() implies #[trigger] r[a].id != ps[i].id by {
        let a0 = if a < i { a } else { a + 1 };
        assert(r[a] == ps[a0]);
    }
}

/// A `Join` from `src`: a new client is refused while `MAX_PLAYERS` humans
/// play; otherwise it gets a session and the next player id. A client
/// without a player enters on a random free cell, becomes the host when
/// there is none, and during a round with bots replaces the first bot. The
/// client is welcomed with its id and whether it hosts.
pub fn handle_join(state: &mut ServerState, src: ClientAddr, name: &String, now: u64) -> (events: Vec<ServerEvent>)
    requires
        old(state).wf(),
    ensures
        final(state).wf(),
        final(state).level == old(state).level,
        join_outcome(old(state).level, old(state)@, src, *name, now, final(state)@, events@),
{
    let ghost pre = state@;
    let mut events: Vec<ServerEvent> = Vec::new();
    let sidx = find_session(&state.sessions, src);
    let humans = count_humans(&state.players);
    if sidx.is_none() && humans >= MAX_PLAYERS {
        events.push(ServerEvent::Send { to: src, reply: Reply::RejectFull });
        events.push(ServerEvent::Log { line: LogLine::Rejected { addr: src } });
        proof {
            reveal(join_outcome);
            assert(events@ =~= seq![
                ServerEvent::Send { to: src, reply: Reply::RejectFull },
                ServerEvent::Log { line: LogLine::Rejected { addr: src } },
            ]);
        }
        return events;
    }
    let pid = match sidx {
        Some(i) => state.sessions[i].player_id,
        None => {
            let pid = state.next_player_id;
            state.next_player_id = pid.wrapping_add(1);
            events.push(ServerEvent::Log { line: LogLine::Joined { name: name.clone(), addr: src } });
            let ghost ss = state.sessions@;
            state.sessions.push(
                ClientSession { addr: src, name: name.clone(), player_id: pid, last_packet: now, shoot_cooldown: 0 },
            );
            proof {
                assert forall|a: int, b: int|
                    0 <= a < state.sessions@.len() && 0 <= b < state.sessions@.len() && a != b implies #[trigger] state.sessions@[a].addr
                    != #[trigger] state.sessions@[b].addr by {
                    if a < ss.len() {
                        assert(state.sessions@[a] == ss[a]);
                    }
                    if b < ss.len() {
                        assert(state.sessions@[b] == ss[b]);
                    }
                }
            }
            pid
        },
    };
    let ghost e1 = events@;
    assert(pid == joined_id(pre, src));
    assert(state.players@ == pre.players);
    if find_player(&state.players, pid).is_some() {
        events.push(
            ServerEvent::Send { to: src, reply: Reply::Welcome { player_id: pid, is_host: pid == state.host_id } },
        );
        proof {
            reveal(join_outcome);
        }
        return events;
    }
    let occupied = occupied_cells(&state.players, None);
    let cell = find_random_spawn(&state.level, &occupied);
    let p = PlayerState {
        id: pid,
        name: name.clone(),
        x: cell.0,
        y: cell.1,
        dir_idx: 0,
        score: 0,
        deaths: 0,
        health: FULL_HEALTH,
        is_alive: true,
        is_bot: false,
        respawn_ticks: 0,
    };
    let ghost np = p;
    let ghost ps0 = state.players@;
    upsert_player(&mut state.players, p);
    proof {
        lemma_upsert_keeps_dirs(ps0, np);
    }
    let ghost ps1 = state.players@;
    assert(ps1 == upserted(pre.players, new_human(pid, *name, cell)));
    let ghost e2: Seq<ServerEvent> = if pre.host_id == 0 {
        seq![ServerEvent::Log { line: LogLine::HostAssigned { id: pid } }]
    } else {
        seq![]
    };
    if state.host_id == 0 {
        state.host_id = pid;
        events.push(ServerEvent::Log { line: LogLine::HostAssigned { id: pid } });
    }
    assert(events@ =~= e1 + e2);
    let ghost bidx = first_where(ps1, is_bot(), 0);
    let ghost removes = pre.match_state == MatchState::Playing && pre.bots_enabled && bidx >= 0;
    let ghost e3: Seq<ServerEvent> = if removes {
        seq![ServerEvent::Log { line: LogLine::BotRemoved { id: ps1[bidx].id } }]
    } else {
        seq![]
    };
    if state.match_state == MatchState::Playing && state.bots_enabled {
        match crate::server::first_bot(&state.players) {
            Some(b) => {
                let bot_id = state.players[b].id;
                proof {
                    lemma_remove_keeps_valid(ps1, b as int);
                }
                remove_player(&mut state.players, bot_id);
                proof {
                    let k = choose|k: int| 0 <= k < ps1.len() && ps1[k].id == bot_id && state.players@ == ps1.remove(k);
                    if k != b {
                        assert(ps1[k].id != ps1[b as int].id);
                    }
                }
                events.push(ServerEvent::Log { line: LogLine::BotRemoved { id: bot_id } });
            },
            None => {},
        }
    }
    assert(events@ =~= e1 + e2 + e3);
    assert(state.players@ == players_after_entry(pre, pid, *name, cell));
    events.push(
        ServerEvent::Send { to: src, reply: Reply::Welcome { player_id: pid, is_host: pid == state.host_id } },
    );
    proof {
        reveal(join_outcome);
        assert(valid_spawn(state.level, occupied_seq(pre.players, None), cell));
        assert(events@ =~= e1 + e2 + e3 + seq![
            ServerEvent::Send { to: src, reply: Reply::Welcome { player_id: pid, is_host: pid == state.host_id } },
        ]);
    }
    events
}

// ---------------------------------------------------------------------------
// Sessions refreshed by a datagram

/// The sessions with the one at `si` refreshed at `now`.
pub open spec fn touched(ss: Seq<ClientSession>, si: int, now: u64) -> Seq<ClientSession> {
    ss.update(si, ClientSession { last_packet: now, ..ss[si] })
}

/// Refreshes the session at `si`.
fn touch(state: &mut ServerState, si: usize, now: u64)
    requires
        old(state).wf(),
        si < old(state).sessions@.len(),
    ensures
        final(state).wf(),
        final(state).level == old(state).level,
        final(state)@ == (ServerModel { sessions: touched(old(state)@.sessions, si as int, now), ..old(state)@ }),
{
    let ghost ss = state.sessions@;
    state.sessions[si].last_packet = now;
    proof {
        assert(state.sessions@ =~= touched(ss, si as int, now));
        assert forall|a: int, b: int|
            0 <= a < state.sessions@.len() && 0 <= b < state.sessions@.len() && a != b implies #[trigger] state.sessions@[a].addr
            != #[trigger] state.sessions@[b].addr by {
            assert(state.sessions@[a].addr == ss[a].addr && state.sessions@[b].addr == ss[b].addr);
        }
    }
}

/// A `Heartbeat` refreshes the sender's session.
pub open spec fn heartbeat_outcome(pre: ServerModel, src: ClientAddr, now: u64, post: ServerModel) -> bool {
    let si = session_index(pre.sessions, src);
    if si < 0 {
        post == pre
    } else {
        post == ServerModel { sessions: touched(pre.sessions, si, now), ..pre }
    }
}

/// A `Heartbeat` from `src`: refreshes its session.
pub fn handle_heartbeat(state: &mut ServerState, src: ClientAddr, now: u64)
    requires
        old(state).wf(),
    ensures
        final(state).wf(),
        final(state).level == old(state).level,
        heartbeat_outcome(old(state)@, src, now, final(state)@),
{
    if let Some(si) = find_session(&state.sessions, src) {
        touch(state, si, now);
    }
}

// ---------------------------------------------------------------------------
// Movement

/// The cell a step in direction `dir` from the player's cell leads to.
pub open spec fn step_dest(p: PlayerState, dir: int) -> (int, int) {
    (along(p.x as int, dir_delta(dir).0, 1), along(p.y as int, dir_delta(dir).1, 1))
}

/// The player at `pi` may step onto the cell: it lies in the grid, is no
/// wall, and no other living player stands there.
pub open spec fn can_enter(level: Level, ps: Seq<PlayerState>, pi: int, cell: (int, int)) -> bool {
    &&& 0 <= cell.0 < level.width
    &&& 0 <= cell.1 < level.height
    &&& !level.wall(cell.0, cell.1)
    &&& !occupied_by_other(ps, ps[pi].id, cell.0, cell.1)
}

/// The players after the one at `pi` steps in direction `dir`, if it can.
pub open spec fn stepped(level: Level, ps: Seq<PlayerState>, pi: int, dir: int) -> Seq<PlayerState> {
    let d = step_dest(ps[pi], dir);
    if can_enter(level, ps, pi, d) {
        ps.update(pi, PlayerState { x: d.0 as usize, y: d.1 as usize, ..ps[pi] })
    } else {
        ps
    }
}

/// The players after the one at `pi` carries out the action: it steps one
/// cell forward or back if it can, or turns a quarter to the left or right.
pub open spec fn acted(level: Level, ps: Seq<PlayerState>, pi: int, action: PlayerAction) -> Seq<PlayerState> {
    let p = ps[pi];
    match action {
        PlayerAction::MoveForward => stepped(level, ps, pi, p.dir_idx as int),
        PlayerAction::MoveBackward => stepped(level, ps, pi, (p.dir_idx as int + 2) % 4),
        PlayerAction::TurnLeft => ps.update(pi, PlayerState { dir_idx: left_of(p.dir_idx as int) as usize, ..p }),
        PlayerAction::TurnRight => ps.update(pi, PlayerState { dir_idx: right_of(p.dir_idx as int) as usize, ..p }),
    }
}

/// The outcome of an `Input` during a round: the sender's session is
/// refreshed and its living player acts; outside a round nothing happens.
pub open spec fn input_outcome(level: Level, pre: ServerModel, src: ClientAddr, action: PlayerAction, now: u64, post: ServerModel) -> bool {
    let si = session_index(pre.sessions, src);
    if pre.match_state != MatchState::Playing || si < 0 {
        post == pre
    } else {
        let pi = index_of(pre.players, pre.sessions[si].player_id);
        let players = if pi >= 0 && pre.players[pi].is_alive {
            acted(level, pre.players, pi, action)
        } else {
            pre.players
        };
        post == ServerModel { sessions: touched(pre.sessions, si, now), players, ..pre }
    }
}

/// Moves the player at `pi` one cell in direction `dir` if it can.
fn try_step(state: &mut ServerState, pi: usize, dir: usize)
    requires
        old(state).wf(),
        pi < old(state).players@.len(),
        dir < 4,
    ensures
        final(state).wf(),
        final(state).level == old(state).level,
        final(state)@ == (ServerModel {
            players: stepped(old(state).level, old(state)@.players, pi as int, dir as int),
            ..old(state)@
        }),
{
    let ghost ps = state.players@;
    let w = state.level.width;
    let h = state.level.height;
    let n = state.level.cells.len();
    let id = state.players[pi].id;
    match crate::physics::step_cell(state.players[pi].x, state.players[pi].y, dir, 1, w, h) {
        Some((nx, ny)) => {
            proof {
                crate::levels::lemma_cell_index(nx as int, ny as int, w as int, h as int);
            }
            if !state.level.cells[ny * w + nx] && !crate::physics::cell_taken_by_other(&state.players, id, nx, ny) {
                state.players[pi].x = nx;
                state.players[pi].y = ny;
                proof {
                    assert(state.players@ =~= stepped(state.level, ps, pi as int, dir as int));
                    lemma_update_keeps_valid(ps, pi as int, state.players@[pi as int]);
                }
            }
        },
        None => {},
    }
}

/// An `Input` from `src`: during a round, refreshes its session and lets
/// its living player step forward or back, if the cell is open and free,
/// or turn.
pub fn handle_input(state: &mut ServerState, src: ClientAddr, action: PlayerAction, now: u64)
    requires
        old(state).wf(),
    ensures
        final(state).wf(),
        final(state).level == old(state).level,
        input_outcome(old(state).level, old(state)@, src, action, now, final(state)@),
{
    if state.match_state != MatchState::Playing {
        return;
    }
    let si = match find_session(&state.sessions, src) {
        Some(i) => i,
        None => {
            return;
        },
    };
    touch(state, si, now);
    let pid = state.sessions[si].player_id;
    let ghost ps = state.players@;
    let pi = match find_player(&state.players, pid) {
        Some(i) => i,
        None => {
            return;
        },
    };
    proof {
        lemma_index_of(ps, pid, pi as int);
    }
    if !state.players[pi].is_alive {
        return;
    }
    let dir = state.players[pi].dir_idx;
    match action {
        PlayerAction::MoveForward => {
            try_step(state, pi, dir);
        },
        PlayerAction::MoveBackward => {
            try_step(state, pi, (dir + 2) % 4);
        },
        PlayerAction::TurnLeft => {
            state.players[pi].dir_idx = (dir + 3) % 4;
            proof {
                assert(state.players@ =~= acted(state.level, ps, pi as int, action));
                lemma_update_keeps_valid(ps, pi as int, state.players@[pi as int]);
            }
        },
        PlayerAction::TurnRight => {
            state.players[pi].dir_idx = (dir + 1) % 4;
            proof {
                assert(state.players@ =~= acted(state.level, ps, pi as int, action));
                lemma_update_keeps_valid(ps, pi as int, state.players@[pi as int]);
            }
        },
    }
}

// ---------------------------------------------------------------------------
// Shooting

/// The log of a shot: a kill is logged.
pub open spec fn kill_events(kill: Option<(u32, u32)>) -> Seq<ServerEvent> {
    match kill {
        Some((k, v)) => seq![ServerEvent::Log { line: LogLine::Killed { killer: k, victim: v } }],
        None => seq![],
    }
}

/// The outcome of a `Shoot` during a round: the sender's session is
/// refreshed, and when its cooldown is over its player fires and the
/// session waits `SHOOT_COOLDOWN_TICKS` ticks; outside a round nothing
/// happens.
pub open spec fn shoot_outcome(level: Level, pre: ServerModel, src: ClientAddr, now: u64, post: ServerModel, events: Seq<ServerEvent>) -> bool {
    let si = session_index(pre.sessions, src);
    if pre.match_state != MatchState::Playing || si < 0 {
        post == pre && events.len() == 0
    } else {
        let ss = touched(pre.sessions, si, now);
        if ss[si].shoot_cooldown == 0 {
            exists|kill: Option<(u32, u32)>|
                {
                    &&& #[trigger] crate::physics::fired(
                        level,
                        pre.players,
                        pre.lasers,
                        ss[si].player_id,
                        post.players,
                        post.lasers,
                        kill,
                    )
                    &&& events == kill_events(kill)
                    &&& post == ServerModel {
                        sessions: ss.update(si, ClientSession { shoot_cooldown: SHOOT_COOLDOWN_TICKS, ..ss[si] }),
                        players: post.players,
                        lasers: post.lasers,
                        ..pre
                    }
                }
        } else {
            post == ServerModel { sessions: ss, ..pre } && events.len() == 0
        }
    }
}

/// A `Shoot` from `src`; see `shoot_outcome`.
pub fn handle_shoot(state: &mut ServerState, src: ClientAddr, now: u64) -> (events: Vec<ServerEvent>)
    requires
        old(state).wf(),
    ensures
        final(state).wf(),
        final(state).level == old(state).level,
        shoot_outcome(old(state).level, old(state)@, src, now, final(state)@, events@),
{
    let mut events: Vec<ServerEvent> = Vec::new();
    if state.match_state != MatchState::Playing {
        return events;
    }
    let si = match find_session(&state.sessions, src) {
        Some(i) => i,
        None => {
            return events;
        },
    };
    touch(state, si, now);
    if state.sessions[si].shoot_cooldown == 0 {
        let pid = state.sessions[si].player_id;
        let kill = crate::physics::fire_laser(pid, &mut state.players, &state.level, &mut state.lasers);
        let ghost ss = state.sessions@;
        state.sessions[si].shoot_cooldown = SHOOT_COOLDOWN_TICKS;
        proof {
            assert(state.sessions@ =~= ss.update(si as int, ClientSession { shoot_cooldown: SHOOT_COOLDOWN_TICKS, ..ss[si as int] }));
            assert forall|a: int, b: int|
                0 <= a < state.sessions@.len() && 0 <= b < state.sessions@.len() && a != b implies #[trigger] state.sessions@[a].addr
                != #[trigger] state.sessions@[b].addr by {
                assert(state.sessions@[a].addr == ss[a].addr && state.sessions@[b].addr == ss[b].addr);
            }
        }
        match kill {
            Some((k, v)) => {
                events.push(ServerEvent::Log { line: LogLine::Killed { killer: k, victim: v } });
            },
            None => {},
        }
        proof {
            assert(events@ =~= kill_events(kill));
        }
    }
    events
}

// ---------------------------------------------------------------------------
// Leaving

/// The players without the one with the id, if there is one.
pub open spec fn without_player(ps: Seq<PlayerState>, id: u32) -> Seq<PlayerState> {
    if has_id(ps, id) {
        ps.remove(index_of(ps, id))
    } else {
        ps
    }
}

/// The outcome of the client at `si` going, because it left or because it
/// timed out: its session and player go, which is logged; when it hosted,
/// the first remaining human hosts (0 when none is left); during a round
/// with bots, while humans remain, a bot takes its place.
pub open spec fn departure_outcome(
    level: Level,
    pre: ServerModel,
    si: int,
    timed_out: bool,
    post: ServerModel,
    events: Seq<ServerEvent>,
) -> bool {
    let s = pre.sessions[si];
    let ps1 = without_player(pre.players, s.player_id);
    let hosted = s.player_id == pre.host_id;
    let host = if hosted {
        crate::server::next_host(ps1)
    } else {
        pre.host_id
    };
    let e1 = if timed_out {
        seq![ServerEvent::Log { line: LogLine::TimedOut { name: s.name } }]
    } else {
        seq![ServerEvent::Log { line: LogLine::Left { name: s.name } }]
    };
    let e2: Seq<ServerEvent> = if hosted {
        if timed_out {
            seq![ServerEvent::Log { line: LogLine::HostTimedOut { new_host: host } }]
        } else {
            seq![ServerEvent::Log { line: LogLine::HostLeft { new_host: host } }]
        }
    } else {
        seq![]
    };
    let replace = pre.match_state == MatchState::Playing && pre.bots_enabled && human_count(ps1) > 0;
    if replace {
        let n = crate::server::replacement_bot_number(ps1);
        &&& events == e1 + e2 + seq![
            ServerEvent::Log { line: LogLine::ReplacementBot { id: (1000 + n) as u32 } },
        ]
        &&& exists|bot: PlayerState, cell: (usize, usize)|
            #![trigger crate::server::is_new_bot(bot, n, cell)]
            crate::server::is_new_bot(bot, n, cell) && valid_spawn(level, occupied_seq(ps1, None), cell)
                && post == ServerModel {
                sessions: pre.sessions.remove(si),
                players: upserted(ps1, bot),
                host_id: host,
                ..pre
            }
    } else {
        &&& events == e1 + e2
        &&& post == ServerModel { sessions: pre.sessions.remove(si), players: ps1, host_id: host, ..pre }
    }
}

/// The outcome of a `Leave` from `src`: the departure of its session.
pub open spec fn leave_outcome(level: Level, pre: ServerModel, src: ClientAddr, post: ServerModel, events: Seq<ServerEvent>) -> bool {
    let si = session_index(pre.sessions, src);
    if si < 0 {
        post == pre && events.len() == 0
    } else {
        departure_outcome(level, pre, si, false, post, events)
    }
}

/// Drops the session at `si`, as a departure that `timed_out` tells the
/// reason of; see `departure_outcome`.
pub fn drop_session(state: &mut ServerState, si: usize, timed_out: bool) -> (events: Vec<ServerEvent>)
    requires
        old(state).wf(),
        si < old(state)@.sessions.len(),
    ensures
        final(state).wf(),
        final(state).level == old(state).level,
        departure_outcome(old(state).level, old(state)@, si as int, timed_out, final(state)@, events@),
{
    let mut events: Vec<ServerEvent> = Vec::new();
    let ghost pre = state@;
    let ghost ss = state.sessions@;
    let session = state.sessions.remove(si);
    proof {
        assert forall|a: int, b: int|
            0 <= a < state.sessions@.len() && 0 <= b < state.sessions@.len() && a != b implies #[trigger] state.sessions@[a].addr
            != #[trigger] state.sessions@[b].addr by {
            let a0 = if a < si { a } else { a + 1 };
            let b0 = if b < si { b } else { b + 1 };
            assert(state.sessions@[a] == ss[a0] && state.sessions@[b] == ss[b0]);
        }
    }
    let pid = session.player_id;
    if timed_out {
        events.push(ServerEvent::Log { line: LogLine::TimedOut { name: session.name } });
    } else {
        events.push(ServerEvent::Log { line: LogLine::Left { name: session.name } });
    }
    let ghost ps0 = state.players@;
    remove_player(&mut state.players, pid);
    proof {
        if has_id(ps0, pid) {
            let k = choose|k: int| 0 <= k < ps0.len() && ps0[k].id == pid && state.players@ == ps0.remove(k);
            lemma_index_of(ps0, pid, k);
            lemma_remove_keeps_valid(ps0, k);
        }
        assert(state.players@ == without_player(ps0, pid));
    }
    let ghost ps1 = state.players@;
    let ghost e1 = events@;
    if pid == state.host_id {
        state.host_id = crate::server::pick_next_host(&state.players);
        if timed_out {
            events.push(ServerEvent::Log { line: LogLine::HostTimedOut { new_host: state.host_id } });
        } else {
            events.push(ServerEvent::Log { line: LogLine::HostLeft { new_host: state.host_id } });
        }
    }
    let ghost e12 = events@;
    let ghost host = state.host_id;
    assert(state@ == ServerModel { sessions: ss.remove(si as int), players: ps1, host_id: host, ..pre });
    if state.match_state == MatchState::Playing && state.bots_enabled {
        let humans = count_humans(&state.players);
        if humans > 0 {
            let id = crate::server::spawn_replacement_bot(&mut state.players, &state.level);
            events.push(ServerEvent::Log { line: LogLine::ReplacementBot { id } });
            proof {
                assert(events@ =~= e12 + seq![
                    ServerEvent::Log { line: LogLine::ReplacementBot { id: (1000 + crate::server::replacement_bot_number(ps1)) as u32 } },
                ]);
            }
        }
    }
    proof {
        if timed_out {
            assert(e1 =~= seq![ServerEvent::Log { line: LogLine::TimedOut { name: ss[si as int].name } }]);
            if pid == pre.host_id {
                assert(e12 =~= e1 + seq![ServerEvent::Log { line: LogLine::HostTimedOut { new_host: host } }]);
            } else {
                assert(e12 =~= e1 + Seq::<ServerEvent>::empty());
            }
        } else {
            assert(e1 =~= seq![ServerEvent::Log { line: LogLine::Left { name: ss[si as int].name } }]);
            if pid == pre.host_id {
                assert(e12 =~= e1 + seq![ServerEvent::Log { line: LogLine::HostLeft { new_host: host } }]);
            } else {
                assert(e12 =~= e1 + Seq::<ServerEvent>::empty());
            }
        }
    }
    events
}

/// A `Leave` from `src`; see `leave_outcome`.
pub fn handle_leave(state: &mut ServerState, src: ClientAddr) -> (events: Vec<ServerEvent>)
    requires
        old(state).wf(),
    ensures
        final(state).wf(),
        final(state).level == old(state).level,
        leave_outcome(old(state).level, old(state)@, src, final(state)@, events@),
{
    match find_session(&state.sessions, src) {
        Some(si) => drop_session(state, si, false),
        None => Vec::new(),
    }
}

// ---------------------------------------------------------------------------
// Host commands

/// Whether the sender's player hosts the match.
fn sender_is_host(state: &ServerState, src: ClientAddr) -> (b: bool)
    requires
        state.wf(),
    ensures
        b == crate::server::is_host_addr(state@, src),
{
    match find_session(&state.sessions, src) {
        Some(si) => state.sessions[si].player_id == state.host_id,
        None => false,
    }
}

/// The level a host asks for by index: a random 19 x 19 maze for index 3,
/// a built-in level otherwise.
pub open spec fn requested_level(level: Level, idx: int) -> bool {
    &&& idx == 3 ==> crate::levels::is_random_maze(level, 19, 19) && crate::levels::maze_spans(level)
    &&& idx != 3 ==> crate::levels::is_static_level(level, idx)
}

/// The outcome of a `RequestLevel` from `src` for level `idx`: only the
/// host may ask. Its session is refreshed and the level replaced; after a
/// finished round a new one starts on it, otherwise every player respawns
/// on it. The level then goes out to every client.
pub open spec fn request_level_outcome(
    pre: ServerModel,
    src: ClientAddr,
    idx: usize,
    now: u64,
    level: Level,
    post: ServerModel,
    events: Seq<ServerEvent>,
) -> bool {
    if !crate::server::is_host_addr(pre, src) {
        post == pre && events.len() == 0
    } else {
        let si = session_index(pre.sessions, src);
        let mid = ServerModel {
            sessions: touched(pre.sessions, si, now),
            level_width: level.width,
            level_height: level.height,
            level_cells: level.cells@,
            level_index: idx,
            ..pre
        };
        &&& requested_level(level, idx as int)
        &&& if pre.match_state == MatchState::GameOver {
            exists|ev: Seq<ServerEvent>|
                #[trigger] crate::server::new_round_outcome(level, mid, now, post, ev) && events == ev.push(
                    ServerEvent::BroadcastMap,
                )
        } else {
            &&& crate::physics::respawned_all(level, pre.players, post.players)
            &&& post == ServerModel { players: post.players, ..mid }
            &&& events == seq![ServerEvent::BroadcastMap]
        }
    }
}

/// A `RequestLevel` from `src`; see `request_level_outcome`.
pub fn handle_request_level(state: &mut ServerState, src: ClientAddr, level_idx: usize, now: u64) -> (events: Vec<ServerEvent>)
    requires
        old(state).wf(),
    ensures
        final(state).wf(),
        !crate::server::is_host_addr(old(state)@, src) ==> final(state).level == old(state).level,
        request_level_outcome(old(state)@, src, level_idx, now, final(state).level, final(state)@, events@),
{
    if !sender_is_host(state, src) {
        return Vec::new();
    }
    let si = find_session(&state.sessions, src).unwrap();
    touch(state, si, now);
    let new_level = if level_idx == 3 {
        crate::levels::generate_random_maze(19, 19)
    } else {
        crate::levels::get_static_level(level_idx)
    };
    state.level = new_level;
    state.level_index = level_idx;
    let ghost mid = state@;
    if state.match_state == MatchState::GameOver {
        let mut events = crate::server::begin_new_round(state, now);
        let ghost ev = events@;
        events.push(ServerEvent::BroadcastMap);
        proof {
            assert(crate::server::new_round_outcome(state.level, mid, now, state@, ev));
        }
        events
    } else {
        let ghost ps = state.players@;
        crate::physics::reset_all_positions(&mut state.players, &state.level);
        proof {
            crate::server::lemma_respawned_keeps_valid(state.level, ps, state.players@);
        }
        let mut events: Vec<ServerEvent> = Vec::new();
        events.push(ServerEvent::BroadcastMap);
        proof {
            assert(events@ =~= seq![ServerEvent::BroadcastMap]);
        }
        events
    }
}

/// The player back in the lobby: alive, full health, no respawn wait.
pub open spec fn revived(p: PlayerState) -> PlayerState {
    PlayerState { health: FULL_HEALTH, is_alive: true, respawn_ticks: 0, ..p }
}

/// The outcome of a `BackToLobby` from `src`: only the host may ask, and
/// only after a round. Its session is refreshed, the match returns to the
/// lobby, lasers vanish, bots leave, and the humans come back to life.
pub open spec fn back_to_lobby_outcome(pre: ServerModel, src: ClientAddr, now: u64, post: ServerModel) -> bool {
    if !crate::server::is_host_addr(pre, src) || pre.match_state != MatchState::GameOver {
        post == pre
    } else {
        post == ServerModel {
            sessions: touched(pre.sessions, session_index(pre.sessions, src), now),
            match_state: MatchState::Lobby,
            round_start: None,
            lasers: Seq::empty(),
            players: pre.players.filter(crate::game::is_human()).map_values(|p: PlayerState| revived(p)),
            ..pre
        }
    }
}

/// A `BackToLobby` from `src`; see `back_to_lobby_outcome`.
pub fn handle_back_to_lobby(state: &mut ServerState, src: ClientAddr, now: u64)
    requires
        old(state).wf(),
    ensures
        final(state).wf(),
        final(state).level == old(state).level,
        back_to_lobby_outcome(old(state)@, src, now, final(state)@),
{
    if !sender_is_host(state, src) || state.match_state != MatchState::GameOver {
        return;
    }
    let si = find_session(&state.sessions, src).unwrap();
    touch(state, si, now);
    state.match_state = MatchState::Lobby;
    state.round_start = None;
    state.lasers.clear();
    let ghost ps0 = state.players@;
    crate::game::remove_bots(&mut state.players);
    let ghost h = state.players@;
    proof {
        crate::game::lemma_filter_keeps_ids_unique(ps0, crate::game::is_human());
        assert forall|a: int| 0 <= a < h.len() implies #[trigger] h[a].dir_idx < 4 by {
            assert(ps0.contains(h[a]));
        }
    }
    let ghost s1 = state@;
    let ghost level0 = state.level;
    let mut i: usize = 0;
    while i < state.players.len()
        invariant
            state@ == (ServerModel { players: state@.players, ..s1 }),
            state.level == level0,
            level0.wf(),
            addrs_unique(s1.sessions),
            state.players@.len() == h.len(),
            i <= h.len(),
            forall|j: int| 0 <= j < i ==> #[trigger] state.players@[j] == revived(h[j]),
            forall|j: int| i <= j < h.len() ==> #[trigger] state.players@[j] == h[j],
        decreases h.len() - i,
    {
        state.players[i].health = FULL_HEALTH;
        state.players[i].is_alive = true;
        state.players[i].respawn_ticks = 0;
        i = i + 1;
    }
    proof {
        assert(state.players@ =~= h.map_values(|p: PlayerState| revived(p)));
        let r = state.players@;
        assert forall|a: int, b: int| 0 <= a < r.len() && 0 <= b < r.len() && a != b implies #[trigger] r[a].id
            != #[trigger] r[b].id by {
            assert(r[a].id == h[a].id && r[b].id == h[b].id);
        }
        assert forall|a: int| 0 <= a < r.len() implies #[trigger] r[a].dir_idx < 4 by {
            assert(r[a].dir_idx == h[a].dir_idx);
        }
    }
}

/// The outcome of a `StartGame` from `src`: only the host may start, and
/// only from the lobby; a new round begins and the start is logged.
pub open spec fn start_game_outcome(level: Level, pre: ServerModel, src: ClientAddr, now: u64, post: ServerModel, events: Seq<ServerEvent>) -> bool {
    if crate::server::is_host_addr(pre, src) && pre.match_state == MatchState::Lobby {
        exists|ev: Seq<ServerEvent>|
            #[trigger] crate::server::new_round_outcome(level, pre, now, post, ev) && events == ev.push(
                ServerEvent::Log { line: LogLine::MatchStarted },
            )
    } else {
        post == pre && events.len() == 0
    }
}

/// A `StartGame` from `src`; see `start_game_outcome`.
pub fn handle_start_game(state: &mut ServerState, src: ClientAddr, now: u64) -> (events: Vec<ServerEvent>)
    requires
        old(state).wf(),
    ensures
        final(state).wf(),
        final(state).level == old(state).level,
        start_game_outcome(old(state).level, old(state)@, src, now, final(state)@, events@),
{
    if sender_is_host(state, src) && state.match_state == MatchState::Lobby {
        let mut events = crate::server::begin_new_round(state, now);
        let ghost ev = events@;
        events.push(ServerEvent::Log { line: LogLine::MatchStarted });
        proof {
            assert(crate::server::new_round_outcome(old(state).level, old(state)@, now, state@, ev));
        }
        events
    } else {
        Vec::new()
    }
}

/// The outcome of a `ToggleBots` from `src`: only the host may toggle, and
/// only in the lobby; the new setting is logged.
pub open spec fn toggle_bots_outcome(pre: ServerModel, src: ClientAddr, post: ServerModel, events: Seq<ServerEvent>) -> bool {
    if crate::server::is_host_addr(pre, src) && pre.match_state == MatchState::Lobby {
        &&& post == ServerModel { bots_enabled: !pre.bots_enabled, ..pre }
        &&& events == seq![ServerEvent::Log { line: LogLine::BotsToggled { enabled: !pre.bots_enabled } }]
    } else {
        post == pre && events.len() == 0
    }
}

/// A `ToggleBots` from `src`; see `toggle_bots_outcome`.
pub fn handle_toggle_bots(state: &mut ServerState, src: ClientAddr) -> (events: Vec<ServerEvent>)
    requires
        old(state).wf(),
    ensures
        final(state).wf(),
        final(state).level == old(state).level,
        toggle_bots_outcome(old(state)@, src, final(state)@, events@),
{
    let mut events: Vec<ServerEvent> = Vec::new();
    if sender_is_host(state, src) && state.match_state == MatchState::Lobby {
        state.bots_enabled = !state.bots_enabled;
        events.push(ServerEvent::Log { line: LogLine::BotsToggled { enabled: state.bots_enabled } });
        proof {
            assert(events@ =~= seq![ServerEvent::Log { line: LogLine::BotsToggled { enabled: !old(state)@.bots_enabled } }]);
        }
    }
    events
}

// ---------------------------------------------------------------------------
// Dispatch

/// The outcome of any client message; a custom map is not acted on.
pub open spec fn client_message_outcome(
    level: Level,
    pre: ServerModel,
    msg: ClientMessage,
    src: ClientAddr,
    now: u64,
    level2: Level,
    post: ServerModel,
    events: Seq<ServerEvent>,
) -> bool {
    match msg {
        ClientMessage::Join { name } => level2 == level && join_outcome(level, pre, src, name, now, post, events),
        ClientMessage::Input { action } => level2 == level && input_outcome(level, pre, src, action, now, post)
            && events.len() == 0,
        ClientMessage::Shoot => level2 == level && shoot_outcome(level, pre, src, now, post, events),
        ClientMessage::RequestLevel { level_idx } => request_level_outcome(pre, src, level_idx, now, level2, post, events)
            && (!crate::server::is_host_addr(pre, src) ==> level2 == level),
        ClientMessage::BackToLobby => level2 == level && back_to_lobby_outcome(pre, src, now, post) && events.len() == 0,
        ClientMessage::Heartbeat => level2 == level && heartbeat_outcome(pre, src, now, post) && events.len() == 0,
        ClientMessage::Leave => level2 == level && leave_outcome(level, pre, src, post, events),
        ClientMessage::CustomMap { .. } => level2 == level && post == pre && events.len() == 0,
        ClientMessage::StartGame => level2 == level && start_game_outcome(level, pre, src, now, post, events),
        ClientMessage::ToggleBots => level2 == level && toggle_bots_outcome(pre, src, post, events),
    }
}

/// Handles a datagram from `src` received at `now`.
pub fn handle_client_message(state: &mut ServerState, msg: &ClientMessage, src: ClientAddr, now: u64) -> (events: Vec<ServerEvent>)
    requires
        old(state).wf(),
    ensures
        final(state).wf(),
        client_message_outcome(old(state).level, old(state)@, *msg, src, now, final(state).level, final(state)@, events@),
{
    match msg {
        ClientMessage::Join { name } => handle_join(state, src, name, now),
        ClientMessage::Input { action } => {
            handle_input(state, src, *action, now);
            Vec::new()
        },
        ClientMessage::Shoot => handle_shoot(state, src, now),
        ClientMessage::RequestLevel { level_idx } => handle_request_level(state, src, *level_idx, now),
        ClientMessage::BackToLobby => {
            handle_back_to_lobby(state, src, now);
            Vec::new()
        },
        ClientMessage::Heartbeat => {
            handle_heartbeat(state, src, now);
            Vec::new()
        },
        ClientMessage::Leave => handle_leave(state, src),
        ClientMessage::CustomMap { .. } => Vec::new(),
        ClientMessage::StartGame => handle_start_game(state, src, now),
        ClientMessage::ToggleBots => handle_toggle_bots(state, src),
    }
}

} // verus!
