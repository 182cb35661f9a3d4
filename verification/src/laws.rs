//! Properties of the game rules that span several calls.

use vstd::prelude::*;

use crate::game::{
    dirs_valid, has_id, ids_unique, index_of, is_human, lemma_index_of, lemma_update_keeps_valid, upserted, PlayerState, FIRST_BOT_ID, FULL_HEALTH, HEARTBEAT_TIMEOUT_NANOS, MAX_PLAYERS,
    RESPAWN_TICKS,
};
use crate::handlers::{
    acted, back_to_lobby_outcome, can_enter, departure_outcome, without_player, heartbeat_outcome, input_outcome, join_outcome, new_human, stepped,
    players_after_entry, request_level_outcome, start_game_outcome, step_dest, toggle_bots_outcome,
};
use crate::levels::Level;
use crate::controls::{frame_messages, FrameView, Keys};
use crate::ai::{bot_turn, bot_turns, cooldown_of, sight, turn_toward, wander, BotWorld};
use crate::physics::{
    after_hit, damaged, lemma_after_hit_keeps_valid, lemma_ray_hit_valid, occupied_by_other, occupied_seq,
    respawned_all, spawned, stands_at, valid_spawn, RayStop,
};
use crate::protocol::{ClientMessage, MatchState, PlayerAction};
use crate::server::{
    addrs_unique, all_zeroed, bots_added, bots_to_spawn, first_where, human_count, is_bot, is_host_addr,
    is_new_bot, lemma_first_where, bot_present, replacement_bot_number,
    new_round_outcome, new_round_players, session_index, ClientAddr, LogLine, Reply, ServerEvent,
    ServerModel,
};
use crate::tick::{bot_id_seq, bots_ticked, due, respawn_outcome, silent};

verus! {

/// A quarter turn to the left followed by one to the right, or the other
/// way round, leaves the players as they were; so do four quarter turns
/// to the left.
pub proof fn law_turns_cancel(level: Level, ps: Seq<PlayerState>, pi: int)
    requires
        0 <= pi < ps.len(),
        ps[pi].dir_idx < 4,
    ensures
        acted(level, acted(level, ps, pi, PlayerAction::TurnLeft), pi, PlayerAction::TurnRight) == ps,
        acted(level, acted(level, ps, pi, PlayerAction::TurnRight), pi, PlayerAction::TurnLeft) == ps,
        acted(
            level,
            acted(level, acted(level, acted(level, ps, pi, PlayerAction::TurnLeft), pi, PlayerAction::TurnLeft), pi, PlayerAction::TurnLeft),
            pi,
            PlayerAction::TurnLeft,
        ) == ps,
{
    let p = ps[pi];
    let l1 = acted(level, ps, pi, PlayerAction::TurnLeft);
    assert(acted(level, l1, pi, PlayerAction::TurnRight) =~= ps);
    let r1 = acted(level, ps, pi, PlayerAction::TurnRight);
    assert(acted(level, r1, pi, PlayerAction::TurnLeft) =~= ps);
    let l2 = acted(level, l1, pi, PlayerAction::TurnLeft);
    let l3 = acted(level, l2, pi, PlayerAction::TurnLeft);
    assert(acted(level, l3, pi, PlayerAction::TurnLeft) =~= ps);
}

/// A step forward that succeeds, followed by a step back, brings the
/// player back to its cell, when that cell is an open cell of the level
/// on which no other living player stands.
pub proof fn law_step_back_returns(level: Level, ps: Seq<PlayerState>, pi: int)
    requires
        level.wf(),
        0 <= pi < ps.len(),
        ps[pi].dir_idx < 4,
        ps[pi].x < level.width,
        ps[pi].y < level.height,
        !level.wall(ps[pi].x as int, ps[pi].y as int),
        !occupied_by_other(ps, ps[pi].id, ps[pi].x as int, ps[pi].y as int),
        can_enter(level, ps, pi, step_dest(ps[pi], ps[pi].dir_idx as int)),
    ensures
        acted(level, acted(level, ps, pi, PlayerAction::MoveForward), pi, PlayerAction::MoveBackward) == ps,
{
    let p = ps[pi];
    let d = step_dest(p, p.dir_idx as int);
    let ps1 = acted(level, ps, pi, PlayerAction::MoveForward);
    assert(ps1 == ps.update(pi, PlayerState { x: d.0 as usize, y: d.1 as usize, ..p }));
    let back = (ps1[pi].dir_idx as int + 2) % 4;
    assert(step_dest(ps1[pi], back) == (p.x as int, p.y as int));
    assert(!occupied_by_other(ps1, ps1[pi].id, p.x as int, p.y as int)) by {
        if occupied_by_other(ps1, ps1[pi].id, p.x as int, p.y as int) {
            let j = choose|j: int| 0 <= j < ps1.len() && stands_at(#[trigger] ps1[j], ps1[pi].id, p.x as int, p.y as int);
            assert(j != pi);
            assert(stands_at(ps[j], p.id, p.x as int, p.y as int));
        }
    }
    assert(acted(level, ps1, pi, PlayerAction::MoveBackward) =~= ps);
}

/// Three laser hits kill a player at full health, and two do not.
pub proof fn law_three_hits_kill(p: PlayerState)
    requires
        p.is_alive,
        p.health == FULL_HEALTH,
    ensures
        damaged(p).is_alive,
        damaged(damaged(p)).is_alive,
        !damaged(damaged(damaged(p))).is_alive,
        damaged(damaged(damaged(p))).deaths == p.deaths.wrapping_add(1),
{
    assert(damaged(p).health == 65);
    assert(damaged(damaged(p)).health == 30);
}

/// Toggling the bots twice from the same address leaves the server as it
/// was.
pub proof fn law_toggle_twice_restores(
    pre: ServerModel,
    src: ClientAddr,
    mid: ServerModel,
    post: ServerModel,
    e1: Seq<ServerEvent>,
    e2: Seq<ServerEvent>,
)
    requires
        toggle_bots_outcome(pre, src, mid, e1),
        toggle_bots_outcome(mid, src, post, e2),
    ensures
        post == pre,
{
}

/// Only the host changes the level, toggles the bots, starts a round or
/// returns to the lobby: the same requests from any other client change
/// nothing and send nothing.
pub proof fn law_guests_cannot_command(
    level: Level,
    pre: ServerModel,
    src: ClientAddr,
    now: u64,
    idx: usize,
    new_level: Level,
    post: ServerModel,
    events: Seq<ServerEvent>,
)
    requires
        !is_host_addr(pre, src),
    ensures
        toggle_bots_outcome(pre, src, post, events) ==> post == pre && events.len() == 0,
        start_game_outcome(level, pre, src, now, post, events) ==> post == pre && events.len() == 0,
        request_level_outcome(pre, src, idx, now, new_level, post, events) ==> post == pre && events.len() == 0,
        back_to_lobby_outcome(pre, src, now, post) ==> post == pre,
{
}

/// The first client to join a server without a host becomes the host and
/// is told so, when its new id is not taken by a player already.
pub proof fn law_first_joiner_hosts(
    level: Level,
    pre: ServerModel,
    src: ClientAddr,
    name: String,
    now: u64,
    post: ServerModel,
    events: Seq<ServerEvent>,
)
    requires
        pre.host_id == 0,
        session_index(pre.sessions, src) < 0,
        human_count(pre.players) < MAX_PLAYERS,
        !has_id(pre.players, pre.next_player_id),
        join_outcome(level, pre, src, name, now, post, events),
    ensures
        post.host_id == pre.next_player_id,
        events.len() > 0,
        events.last() == (ServerEvent::Send {
            to: src,
            reply: Reply::Welcome { player_id: pre.next_player_id, is_host: true },
        }),
{
    reveal(join_outcome);
}

/// A new client is refused while `MAX_PLAYERS` humans play: it is told
/// that the server is full, the refusal is logged, and nothing else
/// changes.
pub proof fn law_full_server_refuses(
    level: Level,
    pre: ServerModel,
    src: ClientAddr,
    name: String,
    now: u64,
    post: ServerModel,
    events: Seq<ServerEvent>,
)
    requires
        session_index(pre.sessions, src) < 0,
        human_count(pre.players) >= MAX_PLAYERS,
        join_outcome(level, pre, src, name, now, post, events),
    ensures
        post == pre,
        events == seq![
            ServerEvent::Send { to: src, reply: Reply::RejectFull },
            ServerEvent::Log { line: LogLine::Rejected { addr: src } },
        ],
{
    reveal(join_outcome);
}

/// After a heartbeat the client stays connected: its session is not
/// silent at any time up to `HEARTBEAT_TIMEOUT_NANOS` later.
pub proof fn law_heartbeat_keeps_session(
    pre: ServerModel,
    src: ClientAddr,
    now: u64,
    post: ServerModel,
    later: u64,
)
    requires
        addrs_unique(pre.sessions),
        session_index(pre.sessions, src) >= 0,
        heartbeat_outcome(pre, src, now, post),
        later - now <= HEARTBEAT_TIMEOUT_NANOS,
    ensures
        session_index(post.sessions, src) >= 0,
        !silent(later)(post.sessions[session_index(post.sessions, src)]),
{
    let si = session_index(pre.sessions, src);
    crate::server::lemma_session_index(pre.sessions, src, si);
    assert(post.sessions[si].addr == src);
    assert(addrs_unique(post.sessions)) by {
        assert forall|a: int, b: int|
            0 <= a < post.sessions.len() && 0 <= b < post.sessions.len() && a != b implies #[trigger] post.sessions[a].addr
            != #[trigger] post.sessions[b].addr by {
            assert(post.sessions[a].addr == pre.sessions[a].addr && post.sessions[b].addr == pre.sessions[b].addr);
        }
    }
    crate::server::lemma_session_index(post.sessions, src, si);
}

/// Storing bots whose ids no player has, and which differ from each other,
/// appends them in order.
proof fn lemma_bots_appended(ps: Seq<PlayerState>, bots: Seq<PlayerState>)
    requires
        forall|i: int, j: int| 0 <= i < ps.len() && 0 <= j < bots.len() ==> #[trigger] ps[i].id != #[trigger] bots[j].id,
        forall|j: int, k: int| 0 <= j < k < bots.len() ==> #[trigger] bots[j].id != #[trigger] bots[k].id,
    ensures
        bots_added(ps, bots) == ps + bots,
    decreases bots.len(),
{
    if bots.len() == 0 {
        assert(ps + bots =~= ps);
    } else {
        let rest = bots.drop_last();
        let b = bots.last();
        lemma_bots_appended(ps, rest);
        let q = ps + rest;
        assert(!has_id(q, b.id)) by {
            if has_id(q, b.id) {
                let i = choose|i: int| 0 <= i < q.len() && #[trigger] q[i].id == b.id;
                if i < ps.len() {
                    assert(ps[i].id != bots[bots.len() - 1].id);
                } else {
                    assert(bots[i - ps.len()].id != bots[bots.len() - 1].id);
                }
            }
        }
        assert(q.push(b) =~= ps + bots);
    }
}

/// A round that starts with bots enabled fills the match to
/// `MAX_PLAYERS` players: first the humans, then bots. This holds when at
/// most `MAX_PLAYERS` humans play and none of them carries a bot's id.
pub proof fn law_round_fills_with_bots(level: Level, pre: ServerModel, now: u64, post: ServerModel, events: Seq<ServerEvent>)
    requires
        new_round_outcome(level, pre, now, post, events),
        pre.bots_enabled,
        human_count(pre.players) <= MAX_PLAYERS,
        forall|i: int|
            0 <= i < pre.players.len() && !(#[trigger] pre.players[i]).is_bot ==> pre.players[i].id < FIRST_BOT_ID
                || pre.players[i].id >= FIRST_BOT_ID + MAX_PLAYERS,
    ensures
        post.players.len() == MAX_PLAYERS,
        forall|k: int| 0 <= k < post.players.len() ==> (#[trigger] post.players[k].is_bot <==> k >= human_count(pre.players)),
{
    reveal(new_round_players);
    let h = pre.players.filter(is_human());
    let (r, bots, cells) = choose|r: Seq<PlayerState>, bots: Seq<PlayerState>, cells: Seq<(usize, usize)>|
        {
            &&& respawned_all(level, h, r)
            &&& bots.len() == bots_to_spawn(h.len(), true)
            &&& cells.len() == bots.len()
            &&& forall|j: int|
                0 <= j < bots.len() ==> is_new_bot(#[trigger] bots[j], j + 1, cells[j]) && valid_spawn(
                    level,
                    occupied_seq(all_zeroed(r), None) + cells.take(j),
                    cells[j],
                )
            &&& post.players == bots_added(all_zeroed(r), bots)
        };
    let z = all_zeroed(r);
    assert forall|k: int| 0 <= k < z.len() implies !(#[trigger] z[k]).is_bot && (z[k].id < FIRST_BOT_ID || z[k].id
        >= FIRST_BOT_ID + MAX_PLAYERS) by {
        assert(z[k].id == h[k].id && z[k].is_bot == h[k].is_bot);
        pre.players.lemma_filter_pred(is_human(), k);
        assert(h.contains(h[k]));
        pre.players.lemma_filter_contains_rev(is_human(), h[k]);
        let i = choose|i: int| 0 <= i < pre.players.len() && pre.players[i] == h[k];
        assert(!pre.players[i].is_bot);
    }
    assert forall|i: int, j: int| 0 <= i < z.len() && 0 <= j < bots.len() implies #[trigger] z[i].id != #[trigger] bots[j].id by {
        assert(is_new_bot(bots[j], j + 1, cells[j]));
    }
    assert forall|j: int, k: int| 0 <= j < k < bots.len() implies #[trigger] bots[j].id != #[trigger] bots[k].id by {
        assert(is_new_bot(bots[j], j + 1, cells[j]));
        assert(is_new_bot(bots[k], k + 1, cells[k]));
    }
    lemma_bots_appended(z, bots);
    assert forall|k: int| 0 <= k < post.players.len() implies (#[trigger] post.players[k].is_bot <==> k >= human_count(
        pre.players,
    )) by {
        if k >= z.len() {
            assert(is_new_bot(bots[k - z.len()], k - z.len() + 1, cells[k - z.len()]));
        } else {
            assert(!z[k].is_bot);
        }
    }
}

/// Over consecutive respawn steps, a player killed this tick stays dead
/// for `RESPAWN_TICKS - 1` steps, counting its wait down, and is alive
/// again with full health after `RESPAWN_TICKS` steps.
pub proof fn law_respawn_after_wait(level: Level, trace: Seq<Seq<PlayerState>>, i: int)
    requires
        trace.len() == RESPAWN_TICKS + 1,
        forall|k: int| 0 <= k < RESPAWN_TICKS ==> respawn_outcome(level, #[trigger] trace[k], trace[k + 1]),
        0 <= i < trace[0].len(),
        !trace[0][i].is_alive,
        trace[0][i].respawn_ticks == RESPAWN_TICKS,
    ensures
        forall|k: int| 0 <= k < RESPAWN_TICKS ==> !(#[trigger] trace[k][i]).is_alive && trace[k][i].respawn_ticks == RESPAWN_TICKS - k,
        trace[RESPAWN_TICKS as int][i].is_alive,
        trace[RESPAWN_TICKS as int][i].health == FULL_HEALTH,
        trace[RESPAWN_TICKS as int][i].id == trace[0][i].id,
{
    lemma_waiting(level, trace, i, RESPAWN_TICKS - 1);
    assert forall|k: int| 0 <= k < RESPAWN_TICKS implies !(#[trigger] trace[k][i]).is_alive && trace[k][i].respawn_ticks
        == RESPAWN_TICKS - k by {
        lemma_waiting(level, trace, i, k);
    }
    let last = (RESPAWN_TICKS - 1) as int;
    assert(respawn_outcome(level, trace[last], trace[last + 1]));
    assert(due(trace[last][i]));
}

proof fn lemma_waiting(level: Level, trace: Seq<Seq<PlayerState>>, i: int, k: int)
    requires
        trace.len() == RESPAWN_TICKS + 1,
        forall|k: int| 0 <= k < RESPAWN_TICKS ==> respawn_outcome(level, #[trigger] trace[k], trace[k + 1]),
        0 <= i < trace[0].len(),
        !trace[0][i].is_alive,
        trace[0][i].respawn_ticks == RESPAWN_TICKS,
        0 <= k < RESPAWN_TICKS,
    ensures
        i < trace[k].len(),
        !trace[k][i].is_alive,
        trace[k][i].respawn_ticks == RESPAWN_TICKS - k,
        trace[k][i].id == trace[0][i].id,
    decreases k,
{
    if k > 0 {
        lemma_waiting(level, trace, i, k - 1);
        assert(respawn_outcome(level, trace[k - 1], trace[k]));
        assert(!due(trace[k - 1][i]));
    }
}

/// Removing a player that the test rejects leaves the players that pass it
/// as they were.
proof fn lemma_filter_remove_rejected(ps: Seq<PlayerState>, pred: spec_fn(PlayerState) -> bool, b: int)
    requires
        0 <= b < ps.len(),
        !pred(ps[b]),
    ensures
        ps.remove(b).filter(pred) == ps.filter(pred),
    decreases ps.len(),
{
    let init = ps.drop_last();
    let last = ps.last();
    assert(init.push(last) =~= ps);
    init.lemma_filter_push(last, pred);
    if b == ps.len() - 1 {
        assert(ps.remove(b) =~= init);
    } else {
        assert(init[b] == ps[b]);
        lemma_filter_remove_rejected(init, pred, b);
        assert(ps.remove(b) =~= init.remove(b).push(last));
        init.remove(b).lemma_filter_push(last, pred);
    }
}

/// A join from a new client never brings the number of humans above
/// `MAX_PLAYERS` (nor above the number before, when that was higher).
pub proof fn law_join_keeps_player_cap(
    level: Level,
    pre: ServerModel,
    src: ClientAddr,
    name: String,
    now: u64,
    post: ServerModel,
    events: Seq<ServerEvent>,
)
    requires
        session_index(pre.sessions, src) < 0,
        join_outcome(level, pre, src, name, now, post, events),
    ensures
        human_count(post.players) <= if human_count(pre.players) > MAX_PLAYERS {
            human_count(pre.players)
        } else {
            MAX_PLAYERS as nat
        },
{
    reveal(join_outcome);
    let pid = pre.next_player_id;
    if human_count(pre.players) < MAX_PLAYERS && !has_id(pre.players, pid) {
        assert(exists|cell: (usize, usize)| #[trigger] players_after_entry(pre, pid, name, cell) == post.players);
        let cell = choose|cell: (usize, usize)| #[trigger] players_after_entry(pre, pid, name, cell) == post.players;
        let h = new_human(pid, name, cell);
        let ps1 = upserted(pre.players, h);
        assert(ps1 == pre.players.push(h));
        pre.players.lemma_filter_push(h, is_human());
        assert(human_count(ps1) == human_count(pre.players) + 1);
        let b = first_where(ps1, is_bot(), 0);
        if pre.match_state == MatchState::Playing && pre.bots_enabled && b >= 0 {
            lemma_first_where(ps1, is_bot(), 0);
            lemma_filter_remove_rejected(ps1, is_human(), b);
        }
    }
}

// ---------------------------------------------------------------------------
// Bots keep living players apart

/// No two living players stand in the same cell.
pub open spec fn cells_apart(ps: Seq<PlayerState>) -> bool {
    forall|i: int, j: int|
        0 <= i < ps.len() && 0 <= j < ps.len() && i != j && ps[i].is_alive && ps[j].is_alive ==> (
        #[trigger] ps[i]).x != (#[trigger] ps[j]).x || ps[i].y != ps[j].y
}

/// `q` stands on the cell of `p`, or on the next cell along `p`'s facing
/// when that cell lies in the grid and is no wall.
pub open spec fn stayed_or_stepped(level: Level, p: PlayerState, q: PlayerState) -> bool {
    let d = step_dest(p, p.dir_idx as int);
    ||| q.x == p.x && q.y == p.y
    ||| q.x == d.0 && q.y == d.1 && 0 <= d.0 < level.width && 0 <= d.1 < level.height && !level.wall(d.0, d.1)
}

proof fn lemma_turn_toward_range(level: Level, ps: Seq<PlayerState>, bi: int, d: int)
    ensures
        turn_toward(level, ps, bi, d) matches Some(r) ==> d <= r < 4,
    decreases 4 - d,
{
    if 0 <= d < 4 {
        lemma_turn_toward_range(level, ps, bi, d + 1);
    }
}

/// What one bot's tick changes: only the bot moves or turns, and only as
/// `stayed_or_stepped` allows; a hit may kill a player but brings none to
/// life; ids, valid facings and living players on distinct cells are kept.
proof fn lemma_bot_turn_frame(level: Level, pre: BotWorld, id: u32, post: BotWorld)
    requires
        level.wf(),
        ids_unique(pre.0),
        dirs_valid(pre.0),
        bot_turn(level, pre, id, post),
    ensures
        post.0.len() == pre.0.len(),
        ids_unique(post.0),
        dirs_valid(post.0),
        cells_apart(pre.0) ==> cells_apart(post.0),
        forall|i: int| 0 <= i < pre.0.len() ==> (#[trigger] post.0[i]).id == pre.0[i].id && (post.0[i].is_alive
            ==> pre.0[i].is_alive),
        forall|i: int|
            0 <= i < pre.0.len() && pre.0[i].id != id ==> (#[trigger] post.0[i]).x == pre.0[i].x && post.0[i].y
                == pre.0[i].y && post.0[i].dir_idx == pre.0[i].dir_idx,
        forall|i: int| 0 <= i < pre.0.len() && pre.0[i].id == id ==> stayed_or_stepped(level, pre.0[i], #[trigger] post.0[i]),
{
    reveal(bot_turn);
    let ps = pre.0;
    let ps2 = post.0;
    let bi = index_of(ps, id);
    if bi >= 0 {
        assert(0 <= bi < ps.len() && ps[bi].id == id);
    }
    assert forall|i: int| 0 <= i < ps.len() && ps[i].id == id implies i == bi by {
        lemma_index_of(ps, id, i);
    }
    if bi < 0 || !ps[bi].is_alive || cooldown_of(pre.2, id) > 0 {
        assert(ps2 == ps);
    } else {
        let b = ps[bi];
        match sight(level, ps, bi, b.dir_idx as int) {
            RayStop::Hit { index, steps } => {
                lemma_ray_hit_valid(level, ps, b.id, b.x as int, b.y as int, b.dir_idx as int, 1);
                lemma_after_hit_keeps_valid(ps, bi, index);
                let ps1 = ps.update(index, damaged(ps[index]));
                assert(ps2 == after_hit(ps, bi, index));
                assert forall|i: int| 0 <= i < ps.len() implies #[trigger] ps2[i].id == ps[i].id && ps2[i].x == ps[i].x
                    && ps2[i].y == ps[i].y && ps2[i].dir_idx == ps[i].dir_idx && (ps2[i].is_alive ==> ps[i].is_alive) by {
                    assert(ps1[i].x == ps[i].x && ps1[i].is_alive ==> ps[i].is_alive);
                }
            },
            _ => {
                match turn_toward(level, ps, bi, 0) {
                    Some(d) => {
                        lemma_turn_toward_range(level, ps, bi, 0);
                        lemma_update_keeps_valid(ps, bi, PlayerState { dir_idx: d as usize, ..b });
                    },
                    None => {
                        let (tm, cw) = choose|tm: bool, cw: bool| ps2 == ps.update(bi, #[trigger] wander(level, ps, bi, tm, cw));
                        let q = wander(level, ps, bi, tm, cw);
                        assert(q.id == b.id && q.dir_idx < 4);
                        lemma_update_keeps_valid(ps, bi, q);
                        assert(stayed_or_stepped(level, b, q));
                        if cells_apart(ps) {
                            assert forall|i: int, j: int|
                                0 <= i < ps2.len() && 0 <= j < ps2.len() && i != j && ps2[i].is_alive && ps2[j].is_alive implies (
                                #[trigger] ps2[i]).x != (#[trigger] ps2[j]).x || ps2[i].y != ps2[j].y by {
                                if i == bi || j == bi {
                                    let o = if i == bi { j } else { i };
                                    assert(ps2[o] == ps[o]);
                                    if q.x != b.x || q.y != b.y {
                                        let dd = step_dest(b, b.dir_idx as int);
                                        if ps[o].x == q.x && ps[o].y == q.y {
                                            assert(ps[o].id != b.id);
                                            assert(stands_at(ps[o], b.id, dd.0, dd.1));
                                            assert(occupied_by_other(ps, b.id, dd.0, dd.1));
                                        }
                                    }
                                }
                            }
                        }
                    },
                }
            },
        }
    }
}

/// Over any list of bots' turns, the living players stay on distinct
/// cells; ids and valid facings are kept, no dead player comes back to
/// life, and a player whose id is not in the list neither moves nor turns.
pub proof fn law_bots_keep_cells_apart(level: Level, ids: Seq<u32>, trace: Seq<BotWorld>)
    requires
        level.wf(),
        bot_turns(level, ids, trace),
        ids_unique(trace[0].0),
        dirs_valid(trace[0].0),
        cells_apart(trace[0].0),
    ensures
        ({
            let first = trace[0].0;
            let last = trace[ids.len() as int].0;
            &&& last.len() == first.len()
            &&& ids_unique(last)
            &&& dirs_valid(last)
            &&& cells_apart(last)
            &&& forall|i: int| 0 <= i < first.len() ==> (#[trigger] last[i]).id == first[i].id && (last[i].is_alive
                ==> first[i].is_alive)
            &&& forall|i: int|
                0 <= i < first.len() && !ids.contains(first[i].id) ==> (#[trigger] last[i]).x == first[i].x
                    && last[i].y == first[i].y && last[i].dir_idx == first[i].dir_idx
        }),
{
    lemma_bots_apart_prefix(level, ids, trace, ids.len() as int);
    assert(ids.take(ids.len() as int) =~= ids);
}

proof fn lemma_bots_apart_prefix(level: Level, ids: Seq<u32>, trace: Seq<BotWorld>, k: int)
    requires
        level.wf(),
        bot_turns(level, ids, trace),
        ids_unique(trace[0].0),
        dirs_valid(trace[0].0),
        cells_apart(trace[0].0),
        0 <= k <= ids.len(),
    ensures
        ({
            let first = trace[0].0;
            let cur = trace[k].0;
            &&& cur.len() == first.len()
            &&& ids_unique(cur)
            &&& dirs_valid(cur)
            &&& cells_apart(cur)
            &&& forall|i: int| 0 <= i < first.len() ==> (#[trigger] cur[i]).id == first[i].id && (cur[i].is_alive
                ==> first[i].is_alive)
            &&& forall|i: int|
                0 <= i < first.len() && !ids.take(k).contains(first[i].id) ==> (#[trigger] cur[i]).x == first[i].x
                    && cur[i].y == first[i].y && cur[i].dir_idx == first[i].dir_idx
        }),
    decreases k,
{
    let first = trace[0].0;
    if k > 0 {
        lemma_bots_apart_prefix(level, ids, trace, k - 1);
        let cur = trace[k - 1].0;
        let next = trace[k].0;
        let id = ids[k - 1];
        assert(bot_turn(level, trace[k - 1], ids[k - 1], trace[k]));
        lemma_bot_turn_frame(level, trace[k - 1], id, trace[k]);
        assert(ids.take(k) =~= ids.take(k - 1).push(id));
        assert forall|i: int| 0 <= i < first.len() implies (#[trigger] next[i]).id == first[i].id && (next[i].is_alive
            ==> first[i].is_alive) by {
            assert(next[i].id == cur[i].id);
        }
        assert forall|i: int|
            0 <= i < first.len() && !ids.take(k).contains(first[i].id) implies (#[trigger] next[i]).x == first[i].x
                && next[i].y == first[i].y && next[i].dir_idx == first[i].dir_idx by {
            assert(ids.take(k)[k - 1] == id);
            if ids.take(k - 1).contains(first[i].id) {
                let t = ids.take(k - 1);
                let a = choose|a: int| 0 <= a < t.len() && #[trigger] t[a] == first[i].id;
                assert(ids.take(k)[a] == first[i].id);
            }
        }
    }
}

/// When no bot is listed twice, as in the server's own list
/// `bot_id_seq`, every player ends on its old cell or, if it took a turn,
/// possibly on the next cell along its old facing, which lies in the grid
/// and is no wall. (A bot listed again could act a second time once its
/// cooldown has run out, and so take a second step.)
pub proof fn law_bots_step_at_most_once(level: Level, ids: Seq<u32>, trace: Seq<BotWorld>)
    requires
        level.wf(),
        bot_turns(level, ids, trace),
        ids_unique(trace[0].0),
        dirs_valid(trace[0].0),
        cells_apart(trace[0].0),
        forall|a: int, b: int| 0 <= a < b < ids.len() ==> ids[a] != ids[b],
    ensures
        forall|i: int|
            0 <= i < trace[0].0.len() ==> stayed_or_stepped(level, trace[0].0[i], #[trigger] trace[ids.len() as int].0[i]),
{
    lemma_bots_prefix(level, ids, trace, ids.len() as int);
}

proof fn lemma_bots_prefix(level: Level, ids: Seq<u32>, trace: Seq<BotWorld>, k: int)
    requires
        level.wf(),
        bot_turns(level, ids, trace),
        ids_unique(trace[0].0),
        dirs_valid(trace[0].0),
        cells_apart(trace[0].0),
        forall|a: int, b: int| 0 <= a < b < ids.len() ==> ids[a] != ids[b],
        0 <= k <= ids.len(),
    ensures
        ({
            let first = trace[0].0;
            let cur = trace[k].0;
            &&& cur.len() == first.len()
            &&& ids_unique(cur)
            &&& dirs_valid(cur)
            &&& cells_apart(cur)
            &&& forall|i: int| 0 <= i < first.len() ==> (#[trigger] cur[i]).id == first[i].id
                && stayed_or_stepped(level, first[i], cur[i]) && (cur[i].is_alive ==> first[i].is_alive)
            &&& forall|i: int|
                0 <= i < first.len() && !ids.take(k).contains(first[i].id) ==> (#[trigger] cur[i]).x == first[i].x
                    && cur[i].y == first[i].y && cur[i].dir_idx == first[i].dir_idx
        }),
    decreases k,
{
    let first = trace[0].0;
    if k == 0 {
        assert forall|i: int| 0 <= i < first.len() implies stayed_or_stepped(level, first[i], #[trigger] first[i]) by {}
    } else {
        lemma_bots_prefix(level, ids, trace, k - 1);
        let cur = trace[k - 1].0;
        let next = trace[k].0;
        let id = ids[k - 1];
        assert(bot_turn(level, trace[k - 1], ids[k - 1], trace[k]));
        lemma_bot_turn_frame(level, trace[k - 1], id, trace[k]);
        assert(ids.take(k) =~= ids.take(k - 1).push(id));
        assert forall|i: int| 0 <= i < first.len() implies (#[trigger] next[i]).id == first[i].id && stayed_or_stepped(
            level,
            first[i],
            next[i],
        ) && (next[i].is_alive ==> first[i].is_alive) by {
            assert(next[i].id == cur[i].id);
            if cur[i].id == id {
                if ids.take(k - 1).contains(first[i].id) {
                    let t = ids.take(k - 1);
                    let a = choose|a: int| 0 <= a < t.len() && #[trigger] t[a] == first[i].id;
                    assert(ids[a] == ids[k - 1]);
                }
                assert(stayed_or_stepped(level, cur[i], next[i]));
            }
        }
        assert forall|i: int|
            0 <= i < first.len() && !ids.take(k).contains(first[i].id) implies (#[trigger] next[i]).x == first[i].x
                && next[i].y == first[i].y && next[i].dir_idx == first[i].dir_idx by {
            assert(ids.take(k)[k - 1] == id);
            if ids.take(k - 1).contains(first[i].id) {
                let t = ids.take(k - 1);
                    let a = choose|a: int| 0 <= a < t.len() && #[trigger] t[a] == first[i].id;
                assert(ids.take(k)[a] == first[i].id);
            }
        }
    }
}

/// The bots' stage of a server tick keeps the living players on distinct
/// cells, and every player ends on its old cell or on the next cell along
/// its old facing, which lies in the grid and is no wall.
pub proof fn law_bot_stage_keeps_cells_apart(level: Level, pre: ServerModel, post: ServerModel)
    requires
        level.wf(),
        bots_ticked(level, pre, post),
        ids_unique(pre.players),
        dirs_valid(pre.players),
        cells_apart(pre.players),
    ensures
        cells_apart(post.players),
        post.players.len() == pre.players.len(),
        forall|i: int| 0 <= i < pre.players.len() ==> stayed_or_stepped(level, pre.players[i], #[trigger] post.players[i]),
{
    if pre.match_state == MatchState::Playing && pre.bots_enabled {
        let trace = choose|trace: Seq<BotWorld>|
            {
                &&& bot_turns(level, bot_id_seq(), trace)
                &&& trace[0] == (pre.players, pre.lasers, pre.bot_cooldowns)
                &&& trace[bot_id_seq().len() as int] == (post.players, post.lasers, post.bot_cooldowns)
                &&& post == ServerModel {
                    players: post.players,
                    lasers: post.lasers,
                    bot_cooldowns: post.bot_cooldowns,
                    ..pre
                }
            };
        law_bots_keep_cells_apart(level, bot_id_seq(), trace);
        law_bots_step_at_most_once(level, bot_id_seq(), trace);
    } else {
        assert forall|i: int| 0 <= i < pre.players.len() implies stayed_or_stepped(
            level,
            pre.players[i],
            #[trigger] post.players[i],
        ) by {}
    }
}

// ---------------------------------------------------------------------------
// Inputs keep living players apart

proof fn lemma_stepped_apart(level: Level, ps: Seq<PlayerState>, pi: int, dir: int)
    requires
        ids_unique(ps),
        cells_apart(ps),
        0 <= pi < ps.len(),
    ensures
        cells_apart(stepped(level, ps, pi, dir)),
        stepped(level, ps, pi, dir).len() == ps.len(),
{
    let d = step_dest(ps[pi], dir);
    let ps2 = stepped(level, ps, pi, dir);
    if can_enter(level, ps, pi, d) {
        let q = PlayerState { x: d.0 as usize, y: d.1 as usize, ..ps[pi] };
        assert(ps2 == ps.update(pi, q));
        assert forall|i: int, j: int|
            0 <= i < ps2.len() && 0 <= j < ps2.len() && i != j && ps2[i].is_alive && ps2[j].is_alive implies (
            #[trigger] ps2[i]).x != (#[trigger] ps2[j]).x || ps2[i].y != ps2[j].y by {
            if i == pi || j == pi {
                let o = if i == pi { j } else { i };
                assert(ps2[o] == ps[o]);
                if ps[o].x == q.x && ps[o].y == q.y {
                    assert(ps[o].id != ps[pi].id);
                    assert(stands_at(ps[o], ps[pi].id, d.0, d.1));
                }
            }
        }
    }
}

/// After any `Input`, no two living players stand in the same cell, when
/// none did before: a step onto a cell where another living player stands
/// is refused.
pub proof fn law_input_keeps_cells_apart(
    level: Level,
    pre: ServerModel,
    src: ClientAddr,
    action: PlayerAction,
    now: u64,
    post: ServerModel,
)
    requires
        ids_unique(pre.players),
        cells_apart(pre.players),
        input_outcome(level, pre, src, action, now, post),
    ensures
        cells_apart(post.players),
{
    let si = session_index(pre.sessions, src);
    if pre.match_state == MatchState::Playing && si >= 0 {
        let pi = index_of(pre.players, pre.sessions[si].player_id);
        if pi >= 0 && pre.players[pi].is_alive {
            let ps = pre.players;
            assert(0 <= pi < ps.len());
            let p = ps[pi];
            match action {
                PlayerAction::MoveForward => lemma_stepped_apart(level, ps, pi, p.dir_idx as int),
                PlayerAction::MoveBackward => lemma_stepped_apart(level, ps, pi, (p.dir_idx as int + 2) % 4),
                PlayerAction::TurnLeft => {
                    let ps2 = acted(level, ps, pi, action);
                    assert forall|i: int, j: int|
                        0 <= i < ps2.len() && 0 <= j < ps2.len() && i != j && ps2[i].is_alive && ps2[j].is_alive implies (
                        #[trigger] ps2[i]).x != (#[trigger] ps2[j]).x || ps2[i].y != ps2[j].y by {
                        assert(ps2[i].x == ps[i].x && ps2[i].y == ps[i].y && ps2[i].is_alive == ps[i].is_alive);
                        assert(ps2[j].x == ps[j].x && ps2[j].y == ps[j].y && ps2[j].is_alive == ps[j].is_alive);
                    }
                },
                PlayerAction::TurnRight => {
                    let ps2 = acted(level, ps, pi, action);
                    assert forall|i: int, j: int|
                        0 <= i < ps2.len() && 0 <= j < ps2.len() && i != j && ps2[i].is_alive && ps2[j].is_alive implies (
                        #[trigger] ps2[i]).x != (#[trigger] ps2[j]).x || ps2[i].y != ps2[j].y by {
                        assert(ps2[i].x == ps[i].x && ps2[i].y == ps[i].y && ps2[i].is_alive == ps[i].is_alive);
                        assert(ps2[j].x == ps[j].x && ps2[j].y == ps[j].y && ps2[j].is_alive == ps[j].is_alive);
                    }
                },
            }
        }
    }
}

// ---------------------------------------------------------------------------
// Client keys

/// Outside the editor, a living player in a round sends, for a single
/// movement key pressed on its own, the move named by that key: forward
/// sends `MoveForward`, backward `MoveBackward`, left `TurnLeft` and
/// right `TurnRight`, as the first message of the frame.
pub proof fn law_key_sends_its_move(view: FrameView, keys: Keys)
    requires
        view.match_state == MatchState::Playing,
        view.alive,
        !view.edit_mode,
    ensures
        keys.forward && !keys.backward && !keys.turn_left && !keys.turn_right ==> frame_messages(view, keys).len() > 0
            && frame_messages(view, keys)[0] == (ClientMessage::Input { action: PlayerAction::MoveForward }),
        !keys.forward && keys.backward && !keys.turn_left && !keys.turn_right ==> frame_messages(view, keys).len() > 0
            && frame_messages(view, keys)[0] == (ClientMessage::Input { action: PlayerAction::MoveBackward }),
        !keys.forward && !keys.backward && keys.turn_left && !keys.turn_right ==> frame_messages(view, keys).len() > 0
            && frame_messages(view, keys)[0] == (ClientMessage::Input { action: PlayerAction::TurnLeft }),
        !keys.forward && !keys.backward && !keys.turn_left && keys.turn_right ==> frame_messages(view, keys).len() > 0
            && frame_messages(view, keys)[0] == (ClientMessage::Input { action: PlayerAction::TurnRight }),
        !keys.forward && !keys.backward && !keys.turn_left && !keys.turn_right ==> forall|k: int|
            0 <= k < frame_messages(view, keys).len() ==> !(#[trigger] frame_messages(view, keys)[k] is Input),
{
    let m = frame_messages(view, keys);
    if !keys.forward && !keys.backward && !keys.turn_left && !keys.turn_right {
        assert forall|k: int| 0 <= k < m.len() implies !(#[trigger] m[k] is Input) by {
            if keys.shoot {
                if k > 0 {
                    assert(m[k] == m.subrange(1, m.len() as int)[k - 1]);
                }
            }
        }
    }
}

// ---------------------------------------------------------------------------
// Bot cooldowns

/// A living bot that is cooling down does nothing in its tick but count
/// its stored cooldown down by one; so a bot acts again as many ticks after
/// an action as the cooldown that action drew.
pub proof fn law_bot_cooldown_counts_down(level: Level, pre: BotWorld, id: u32, post: BotWorld)
    requires
        ids_unique(pre.0),
        exists|i: int| 0 <= i < pre.0.len() && (#[trigger] pre.0[i]).id == id && pre.0[i].is_alive,
        pre.2.contains_key(id),
        pre.2[id] > 0,
        bot_turn(level, pre, id, post),
    ensures
        post.2.contains_key(id),
        post.2[id] == pre.2[id] - 1,
        post.0 == pre.0,
        post.1 == pre.1,
        forall|k: u32| k != id && pre.2.contains_key(k) ==> post.2.contains_key(k) && post.2[k] == pre.2[k],
{
    reveal(bot_turn);
    let i = choose|i: int| 0 <= i < pre.0.len() && (#[trigger] pre.0[i]).id == id && pre.0[i].is_alive;
    lemma_index_of(pre.0, id, i);
}

/// A living bot whose cooldown has run out acts, and draws a new cooldown
/// below 20 ticks.
pub proof fn law_bot_acts_when_cooled(level: Level, pre: BotWorld, id: u32, post: BotWorld)
    requires
        ids_unique(pre.0),
        exists|i: int| 0 <= i < pre.0.len() && (#[trigger] pre.0[i]).id == id && pre.0[i].is_alive,
        !pre.2.contains_key(id) || pre.2[id] == 0,
        bot_turn(level, pre, id, post),
    ensures
        post.2.contains_key(id),
        5 <= post.2[id] < 20,
{
    reveal(bot_turn);
    let i = choose|i: int| 0 <= i < pre.0.len() && (#[trigger] pre.0[i]).id == id && pre.0[i].is_alive;
    lemma_index_of(pre.0, id, i);
}

// ---------------------------------------------------------------------------
// A new round starts from scratch

proof fn lemma_bots_added_from(ps: Seq<PlayerState>, bots: Seq<PlayerState>)
    ensures
        forall|k: int|
            0 <= k < bots_added(ps, bots).len() ==> ps.contains(#[trigger] bots_added(ps, bots)[k]) || bots.contains(
                bots_added(ps, bots)[k],
            ),
    decreases bots.len(),
{
    if bots.len() > 0 {
        let rest = bots.drop_last();
        let b = bots.last();
        lemma_bots_added_from(ps, rest);
        let q = bots_added(ps, rest);
        let r = upserted(q, b);
        assert(bots[bots.len() - 1] == b);
        assert forall|k: int| 0 <= k < r.len() implies ps.contains(#[trigger] r[k]) || bots.contains(r[k]) by {
            if r[k] == b {
            } else {
                if has_id(q, b.id) {
                    assert(r[k] == q[k]);
                } else {
                    assert(r[k] == q[k]);
                }
                if rest.contains(q[k]) {
                    let j = choose|j: int| 0 <= j < rest.len() && rest[j] == q[k];
                    assert(bots[j] == rest[j]);
                }
            }
        }
    }
}

/// Every player at the start of a round, human or bot, is alive with full
/// health, no score, no deaths and no respawn wait.
pub proof fn law_new_round_starts_clean(level: Level, pre: ServerModel, now: u64, post: ServerModel, events: Seq<ServerEvent>)
    requires
        new_round_outcome(level, pre, now, post, events),
    ensures
        forall|k: int|
            0 <= k < post.players.len() ==> (#[trigger] post.players[k]).score == 0 && post.players[k].deaths == 0
                && post.players[k].respawn_ticks == 0 && post.players[k].is_alive && post.players[k].health
                == FULL_HEALTH,
{
    reveal(new_round_players);
    let h = pre.players.filter(is_human());
    let (r, bots, cells) = choose|r: Seq<PlayerState>, bots: Seq<PlayerState>, cells: Seq<(usize, usize)>|
        {
            &&& respawned_all(level, h, r)
            &&& bots.len() == bots_to_spawn(h.len(), pre.bots_enabled)
            &&& cells.len() == bots.len()
            &&& forall|j: int|
                0 <= j < bots.len() ==> is_new_bot(#[trigger] bots[j], j + 1, cells[j]) && valid_spawn(
                    level,
                    occupied_seq(all_zeroed(r), None) + cells.take(j),
                    cells[j],
                )
            &&& post.players == bots_added(all_zeroed(r), bots)
        };
    let z = all_zeroed(r);
    lemma_bots_added_from(z, bots);
    assert forall|k: int| 0 <= k < post.players.len() implies (#[trigger] post.players[k]).score == 0
        && post.players[k].deaths == 0 && post.players[k].respawn_ticks == 0 && post.players[k].is_alive
        && post.players[k].health == FULL_HEALTH by {
        let p = post.players[k];
        if z.contains(p) {
            let j = choose|j: int| 0 <= j < z.len() && z[j] == p;
            assert(r[j] == spawned(h[j], (r[j].x, r[j].y)));
        } else {
            let j = choose|j: int| 0 <= j < bots.len() && bots[j] == p;
            assert(is_new_bot(bots[j], j + 1, cells[j]));
        }
    }
}

// ---------------------------------------------------------------------------
// A departure during a round keeps the match full

/// No player holds the id.
pub open spec fn id_unused(ps: Seq<PlayerState>, id: u32) -> bool {
    forall|i: int| 0 <= i < ps.len() ==> (#[trigger] ps[i]).id != id
}

/// When a player leaves or times out during a round with bots and a human
/// stays, the replacement bot takes an id that no remaining player holds,
/// so the match keeps its number of players and every remaining player.
/// This holds when no human carries a bot's id and some bot id is free.
pub proof fn law_replacement_keeps_player_count(
    level: Level,
    pre: ServerModel,
    si: int,
    timed_out: bool,
    post: ServerModel,
    events: Seq<ServerEvent>,
)
    requires
        0 <= si < pre.sessions.len(),
        ids_unique(pre.players),
        departure_outcome(level, pre, si, timed_out, post, events),
        pre.match_state == MatchState::Playing,
        pre.bots_enabled,
        exists|i: int| 0 <= i < pre.players.len() && (#[trigger] pre.players[i]).id == pre.sessions[si].player_id,
        exists|j: int|
            0 <= j < pre.players.len() && !(#[trigger] pre.players[j]).is_bot && pre.players[j].id
                != pre.sessions[si].player_id,
        forall|i: int|
            0 <= i < pre.players.len() && FIRST_BOT_ID <= (#[trigger] pre.players[i]).id < FIRST_BOT_ID + MAX_PLAYERS
                ==> pre.players[i].is_bot,
        exists|b: u32| FIRST_BOT_ID <= b < FIRST_BOT_ID + MAX_PLAYERS && #[trigger] id_unused(pre.players, b),
    ensures
        post.players.len() == pre.players.len(),
        forall|i: int|
            0 <= i < pre.players.len() && pre.players[i].id != pre.sessions[si].player_id ==> post.players.contains(
                #[trigger] pre.players[i],
            ),
{
    let ps = pre.players;
    let lid = pre.sessions[si].player_id;
    let li = choose|i: int| 0 <= i < ps.len() && (#[trigger] ps[i]).id == lid;
    lemma_index_of(ps, lid, li);
    let ps1 = without_player(ps, lid);
    assert(ps1 == ps.remove(li));
    assert forall|m: int| 0 <= m < ps1.len() implies #[trigger] ps1[m] == (if m < li { ps[m] } else { ps[m + 1] }) by {}
    let j = choose|j: int| 0 <= j < ps.len() && !(#[trigger] ps[j]).is_bot && ps[j].id != lid;
    let jj = if j < li { j } else { j - 1 };
    assert(ps1[jj] == ps[j]);
    ps1.lemma_filter_contains(is_human(), jj);
    assert(human_count(ps1) > 0);
    let n = replacement_bot_number(ps1);
    let b = choose|b: u32| FIRST_BOT_ID <= b < FIRST_BOT_ID + MAX_PLAYERS && #[trigger] id_unused(ps, b);
    assert(!bot_present(ps1, b)) by {
        if bot_present(ps1, b) {
            let m = choose|m: int| 0 <= m < ps1.len() && #[trigger] ps1[m].id == b && ps1[m].is_bot;
            if m < li {
                assert(ps[m].id == b);
            } else {
                assert(ps[m + 1].id == b);
            }
        }
    }
    assert(1 <= n <= 4 && !bot_present(ps1, (1000 + n) as u32));
    assert forall|m: int| 0 <= m < ps1.len() implies (#[trigger] ps1[m]).id != 1000 + n by {
        let k = if m < li { m } else { m + 1 };
        assert(ps1[m] == ps[k]);
        if ps1[m].id == 1000 + n {
            assert(ps[k].is_bot);
            assert(bot_present(ps1, (1000 + n) as u32));
        }
    }
    let (bot, cell) = choose|bot: PlayerState, cell: (usize, usize)|
        #![trigger is_new_bot(bot, n, cell)]
        is_new_bot(bot, n, cell) && valid_spawn(level, occupied_seq(ps1, None), cell) && post == ServerModel {
            sessions: pre.sessions.remove(si),
            players: upserted(ps1, bot),
            host_id: post.host_id,
            ..pre
        };
    assert(!has_id(ps1, bot.id));
    assert(post.players == ps1.push(bot));
    assert forall|i: int| 0 <= i < ps.len() && ps[i].id != lid implies post.players.contains(#[trigger] ps[i]) by {
        assert(i != li);
        let m = if i < li { i } else { i - 1 };
        assert(post.players[m] == ps[i]);
    }
}

/// The replacement bot's number names a bot id that no player holds, when
/// no human carries a bot's id and some bot id is free; storing that bot
/// therefore adds a player.
pub proof fn law_replacement_bot_id_is_free(ps: Seq<PlayerState>, bot: PlayerState, cell: (usize, usize))
    requires
        forall|i: int|
            0 <= i < ps.len() && FIRST_BOT_ID <= (#[trigger] ps[i]).id < FIRST_BOT_ID + MAX_PLAYERS ==> ps[i].is_bot,
        exists|b: u32| FIRST_BOT_ID <= b < FIRST_BOT_ID + MAX_PLAYERS && #[trigger] id_unused(ps, b),
        is_new_bot(bot, replacement_bot_number(ps), cell),
    ensures
        id_unused(ps, bot.id),
        upserted(ps, bot) == ps.push(bot),
        upserted(ps, bot).len() == ps.len() + 1,
{
    let n = replacement_bot_number(ps);
    let b = choose|b: u32| FIRST_BOT_ID <= b < FIRST_BOT_ID + MAX_PLAYERS && #[trigger] id_unused(ps, b);
    assert(!bot_present(ps, b)) by {
        if bot_present(ps, b) {
            let m = choose|m: int| 0 <= m < ps.len() && #[trigger] ps[m].id == b && ps[m].is_bot;
        }
    }
    assert(1 <= n <= 4 && !bot_present(ps, (1000 + n) as u32));
    assert forall|m: int| 0 <= m < ps.len() implies (#[trigger] ps[m]).id != bot.id by {
        if ps[m].id == bot.id {
            assert(ps[m].is_bot);
            assert(bot_present(ps, (1000 + n) as u32));
        }
    }
    assert(!has_id(ps, bot.id));
}

} // verus!
