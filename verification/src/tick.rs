//! The server's clock: the end of a round, silent clients, and the
//! per-tick upkeep of lasers, cooldowns, respawns and bots.

use vstd::prelude::*;

use crate::ai::{bot_turns, update_bots, BotWorld};
use crate::game::{
    dirs_valid, ids_unique, is_human, lemma_filter_keeps_ids_unique, remove_bots, LaserEffect, PlayerState,
    FIRST_BOT_ID, FULL_HEALTH, HEARTBEAT_TIMEOUT_NANOS, MATCH_DURATION_NANOS,
};
use crate::handlers::{departure_outcome, drop_session};
use crate::levels::Level;
use crate::physics::{find_random_spawn, occupied_cells, occupied_seq, valid_spawn};
use crate::protocol::MatchState;
use crate::server::{
    addrs_unique, count_humans, find_session, human_count, session_index, ClientAddr, LogLine,
    ServerEvent, ServerModel, ServerState, ClientSession,
};

verus! {

broadcast use vstd::std_specs::hash::group_hash_axioms;

// ---------------------------------------------------------------------------
// End of a round

/// The running round has lasted `MATCH_DURATION_NANOS` at time `now`.
pub open spec fn round_over(pre: ServerModel, now: u64) -> bool {
    &&& pre.match_state == MatchState::Playing
    &&& pre.round_start matches Some(t)
    &&& now - t >= MATCH_DURATION_NANOS
}

/// Ends the round once it has lasted `MATCH_DURATION_NANOS`: the match is
/// over, the round clock stops, lasers vanish, and the end is logged.
pub fn check_round_timer(state: &mut ServerState, now: u64) -> (events: Vec<ServerEvent>)
    requires
        old(state).wf(),
    ensures
        final(state).wf(),
        final(state).level == old(state).level,
        round_over(old(state)@, now) ==> final(state)@ == (ServerModel {
            match_state: MatchState::GameOver,
            round_start: None,
            lasers: Seq::empty(),
            ..old(state)@
        }) && events@ == seq![ServerEvent::Log { line: LogLine::RoundOver }],
        !round_over(old(state)@, now) ==> final(state)@ == old(state)@ && events@.len() == 0,
{
    let mut events: Vec<ServerEvent> = Vec::new();
    if state.match_state == MatchState::Playing {
        if let Some(start) = state.round_start {
            if now >= start && now - start >= MATCH_DURATION_NANOS {
                state.match_state = MatchState::GameOver;
                state.round_start = None;
                state.lasers.clear();
                events.push(ServerEvent::Log { line: LogLine::RoundOver });
                proof {
                    assert(events@ =~= seq![ServerEvent::Log { line: LogLine::RoundOver }]);
                }
            }
        }
    }
    events
}

// ---------------------------------------------------------------------------
// Silent clients

/// No datagram refreshed the session for more than
/// `HEARTBEAT_TIMEOUT_NANOS` before `now`.
pub open spec fn silent(now: u64) -> spec_fn(ClientSession) -> bool {
    |s: ClientSession| now - s.last_packet > HEARTBEAT_TIMEOUT_NANOS
}

/// The address of a session.
pub open spec fn addr_of() -> spec_fn(ClientSession) -> ClientAddr {
    |s: ClientSession| s.addr
}

/// The client at the address times out, if it is still connected.
pub open spec fn expiry_step(level: Level, pre: ServerModel, addr: ClientAddr, post: ServerModel, events: Seq<ServerEvent>) -> bool {
    let si = session_index(pre.sessions, addr);
    if si < 0 {
        post == pre && events.len() == 0
    } else {
        departure_outcome(level, pre, si, true, post, events)
    }
}

/// The silent clients time out one after the other, in session order.
pub open spec fn expiry_outcome(level: Level, pre: ServerModel, now: u64, post: ServerModel, events: Seq<ServerEvent>) -> bool {
    let addrs = pre.sessions.filter(silent(now)).map_values(addr_of());
    exists|trace: Seq<ServerModel>, evs: Seq<Seq<ServerEvent>>|
        {
            &&& trace.len() == addrs.len() + 1
            &&& evs.len() == addrs.len()
            &&& trace[0] == pre
            &&& trace[addrs.len() as int] == post
            &&& forall|k: int|
                0 <= k < addrs.len() ==> expiry_step(level, #[trigger] trace[k], addrs[k], trace[k + 1], evs[k])
            &&& events == evs.flatten()
        }
}

/// The session was refreshed within `HEARTBEAT_TIMEOUT_NANOS` before `now`.
pub open spec fn awake(now: u64) -> spec_fn(ClientSession) -> bool {
    |s: ClientSession| !(now - s.last_packet > HEARTBEAT_TIMEOUT_NANOS)
}

/// The session's address is not among the addresses.
pub open spec fn not_listed(addrs: Seq<ClientAddr>) -> spec_fn(ClientSession) -> bool {
    |s: ClientSession| !addrs.contains(s.addr)
}

/// The session's address is not `addr`.
pub open spec fn elsewhere(addr: ClientAddr) -> spec_fn(ClientSession) -> bool {
    |s: ClientSession| s.addr != addr
}

proof fn lemma_filter_same(ss: Seq<ClientSession>, p: spec_fn(ClientSession) -> bool, q: spec_fn(ClientSession) -> bool)
    requires
        forall|i: int| 0 <= i < ss.len() ==> p(#[trigger] ss[i]) == q(ss[i]),
    ensures
        ss.filter(p) == ss.filter(q),
    decreases ss.len(),
{
    if ss.len() > 0 {
        let init = ss.drop_last();
        assert forall|i: int| 0 <= i < init.len() implies p(#[trigger] init[i]) == q(init[i]) by {
            assert(init[i] == ss[i]);
        }
        lemma_filter_same(init, p, q);
        assert(init.push(ss.last()) =~= ss);
        init.lemma_filter_push(ss.last(), p);
        init.lemma_filter_push(ss.last(), q);
        assert(p(ss[ss.len() - 1]) == q(ss[ss.len() - 1]));
    } else {
        assert(ss.filter(p) =~= ss.filter(q)) by {
            reveal(Seq::filter);
        }
    }
}

/// Both tests pass.
pub open spec fn both(p: spec_fn(ClientSession) -> bool, q: spec_fn(ClientSession) -> bool) -> spec_fn(ClientSession) -> bool {
    |s: ClientSession| p(s) && q(s)
}

proof fn lemma_filter_everything(ss: Seq<ClientSession>)
    ensures
        ss.filter(|s: ClientSession| true) == ss,
    decreases ss.len(),
{
    reveal(Seq::filter);
    if ss.len() > 0 {
        lemma_filter_everything(ss.drop_last());
        assert(ss.drop_last().push(ss.last()) =~= ss);
    } else {
        assert(ss.filter(|s: ClientSession| true) =~= ss);
    }
}

proof fn lemma_filter_twice(ss: Seq<ClientSession>, p: spec_fn(ClientSession) -> bool, q: spec_fn(ClientSession) -> bool)
    ensures
        ss.filter(p).filter(q) == ss.filter(both(p, q)),
    decreases ss.len(),
{
    let pq = both(p, q);
    if ss.len() > 0 {
        let init = ss.drop_last();
        let x = ss.last();
        lemma_filter_twice(init, p, q);
        assert(init.push(x) =~= ss);
        init.lemma_filter_push(x, p);
        init.lemma_filter_push(x, pq);
        init.filter(p).lemma_filter_push(x, q);
    } else {
        reveal(Seq::filter);
        assert(ss.filter(p).filter(q) =~= ss.filter(pq));
    }
}

proof fn lemma_filter_absent(ss: Seq<ClientSession>, addr: ClientAddr)
    requires
        forall|i: int| 0 <= i < ss.len() ==> (#[trigger] ss[i]).addr != addr,
    ensures
        ss.filter(elsewhere(addr)) == ss,
    decreases ss.len(),
{
    if ss.len() > 0 {
        let init = ss.drop_last();
        assert forall|i: int| 0 <= i < init.len() implies (#[trigger] init[i]).addr != addr by {
            assert(init[i] == ss[i]);
        }
        lemma_filter_absent(init, addr);
        assert(init.push(ss.last()) =~= ss);
        init.lemma_filter_push(ss.last(), elsewhere(addr));
        assert(ss[ss.len() - 1].addr != addr);
    } else {
        reveal(Seq::filter);
        assert(ss.filter(elsewhere(addr)) =~= ss);
    }
}

proof fn lemma_remove_is_filter(ss: Seq<ClientSession>, si: int)
    requires
        addrs_unique(ss),
        0 <= si < ss.len(),
    ensures
        ss.remove(si) == ss.filter(elsewhere(ss[si].addr)),
    decreases ss.len(),
{
    let addr = ss[si].addr;
    let init = ss.drop_last();
    let x = ss.last();
    assert(init.push(x) =~= ss);
    init.lemma_filter_push(x, elsewhere(addr));
    if si == ss.len() - 1 {
        assert forall|i: int| 0 <= i < init.len() implies (#[trigger] init[i]).addr != addr by {
            assert(init[i] == ss[i]);
        }
        lemma_filter_absent(init, addr);
        assert(ss.remove(si) =~= init);
    } else {
        assert(addrs_unique(init)) by {
            assert forall|a: int, b: int| 0 <= a < init.len() && 0 <= b < init.len() && a != b implies #[trigger] init[a].addr
                != #[trigger] init[b].addr by {
                assert(init[a] == ss[a] && init[b] == ss[b]);
            }
        }
        assert(init[si] == ss[si]);
        lemma_remove_is_filter(init, si);
        assert(x.addr != addr);
        assert(ss.remove(si) =~= init.remove(si).push(x));
    }
}

/// Drops every session silent at `now`; see `expiry_outcome`.
pub fn expire_sessions(state: &mut ServerState, now: u64) -> (events: Vec<ServerEvent>)
    requires
        old(state).wf(),
    ensures
        final(state).wf(),
        final(state).level == old(state).level,
        expiry_outcome(old(state).level, old(state)@, now, final(state)@, events@),
        final(state)@.sessions == old(state)@.sessions.filter(awake(now)),
{
    let ghost pre = state@;
    let ghost pred = silent(now);
    let mut silent_addrs: Vec<ClientAddr> = Vec::new();
    let mut i: usize = 0;
    while i < state.sessions.len()
        invariant
            state@ == pre,
            i <= pre.sessions.len(),
            silent_addrs@ == pre.sessions.take(i as int).filter(silent(now)).map_values(addr_of()),
        decreases pre.sessions.len() - i,
    {
        proof {
            assert(pre.sessions.take(i + 1) == pre.sessions.take(i as int).push(pre.sessions[i as int]));
            pre.sessions.take(i as int).lemma_filter_push(pre.sessions[i as int], silent(now));
        }
        let last = state.sessions[i].last_packet;
        if now >= last && now - last > HEARTBEAT_TIMEOUT_NANOS {
            silent_addrs.push(state.sessions[i].addr);
            proof {
                let f = pre.sessions.take(i as int).filter(silent(now));
                assert(f.push(pre.sessions[i as int]).map_values(addr_of()) =~= f.map_values(addr_of()).push(
                    pre.sessions[i as int].addr,
                ));
            }
        }
        i = i + 1;
    }
    proof {
        assert(pre.sessions.take(pre.sessions.len() as int) == pre.sessions);
    }
    let ghost addrs = silent_addrs@;
    let ghost level0 = state.level;
    proof {
        assert(addrs.take(0) =~= Seq::<ClientAddr>::empty());
        lemma_filter_same(pre.sessions, not_listed(addrs.take(0)), |s: ClientSession| true);
        lemma_filter_everything(pre.sessions);
    }
    let mut events: Vec<ServerEvent> = Vec::new();
    let ghost mut trace: Seq<ServerModel> = seq![pre];
    let ghost mut evs: Seq<Seq<ServerEvent>> = seq![];
    let mut k: usize = 0;
    while k < silent_addrs.len()
        invariant
            state.wf(),
            state.level == level0,
            silent_addrs@ == addrs,
            k <= addrs.len(),
            trace.len() == k + 1,
            evs.len() == k,
            trace[0] == pre,
            trace[k as int] == state@,
            forall|j: int| 0 <= j < k ==> expiry_step(level0, #[trigger] trace[j], addrs[j], trace[j + 1], evs[j]),
            events@ == evs.flatten(),
            state@.sessions == pre.sessions.filter(not_listed(addrs.take(k as int))),
        decreases addrs.len() - k,
    {
        let addr = silent_addrs[k];
        let ghost before = state@;
        let mut ev: Vec<ServerEvent> = match find_session(&state.sessions, addr) {
            Some(si) => {
                proof {
                    assert(before.sessions[si as int].addr == addr);
                    lemma_remove_is_filter(before.sessions, si as int);
                }
                drop_session(state, si, true)
            },
            None => {
                proof {
                    assert forall|i: int| 0 <= i < before.sessions.len() implies (#[trigger] before.sessions[i]).addr != addr by {
                        if before.sessions[i].addr == addr {
                            assert(exists|j: int| 0 <= j < before.sessions.len() && before.sessions[j].addr == addr);
                        }
                    }
                    lemma_filter_absent(before.sessions, addr);
                }
                Vec::new()
            },
        };
        proof {
            assert(state@.sessions == before.sessions.filter(elsewhere(addr)));
            lemma_filter_twice(pre.sessions, not_listed(addrs.take(k as int)), elsewhere(addr));
            assert(addrs.take(k + 1) =~= addrs.take(k as int).push(addr));
            assert forall|i: int| 0 <= i < pre.sessions.len() implies both(
                not_listed(addrs.take(k as int)),
                elsewhere(addr),
            )(#[trigger] pre.sessions[i]) == not_listed(addrs.take(k + 1))(pre.sessions[i]) by {
                let a = pre.sessions[i].addr;
                let t1 = addrs.take(k + 1);
                let t0 = addrs.take(k as int);
                if t1.contains(a) {
                    let j = choose|j: int| 0 <= j < t1.len() && #[trigger] t1[j] == a;
                    if j < k {
                        assert(t0[j] == a);
                    }
                }
                if t0.contains(a) {
                    let j = choose|j: int| 0 <= j < t0.len() && #[trigger] t0[j] == a;
                    assert(t1[j] == a);
                }
                if a == addr {
                    assert(addrs.take(k + 1)[k as int] == a);
                }
            }
            lemma_filter_same(pre.sessions, both(not_listed(addrs.take(k as int)), elsewhere(addr)), not_listed(addrs.take(k + 1)));
        }
        proof {
            let old_trace = trace;
            let old_evs = evs;
            trace = trace.push(state@);
            evs = evs.push(ev@);
            evs.drop_last().lemma_flatten_push(ev@);
            assert(evs.drop_last() =~= old_evs);
            assert forall|j: int| 0 <= j < k + 1 implies expiry_step(level0, #[trigger] trace[j], addrs[j], trace[j + 1], evs[j]) by {
                if j < k {
                    assert(trace[j] == old_trace[j] && trace[j + 1] == old_trace[j + 1] && evs[j] == old_evs[j]);
                }
            }
        }
        events.append(&mut ev);
        k = k + 1;
    }
    proof {
        assert(addrs.take(addrs.len() as int) =~= addrs);
        let f = pre.sessions.filter(silent(now));
        assert forall|i: int| 0 <= i < pre.sessions.len() implies not_listed(addrs)(#[trigger] pre.sessions[i])
            == awake(now)(pre.sessions[i]) by {
            let x = pre.sessions[i];
            if silent(now)(x) {
                pre.sessions.lemma_filter_contains(silent(now), i);
                let j = choose|j: int| 0 <= j < f.len() && #[trigger] f[j] == x;
                assert(addrs[j] == x.addr);
            }
            if addrs.contains(x.addr) {
                let j = choose|j: int| 0 <= j < addrs.len() && #[trigger] addrs[j] == x.addr;
                pre.sessions.lemma_filter_pred(silent(now), j);
                assert(f.contains(f[j]));
                pre.sessions.lemma_filter_contains_rev(silent(now), f[j]);
                let m = choose|m: int| 0 <= m < pre.sessions.len() && #[trigger] pre.sessions[m] == f[j];
                assert(pre.sessions[m].addr == x.addr);
                assert(m == i);
            }
        }
        lemma_filter_same(pre.sessions, not_listed(addrs), awake(now));
    }
    events
}

// ---------------------------------------------------------------------------
// Upkeep

/// With no human left, the server returns to its initial lobby: no host,
/// bots enabled, no lasers and no bots.
pub open spec fn emptied(pre: ServerModel, post: ServerModel) -> bool {
    if human_count(pre.players) == 0 {
        post == ServerModel {
            match_state: MatchState::Lobby,
            host_id: 0,
            bots_enabled: true,
            lasers: Seq::empty(),
            players: pre.players.filter(is_human()),
            ..pre
        }
    } else {
        post == pre
    }
}

/// Resets the match when no human is left; see `emptied`.
pub fn clear_if_empty(state: &mut ServerState)
    requires
        old(state).wf(),
    ensures
        final(state).wf(),
        final(state).level == old(state).level,
        emptied(old(state)@, final(state)@),
{
    if count_humans(&state.players) == 0 {
        state.match_state = MatchState::Lobby;
        state.host_id = 0;
        state.bots_enabled = true;
        state.lasers.clear();
        let ghost ps0 = state.players@;
        remove_bots(&mut state.players);
        proof {
            lemma_filter_keeps_ids_unique(ps0, is_human());
            assert forall|a: int| 0 <= a < state.players@.len() implies #[trigger] state.players@[a].dir_idx < 4 by {
                assert(ps0.contains(state.players@[a]));
            }
        }
    }
}

/// The beam one tick older.
pub open spec fn aged(l: LaserEffect) -> LaserEffect {
    LaserEffect { ticks_left: (l.ticks_left - 1) as u32, ..l }
}

/// The beam stays visible for another tick.
pub open spec fn lasts() -> spec_fn(LaserEffect) -> bool {
    |l: LaserEffect| l.ticks_left > 1
}

/// The beams one tick older; those whose time is up vanish.
pub open spec fn decayed(ls: Seq<LaserEffect>) -> Seq<LaserEffect> {
    ls.filter(lasts()).map_values(|l: LaserEffect| aged(l))
}

/// The session one tick closer to its next shot.
pub open spec fn cooled(s: ClientSession) -> ClientSession {
    if s.shoot_cooldown > 0 {
        ClientSession { shoot_cooldown: (s.shoot_cooldown - 1) as u32, ..s }
    } else {
        s
    }
}

/// Ages the lasers and counts the shooting cooldowns down.
pub fn decay(state: &mut ServerState)
    requires
        old(state).wf(),
    ensures
        final(state).wf(),
        final(state).level == old(state).level,
        final(state)@ == (ServerModel {
            lasers: decayed(old(state)@.lasers),
            sessions: old(state)@.sessions.map_values(|s: ClientSession| cooled(s)),
            ..old(state)@
        }),
{
    let ghost pre = state@;
    let mut kept: Vec<LaserEffect> = Vec::new();
    let mut i: usize = 0;
    while i < state.lasers.len()
        invariant
            state@ == pre,
            i <= pre.lasers.len(),
            kept@ == pre.lasers.take(i as int).filter(lasts()).map_values(|l: LaserEffect| aged(l)),
        decreases pre.lasers.len() - i,
    {
        proof {
            assert(pre.lasers.take(i + 1) == pre.lasers.take(i as int).push(pre.lasers[i as int]));
            pre.lasers.take(i as int).lemma_filter_push(pre.lasers[i as int], lasts());
        }
        let l = state.lasers[i];
        if l.ticks_left > 1 {
            kept.push(LaserEffect { ticks_left: l.ticks_left - 1, ..l });
            proof {
                let f = pre.lasers.take(i as int).filter(lasts());
                assert(f.push(l).map_values(|l: LaserEffect| aged(l)) =~= f.map_values(|l: LaserEffect| aged(l)).push(aged(l)));
            }
        }
        i = i + 1;
    }
    proof {
        assert(pre.lasers.take(pre.lasers.len() as int) == pre.lasers);
    }
    state.lasers = kept;
    let ghost s1 = state@;
    let ghost level0 = state.level;
    let mut j: usize = 0;
    while j < state.sessions.len()
        invariant
            state@ == (ServerModel { sessions: state@.sessions, ..s1 }),
            state.level == level0,
            level0.wf(),
            ids_unique(s1.players),
            dirs_valid(s1.players),
            state.sessions@.len() == pre.sessions.len(),
            j <= pre.sessions.len(),
            forall|k: int| 0 <= k < j ==> #[trigger] state.sessions@[k] == cooled(pre.sessions[k]),
            forall|k: int| j <= k < pre.sessions.len() ==> #[trigger] state.sessions@[k] == pre.sessions[k],
        decreases pre.sessions.len() - j,
    {
        if state.sessions[j].shoot_cooldown > 0 {
            state.sessions[j].shoot_cooldown = state.sessions[j].shoot_cooldown - 1;
        }
        j = j + 1;
    }
    proof {
        assert(state.sessions@ =~= pre.sessions.map_values(|s: ClientSession| cooled(s)));
        let ss = state.sessions@;
        assert forall|a: int, b: int| 0 <= a < ss.len() && 0 <= b < ss.len() && a != b implies #[trigger] ss[a].addr
            != #[trigger] ss[b].addr by {
            assert(ss[a].addr == pre.sessions[a].addr && ss[b].addr == pre.sessions[b].addr);
        }
    }
}

// ---------------------------------------------------------------------------
// Respawns

/// The dead player's wait ends this tick.
pub open spec fn due(p: PlayerState) -> bool {
    !p.is_alive && p.respawn_ticks <= 1
}

/// The cells of the players before position `i` that respawned this tick,
/// in player order.
pub open spec fn respawn_cells(before: Seq<PlayerState>, after: Seq<PlayerState>, i: int) -> Seq<(usize, usize)>
    decreases i,
{
    if i <= 0 {
        seq![]
    } else {
        let prev = respawn_cells(before, after, i - 1);
        if due(before[i - 1]) {
            prev.push((after[i - 1].x, after[i - 1].y))
        } else {
            prev
        }
    }
}

proof fn lemma_respawn_cells_prefix(before: Seq<PlayerState>, a1: Seq<PlayerState>, a2: Seq<PlayerState>, i: int)
    requires
        forall|j: int| 0 <= j < i ==> a1[j] == a2[j],
    ensures
        respawn_cells(before, a1, i) == respawn_cells(before, a2, i),
    decreases i,
{
    if i > 0 {
        lemma_respawn_cells_prefix(before, a1, a2, i - 1);
    }
}

/// The players one tick later: the living stay, the dead wait one tick
/// less, and those whose wait ends come back alive with full health on a
/// spawn cell that avoids the living players and those respawned before.
pub open spec fn respawn_outcome(level: Level, before: Seq<PlayerState>, after: Seq<PlayerState>) -> bool {
    &&& after.len() == before.len()
    &&& forall|i: int|
        0 <= i < before.len() ==> {
            let p = before[i];
            if p.is_alive {
                #[trigger] after[i] == p
            } else if due(p) {
                &&& after[i] == PlayerState {
                    x: after[i].x,
                    y: after[i].y,
                    health: FULL_HEALTH,
                    is_alive: true,
                    respawn_ticks: 0,
                    ..p
                }
                &&& valid_spawn(
                    level,
                    occupied_seq(before, None) + respawn_cells(before, after, i),
                    (after[i].x, after[i].y),
                )
            } else {
                after[i] == PlayerState { respawn_ticks: (p.respawn_ticks - 1) as u32, ..p }
            }
        }
}

/// Counts the respawn waits down and brings back the players whose wait
/// ends; see `respawn_outcome`.
pub fn respawn_players(players: &mut Vec<PlayerState>, level: &Level)
    requires
        level.wf(),
        ids_unique(old(players)@),
        dirs_valid(old(players)@),
    ensures
        ids_unique(final(players)@),
        dirs_valid(final(players)@),
        respawn_outcome(*level, old(players)@, final(players)@),
{
    let ghost before = players@;
    let mut occupied = occupied_cells(players, None);
    let mut i: usize = 0;
    while i < players.len()
        invariant
            level.wf(),
            players@.len() == before.len(),
            i <= before.len(),
            occupied@ == occupied_seq(before, None) + respawn_cells(before, players@, i as int),
            forall|j: int| i <= j < before.len() ==> #[trigger] players@[j] == before[j],
            forall|j: int| 0 <= j < before.len() ==> #[trigger] players@[j].id == before[j].id
                && players@[j].dir_idx == before[j].dir_idx,
            forall|j: int|
                0 <= j < i ==> {
                    let p = before[j];
                    if p.is_alive {
                        #[trigger] players@[j] == p
                    } else if due(p) {
                        &&& players@[j] == PlayerState {
                            x: players@[j].x,
                            y: players@[j].y,
                            health: FULL_HEALTH,
                            is_alive: true,
                            respawn_ticks: 0,
                            ..p
                        }
                        &&& valid_spawn(
                            *level,
                            occupied_seq(before, None) + respawn_cells(before, players@, j),
                            (players@[j].x, players@[j].y),
                        )
                    } else {
                        players@[j] == PlayerState { respawn_ticks: (p.respawn_ticks - 1) as u32, ..p }
                    }
                },
        decreases before.len() - i,
    {
        let ghost cur = players@;
        if !players[i].is_alive {
            if players[i].respawn_ticks <= 1 {
                let cell = find_random_spawn(level, &occupied);
                players[i].x = cell.0;
                players[i].y = cell.1;
                players[i].health = FULL_HEALTH;
                players[i].is_alive = true;
                players[i].respawn_ticks = 0;
                occupied.push(cell);
            } else {
                players[i].respawn_ticks = players[i].respawn_ticks - 1;
            }
        }
        proof {
            assert forall|j: int| 0 <= j < i + 1 implies #[trigger] players@[j] == cur[j] || j == i by {}
            assert forall|j: int| 0 <= j <= i implies respawn_cells(before, players@, j) == respawn_cells(before, cur, j) by {
                lemma_respawn_cells_prefix(before, players@, cur, j);
            }
            assert(occupied@ =~= occupied_seq(before, None) + respawn_cells(before, players@, i + 1));
        }
        i = i + 1;
    }
    proof {
        let ps = players@;
        assert forall|a: int, b: int| 0 <= a < ps.len() && 0 <= b < ps.len() && a != b implies #[trigger] ps[a].id
            != #[trigger] ps[b].id by {
            assert(ps[a].id == before[a].id && ps[b].id == before[b].id);
        }
        assert forall|a: int| 0 <= a < ps.len() implies #[trigger] ps[a].dir_idx < 4 by {
            assert(ps[a].dir_idx == before[a].dir_idx);
        }
    }
}

// ---------------------------------------------------------------------------
// The tick

/// The ids of the bots, in the order in which they take their tick.
pub open spec fn bot_id_seq() -> Seq<u32> {
    seq![FIRST_BOT_ID, (FIRST_BOT_ID + 1) as u32, (FIRST_BOT_ID + 2) as u32, (FIRST_BOT_ID + 3) as u32]
}

/// The ids of the bots as a vector; see `bot_id_seq`.
pub fn bot_ids() -> (ids: Vec<u32>)
    ensures
        ids@ == bot_id_seq(),
{
    let mut ids: Vec<u32> = Vec::new();
    let mut k: u32 = 0;
    while k < 4
        invariant
            k <= 4,
            ids@ == bot_id_seq().take(k as int),
        decreases 4 - k,
    {
        ids.push(FIRST_BOT_ID + k);
        proof {
            assert(bot_id_seq().take(k + 1) =~= bot_id_seq().take(k as int).push((FIRST_BOT_ID + k) as u32));
        }
        k = k + 1;
    }
    proof {
        assert(bot_id_seq().take(4) =~= bot_id_seq());
    }
    ids
}

/// The state after the bots' tick: when a round is running with bots on,
/// every bot takes its tick in turn (see `bot_turns`); otherwise nothing
/// changes.
pub open spec fn bots_ticked(level: Level, pre: ServerModel, post: ServerModel) -> bool {
    if pre.match_state == MatchState::Playing && pre.bots_enabled {
        exists|trace: Seq<BotWorld>|
            {
                &&& bot_turns(level, bot_id_seq(), trace)
                &&& trace[0] == (pre.players, pre.lasers, pre.bot_cooldowns)
                &&& trace[bot_id_seq().len() as int] == (post.players, post.lasers, post.bot_cooldowns)
                &&& post == ServerModel {
                    players: post.players,
                    lasers: post.lasers,
                    bot_cooldowns: post.bot_cooldowns,
                    ..pre
                }
            }
    } else {
        post == pre
    }
}

/// The stages of one tick, through the intermediate states `s1` (after
/// the time-outs, which leave exactly the sessions that are awake), `s2` (after the reset of an empty server), `s4` (after
/// aging and respawns) and `s5` (after the bots).
pub open spec fn tick_stages(
    level: Level,
    pre: ServerModel,
    now: u64,
    s1: ServerModel,
    s2: ServerModel,
    s4: ServerModel,
    s5: ServerModel,
    post: ServerModel,
    events: Seq<ServerEvent>,
) -> bool {
    let s3 = ServerModel {
        lasers: decayed(s2.lasers),
        sessions: s2.sessions.map_values(|s: ClientSession| cooled(s)),
        ..s2
    };
    &&& expiry_outcome(level, pre, now, s1, events)
    &&& s1.sessions == pre.sessions.filter(awake(now))
    &&& emptied(s1, s2)
    &&& respawn_outcome(level, s3.players, s4.players)
    &&& s4 == ServerModel { players: s4.players, ..s3 }
    &&& bots_ticked(level, s4, s5)
    &&& post == ServerModel { tick_id: s5.tick_id.wrapping_add(1), ..s5 }
}

/// One tick of the server after the datagrams of the tick were handled:
/// silent clients time out, an empty server returns to the lobby, beams
/// and cooldowns age, the dead wait or respawn, the bots act, and the tick
/// counter moves on (wrapping).
pub open spec fn tick_outcome(level: Level, pre: ServerModel, now: u64, post: ServerModel, events: Seq<ServerEvent>) -> bool {
    exists|s1: ServerModel, s2: ServerModel, s4: ServerModel, s5: ServerModel|
        #[trigger] tick_stages(level, pre, now, s1, s2, s4, s5, post, events)
}

/// Runs one tick of the server; see `tick_outcome`. The events are those
/// of the clients that timed out.
pub fn server_tick(state: &mut ServerState, now: u64) -> (events: Vec<ServerEvent>)
    requires
        old(state).wf(),
    ensures
        final(state).wf(),
        final(state).level == old(state).level,
        tick_outcome(old(state).level, old(state)@, now, final(state)@, events@),
{
    let ghost level0 = state.level;
    let ghost pre = state@;
    let events = expire_sessions(state, now);
    let ghost s1 = state@;
    clear_if_empty(state);
    let ghost s2 = state@;
    decay(state);
    let ghost s3 = state@;
    respawn_players(&mut state.players, &state.level);
    let ghost s4 = state@;
    if state.match_state == MatchState::Playing && state.bots_enabled {
        let ids = bot_ids();
        update_bots(ids.as_slice(), &mut state.players, &state.level, &mut state.lasers, &mut state.bot_cooldowns);
    }
    let ghost s5 = state@;
    state.tick_id = state.tick_id.wrapping_add(1);
    proof {
        assert(bots_ticked(level0, s4, s5));
        assert(s4 == ServerModel { players: s4.players, ..s3 });
        assert(tick_stages(level0, pre, now, s1, s2, s4, s5, state@, events@));
    }
    events
}

/// Time left in the running round at `now`, in nanoseconds: the full
/// duration while the round clock has not started, and zero outside a
/// round or once the time is up. A clock reading before the start counts
/// as no time elapsed.
pub open spec fn time_left(m: ServerModel, now: u64) -> int {
    if m.match_state != MatchState::Playing {
        0
    } else {
        match m.round_start {
            None => MATCH_DURATION_NANOS as int,
            Some(t) => {
                let elapsed = if now >= t { now - t } else { 0 };
                if elapsed >= MATCH_DURATION_NANOS { 0 } else { MATCH_DURATION_NANOS - elapsed }
            },
        }
    }
}

/// The time left in the round, for the tick broadcast; see `time_left`.
pub fn round_time_left(state: &ServerState, now: u64) -> (left: u64)
    ensures
        left == time_left(state@, now),
{
    if !(state.match_state == MatchState::Playing) {
        return 0;
    }
    match state.round_start {
        None => MATCH_DURATION_NANOS,
        Some(t) => {
            if now < t {
                MATCH_DURATION_NANOS
            } else if now - t >= MATCH_DURATION_NANOS {
                0
            } else {
                MATCH_DURATION_NANOS - (now - t)
            }
        },
    }
}

} // verus!
