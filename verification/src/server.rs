//! The authoritative server state and the building blocks of its rules:
//! sessions, head counts, the host, bots and the start of a round.
//!
//! The server loop outside the library owns the socket and the clock. It
//! hands each datagram and each tick to the functions of this module and
//! its siblings, together with the time in nanoseconds since it started,
//! and carries out the events they return.

use std::collections::HashMap;
use vstd::prelude::*;
use vstd::string::*;

use crate::game::{
    dirs_valid, has_id, ids_unique, index_of, is_human, lemma_filter_keeps_ids_unique, remove_bots,
    upsert_player, upserted, LaserEffect, PlayerState, FULL_HEALTH, MAX_PLAYERS,
};
use crate::levels::Level;
use crate::physics::{
    find_random_spawn, occupied_cells, occupied_seq, reset_all_positions, respawned_all, valid_spawn,
};
use crate::protocol::MatchState;

verus! {

broadcast use vstd::std_specs::hash::group_hash_axioms;

/// Reason given to a client refused because the match is full.
pub const SERVER_FULL_REASON: &'static str = "Server Full (Max 4 Players)";

/// Prefix of bot names; the bot number follows it.
pub const BOT_NAME_PREFIX: &'static str = "RetroBot_";

/// A client's network address as plain values: the IP address as a
/// 128-bit number (an IPv4 address in the low 32 bits), whether it is an
/// IPv6 address, and the port.
#[derive(Debug, Clone, Copy, PartialEq, Eq, Structural)]
pub struct ClientAddr {
    pub ip: u128,
    pub is_v6: bool,
    pub port: u16,
}

/// A connected client.
#[derive(Debug)]
pub struct ClientSession {
    pub addr: ClientAddr,
    pub name: String,
    pub player_id: u32,
    /// Time of the last datagram that refreshed the session, in nanoseconds.
    pub last_packet: u64,
    /// Ticks until the client may shoot again.
    pub shoot_cooldown: u32,
}

/// The whole state of the server.
pub struct ServerState {
    pub level: Level,
    pub level_index: usize,
    pub sessions: Vec<ClientSession>,
    pub players: Vec<PlayerState>,
    pub lasers: Vec<LaserEffect>,
    pub next_player_id: u32,
    pub tick_id: u64,
    /// Start of the running round, in nanoseconds.
    pub round_start: Option<u64>,
    pub match_state: MatchState,
    /// Id of the host player; 0 when there is none.
    pub host_id: u32,
    pub bots_enabled: bool,
    pub bot_cooldowns: HashMap<u32, u32>,
}

/// The server state as mathematical values.
pub struct ServerModel {
    pub level_width: usize,
    pub level_height: usize,
    pub level_cells: Seq<bool>,
    pub level_index: usize,
    pub sessions: Seq<ClientSession>,
    pub players: Seq<PlayerState>,
    pub lasers: Seq<LaserEffect>,
    pub next_player_id: u32,
    pub tick_id: u64,
    pub round_start: Option<u64>,
    pub match_state: MatchState,
    pub host_id: u32,
    pub bots_enabled: bool,
    pub bot_cooldowns: Map<u32, u32>,
}

impl View for ServerState {
    type V = ServerModel;

    open spec fn view(&self) -> ServerModel {
        ServerModel {
            level_width: self.level.width,
            level_height: self.level.height,
            level_cells: self.level.cells@,
            level_index: self.level_index,
            sessions: self.sessions@,
            players: self.players@,
            lasers: self.lasers@,
            next_player_id: self.next_player_id,
            tick_id: self.tick_id,
            round_start: self.round_start,
            match_state: self.match_state,
            host_id: self.host_id,
            bots_enabled: self.bots_enabled,
            bot_cooldowns: self.bot_cooldowns@,
        }
    }
}

/// No two sessions share an address.
pub open spec fn addrs_unique(ss: Seq<ClientSession>) -> bool {
    forall|i: int, j: int|
        0 <= i < ss.len() && 0 <= j < ss.len() && i != j ==> #[trigger] ss[i].addr != #[trigger] ss[j].addr
}

impl ServerState {
    /// The level covers its grid, the players have unique ids and valid
    /// directions, and the sessions have unique addresses.
    pub open spec fn wf(&self) -> bool {
        &&& self.level.wf()
        &&& ids_unique(self.players@)
        &&& dirs_valid(self.players@)
        &&& addrs_unique(self.sessions@)
    }

    /// A server on the level, in the lobby, with no clients and bots on.
    pub fn new(level: Level, level_index: usize) -> (s: ServerState)
        requires
            level.wf(),
        ensures
            s.wf(),
            s@.level_width == level.width,
            s@.level_height == level.height,
            s@.level_cells == level.cells@,
            s@.level_index == level_index,
            s@.sessions.len() == 0,
            s@.players.len() == 0,
            s@.lasers.len() == 0,
            s@.next_player_id == 1,
            s@.tick_id == 0,
            s@.round_start is None,
            s@.match_state == MatchState::Lobby,
            s@.host_id == 0,
            s@.bots_enabled,
            s@.bot_cooldowns == Map::<u32, u32>::empty(),
    {
        ServerState {
            level,
            level_index,
            sessions: Vec::new(),
            players: Vec::new(),
            lasers: Vec::new(),
            next_player_id: 1,
            tick_id: 0,
            round_start: None,
            match_state: MatchState::Lobby,
            host_id: 0,
            bots_enabled: true,
            bot_cooldowns: HashMap::new(),
        }
    }
}

/// What the server answers a single client.
#[derive(Debug, Clone, Copy, PartialEq, Eq, Structural)]
pub enum Reply {
    /// Admission, with the client's player id and whether it hosts; the
    /// current level goes with it.
    Welcome { player_id: u32, is_host: bool },
    /// Refusal because the match is full (`SERVER_FULL_REASON`).
    RejectFull,
}

/// A line for the server log.
#[derive(Debug)]
pub enum LogLine {
    Rejected { addr: ClientAddr },
    Joined { name: String, addr: ClientAddr },
    HostAssigned { id: u32 },
    BotRemoved { id: u32 },
    Left { name: String },
    HostLeft { new_host: u32 },
    ReplacementBot { id: u32 },
    MatchStarted,
    BotsToggled { enabled: bool },
    BotsSpawned { count: usize },
    Killed { killer: u32, victim: u32 },
    RoundOver,
    TimedOut { name: String },
    HostTimedOut { new_host: u32 },
}

/// What the server loop must do after a step of the state machine.
#[derive(Debug)]
pub enum ServerEvent {
    /// Send the reply to one client.
    Send { to: ClientAddr, reply: Reply },
    /// Send the current level to every session.
    BroadcastMap,
    /// Print a log line.
    Log { line: LogLine },
}

// ---------------------------------------------------------------------------
// Sessions

/// Position of the session with the address, or -1.
pub open spec fn session_index(ss: Seq<ClientSession>, addr: ClientAddr) -> int {
    if exists|i: int| 0 <= i < ss.len() && ss[i].addr == addr {
        choose|i: int| 0 <= i < ss.len() && ss[i].addr == addr
    } else {
        -1
    }
}

pub(crate) proof fn lemma_session_index(ss: Seq<ClientSession>, addr: ClientAddr, i: int)
    requires
        addrs_unique(ss),
        0 <= i < ss.len(),
        ss[i].addr == addr,
    ensures
        session_index(ss, addr) == i,
{
    let k = session_index(ss, addr);
    if k != i {
        assert(ss[k].addr != ss[i].addr);
    }
}

/// Position of the session with the address.
pub fn find_session(sessions: &Vec<ClientSession>, addr: ClientAddr) -> (found: Option<usize>)
    requires
        addrs_unique(sessions@),
    ensures
        match found {
            Some(i) => i as int == session_index(sessions@, addr) && i < sessions@.len(),
            None => session_index(sessions@, addr) == -1,
        },
{
    let mut i: usize = 0;
    while i < sessions.len()
        invariant
            addrs_unique(sessions@),
            i <= sessions@.len(),
            forall|j: int| 0 <= j < i ==> #[trigger] sessions@[j].addr != addr,
        decreases sessions@.len() - i,
    {
        if sessions[i].addr == addr {
            proof {
                lemma_session_index(sessions@, addr, i as int);
            }
            return Some(i);
        }
        i = i + 1;
    }
    None
}

/// The player of the session at the address is the host.
pub open spec fn is_host_addr(m: ServerModel, addr: ClientAddr) -> bool {
    let si = session_index(m.sessions, addr);
    si >= 0 && m.sessions[si].player_id == m.host_id
}

// ---------------------------------------------------------------------------
// Head counts

/// Number of human players.
pub open spec fn human_count(ps: Seq<PlayerState>) -> nat {
    ps.filter(is_human()).len()
}

/// Counts the human players.
pub fn count_humans(players: &Vec<PlayerState>) -> (n: usize)
    ensures
        n == human_count(players@),
{
    let ghost ps = players@;
    let mut n: usize = 0;
    let mut i: usize = 0;
    while i < players.len()
        invariant
            players@ == ps,
            i <= ps.len(),
            n == ps.take(i as int).filter(is_human()).len(),
            n <= i,
        decreases ps.len() - i,
    {
        proof {
            assert(ps.take(i + 1) == ps.take(i as int).push(ps[i as int]));
            ps.take(i as int).lemma_filter_push(ps[i as int], is_human());
            assert(is_human()(ps[i as int]) == !ps[i as int].is_bot);
        }
        if !players[i].is_bot {
            n = n + 1;
        }
        i = i + 1;
    }
    proof {
        assert(ps.take(ps.len() as int) == ps);
    }
    n
}

/// Position of the first player, from `i` on, that passes the test.
pub open spec fn first_where(ps: Seq<PlayerState>, pred: spec_fn(PlayerState) -> bool, i: int) -> int
    decreases ps.len() - i,
{
    if i < 0 || i >= ps.len() {
        -1
    } else if pred(ps[i]) {
        i
    } else {
        first_where(ps, pred, i + 1)
    }
}

/// The test for a bot.
pub open spec fn is_bot() -> spec_fn(PlayerState) -> bool {
    |p: PlayerState| p.is_bot
}

pub(crate) proof fn lemma_first_where(ps: Seq<PlayerState>, pred: spec_fn(PlayerState) -> bool, i: int)
    requires
        0 <= i,
    ensures
        first_where(ps, pred, i) == -1 || (i <= first_where(ps, pred, i) < ps.len() && pred(
            ps[first_where(ps, pred, i)],
        )),
    decreases ps.len() - i,
{
    if i < ps.len() && !pred(ps[i]) {
        lemma_first_where(ps, pred, i + 1);
    }
}

/// Position of the first human player (`human == true`) or of the first bot.
fn first_of_kind(players: &Vec<PlayerState>, human: bool) -> (found: Option<usize>)
    ensures
        ({
            let k = first_where(players@, if human { is_human() } else { is_bot() }, 0);
            match found {
                Some(i) => i as int == k,
                None => k == -1,
            }
        }),
{
    let ghost pred = if human { is_human() } else { is_bot() };
    let mut i: usize = 0;
    while i < players.len()
        invariant
            i <= players@.len(),
            pred == (if human { is_human() } else { is_bot() }),
            first_where(players@, pred, 0) == first_where(players@, pred, i as int),
        decreases players@.len() - i,
    {
        assert(pred(players@[i as int]) == (players@[i as int].is_bot != human));
        if players[i].is_bot != human {
            return Some(i);
        }
        i = i + 1;
    }
    None
}

/// Position of the first bot.
pub fn first_bot(players: &Vec<PlayerState>) -> (found: Option<usize>)
    ensures
        match found {
            Some(i) => i as int == first_where(players@, is_bot(), 0) && i < players@.len()
                && players@[i as int].is_bot,
            None => first_where(players@, is_bot(), 0) == -1,
        },
{
    let r = first_of_kind(players, false);
    proof {
        lemma_first_where(players@, is_bot(), 0);
    }
    r
}

/// Id of the first human player, 0 when there is none: the next host.
pub open spec fn next_host(ps: Seq<PlayerState>) -> u32 {
    let k = first_where(ps, is_human(), 0);
    if k >= 0 {
        ps[k].id
    } else {
        0
    }
}

/// Picks the next host: the first human player, or 0.
pub fn pick_next_host(players: &Vec<PlayerState>) -> (id: u32)
    ensures
        id == next_host(players@),
{
    match first_of_kind(players, true) {
        Some(i) => {
            proof {
                lemma_first_where(players@, is_human(), 0);
            }
            players[i].id
        },
        None => 0,
    }
}

// ---------------------------------------------------------------------------
// Bots

/// The name of bot number `n`: `RetroBot_` followed by the digit.
pub open spec fn bot_name_view(n: int) -> Seq<char> {
    BOT_NAME_PREFIX@ + seq![
        if n == 1 {
            '1'
        } else if n == 2 {
            '2'
        } else if n == 3 {
            '3'
        } else {
            '4'
        },
    ]
}

/// The name of bot number `n`, for `n` from 1 to 4.
pub fn bot_name(n: u32) -> (name: String)
    requires
        1 <= n <= 4,
    ensures
        name@ == bot_name_view(n as int),
{
    let mut name = String::from_str(BOT_NAME_PREFIX);
    if n == 1 {
        name.append("1");
        proof {
            reveal_strlit("1");
        }
    } else if n == 2 {
        name.append("2");
        proof {
            reveal_strlit("2");
        }
    } else if n == 3 {
        name.append("3");
        proof {
            reveal_strlit("3");
        }
    } else {
        name.append("4");
        proof {
            reveal_strlit("4");
        }
    }
    name
}

/// `p` is bot number `n`, fresh on `cell`: id `1000 + n`, facing `n % 4`,
/// full health, no score.
pub open spec fn is_new_bot(p: PlayerState, n: int, cell: (usize, usize)) -> bool {
    &&& p.id == 1000 + n
    &&& p.name@ == bot_name_view(n)
    &&& p.x == cell.0
    &&& p.y == cell.1
    &&& p.dir_idx == n % 4
    &&& p.score == 0
    &&& p.deaths == 0
    &&& p.health == FULL_HEALTH
    &&& p.is_alive
    &&& p.is_bot
    &&& p.respawn_ticks == 0
}

/// Makes bot number `n` on the cell.
pub fn make_bot(n: u32, cell: (usize, usize)) -> (p: PlayerState)
    requires
        1 <= n <= 4,
    ensures
        is_new_bot(p, n as int, cell),
{
    PlayerState {
        id: 1000 + n,
        name: bot_name(n),
        x: cell.0,
        y: cell.1,
        dir_idx: (n % 4) as usize,
        score: 0,
        deaths: 0,
        health: FULL_HEALTH,
        is_alive: true,
        is_bot: true,
        respawn_ticks: 0,
    }
}

/// The number of the bot that replaces a leaving human: the first of 1 to
/// 4 whose bot is not in the match, or 1 when all four are.
pub open spec fn replacement_bot_number(ps: Seq<PlayerState>) -> int {
    if !bot_present(ps, 1001) {
        1
    } else if !bot_present(ps, 1002) {
        2
    } else if !bot_present(ps, 1003) {
        3
    } else if !bot_present(ps, 1004) {
        4
    } else {
        1
    }
}

/// Some bot has the id.
pub open spec fn bot_present(ps: Seq<PlayerState>, id: u32) -> bool {
    exists|i: int| 0 <= i < ps.len() && #[trigger] ps[i].id == id && ps[i].is_bot
}

fn has_bot(players: &Vec<PlayerState>, id: u32) -> (b: bool)
    ensures
        b == bot_present(players@, id),
{
    let mut i: usize = 0;
    while i < players.len()
        invariant
            i <= players@.len(),
            forall|j: int| 0 <= j < i ==> !(#[trigger] players@[j].id == id && players@[j].is_bot),
        decreases players@.len() - i,
    {
        if players[i].id == id && players[i].is_bot {
            return true;
        }
        i = i + 1;
    }
    false
}

/// A bot takes the place of a leaving human: the first free bot number,
/// on a random free cell. Returns the bot's id.
pub fn spawn_replacement_bot(players: &mut Vec<PlayerState>, level: &Level) -> (bot_id: u32)
    requires
        level.wf(),
        ids_unique(old(players)@),
        dirs_valid(old(players)@),
    ensures
        ids_unique(final(players)@),
        dirs_valid(final(players)@),
        bot_id == 1000 + replacement_bot_number(old(players)@),
        exists|bot: PlayerState, cell: (usize, usize)|
            is_new_bot(bot, replacement_bot_number(old(players)@), cell) && valid_spawn(
                *level,
                occupied_seq(old(players)@, None),
                cell,
            ) && final(players)@ == upserted(old(players)@, bot),
{
    let n: u32 = if !has_bot(players, 1001) {
        1
    } else if !has_bot(players, 1002) {
        2
    } else if !has_bot(players, 1003) {
        3
    } else if !has_bot(players, 1004) {
        4
    } else {
        1
    };
    let occupied = occupied_cells(players, None);
    let cell = find_random_spawn(level, &occupied);
    let bot = make_bot(n, cell);
    let ghost b = bot;
    upsert_player(players, bot);
    proof {
        lemma_upsert_keeps_dirs(old(players)@, b);
        assert(n as int == replacement_bot_number(old(players)@));
        assert(is_new_bot(b, replacement_bot_number(old(players)@), cell) && valid_spawn(
            *level,
            occupied_seq(old(players)@, None),
            cell,
        ) && players@ == upserted(old(players)@, b));
    }
    1000 + n
}

/// Storing a player with a valid direction keeps the directions valid.
pub proof fn lemma_upsert_keeps_dirs(ps: Seq<PlayerState>, p: PlayerState)
    requires
        dirs_valid(ps),
        p.dir_idx < 4,
    ensures
        dirs_valid(upserted(ps, p)),
{
    let u = upserted(ps, p);
    assert forall|a: int| 0 <= a < u.len() implies #[trigger] u[a].dir_idx < 4 by {
        if has_id(ps, p.id) {
            if a != index_of(ps, p.id) {
                assert(u[a] == ps[a]);
            }
        } else if a < ps.len() {
            assert(u[a] == ps[a]);
        }
    }
}

// ---------------------------------------------------------------------------
// Rounds

/// The player with score, deaths and respawn wait cleared.
pub open spec fn zeroed(p: PlayerState) -> PlayerState {
    PlayerState { score: 0, deaths: 0, respawn_ticks: 0, ..p }
}

/// Every player with score, deaths and respawn wait cleared.
pub open spec fn all_zeroed(ps: Seq<PlayerState>) -> Seq<PlayerState> {
    ps.map_values(|p: PlayerState| zeroed(p))
}

/// The players with the bots stored in order.
pub open spec fn bots_added(ps: Seq<PlayerState>, bots: Seq<PlayerState>) -> Seq<PlayerState>
    decreases bots.len(),
{
    if bots.len() == 0 {
        ps
    } else {
        upserted(bots_added(ps, bots.drop_last()), bots.last())
    }
}

/// Bots a new round brings in: enough for `MAX_PLAYERS` players when bots
/// are enabled, none otherwise.
pub open spec fn bots_to_spawn(humans: nat, enabled: bool) -> nat {
    if enabled && humans < MAX_PLAYERS {
        (MAX_PLAYERS - humans) as nat
    } else {
        0
    }
}

/// The players at the start of a round: the humans of `before` respawned
/// in order with their scores cleared, then bots numbered from 1, each on a
/// spawn cell that avoids the humans and the bots before it.
#[verifier::opaque]
pub open spec fn new_round_players(level: Level, before: Seq<PlayerState>, enabled: bool, after: Seq<PlayerState>) -> bool {
    let h = before.filter(is_human());
    exists|r: Seq<PlayerState>, bots: Seq<PlayerState>, cells: Seq<(usize, usize)>|
        {
            &&& respawned_all(level, h, r)
            &&& bots.len() == bots_to_spawn(h.len(), enabled)
            &&& cells.len() == bots.len()
            &&& forall|j: int|
                0 <= j < bots.len() ==> is_new_bot(#[trigger] bots[j], j + 1, cells[j]) && valid_spawn(
                    level,
                    occupied_seq(all_zeroed(r), None) + cells.take(j),
                    cells[j],
                )
            &&& after == bots_added(all_zeroed(r), bots)
        }
}

/// Filtering by a test that every element passes changes nothing.
pub proof fn lemma_filter_all(ps: Seq<PlayerState>, pred: spec_fn(PlayerState) -> bool)
    requires
        forall|k: int| 0 <= k < ps.len() ==> pred(#[trigger] ps[k]),
    ensures
        ps.filter(pred) == ps,
    decreases ps.len(),
{
    reveal(Seq::filter);
    if ps.len() > 0 {
        lemma_filter_all(ps.drop_last(), pred);
        assert(pred(ps[ps.len() - 1]));
        assert(ps.drop_last().push(ps.last()) =~= ps);
    }
}

pub proof fn lemma_respawned_keeps_valid(level: Level, before: Seq<PlayerState>, after: Seq<PlayerState>)
    requires
        ids_unique(before),
        dirs_valid(before),
        respawned_all(level, before, after),
    ensures
        ids_unique(after),
        dirs_valid(after),
        ids_unique(all_zeroed(after)),
        dirs_valid(all_zeroed(after)),
{
    let z = all_zeroed(after);
    assert forall|a: int, b: int| 0 <= a < after.len() && 0 <= b < after.len() && a != b implies #[trigger] after[a].id
        != #[trigger] after[b].id by {
        assert(after[a].id == before[a].id && after[b].id == before[b].id);
    }
    assert forall|a: int| 0 <= a < after.len() implies #[trigger] after[a].dir_idx < 4 by {
        assert(after[a].dir_idx == before[a].dir_idx);
    }
    assert forall|a: int, b: int| 0 <= a < z.len() && 0 <= b < z.len() && a != b implies #[trigger] z[a].id
        != #[trigger] z[b].id by {
        assert(z[a].id == after[a].id && z[b].id == after[b].id);
    }
    assert forall|a: int| 0 <= a < z.len() implies #[trigger] z[a].dir_idx < 4 by {
        assert(z[a].dir_idx == after[a].dir_idx);
    }
}

/// The outcome of starting a round at time `now` on the level: bots
/// leave, the humans respawn with their scores cleared, lasers vanish, the
/// match plays from `now`, and when bots are enabled new bots fill the
/// match up to `MAX_PLAYERS` players, which is logged.
pub open spec fn new_round_outcome(level: Level, pre: ServerModel, now: u64, post: ServerModel, events: Seq<ServerEvent>) -> bool {
    &&& new_round_players(level, pre.players, pre.bots_enabled, post.players)
    &&& post == ServerModel {
        players: post.players,
        lasers: Seq::empty(),
        match_state: MatchState::Playing,
        round_start: Some(now),
        ..pre
    }
    &&& pre.bots_enabled ==> events.len() == 1 && (events[0] matches ServerEvent::Log {
        line: LogLine::BotsSpawned { count },
    } && count == bots_to_spawn(human_count(pre.players), true))
    &&& !pre.bots_enabled ==> events.len() == 0
}

/// Starts a round at time `now`: bots leave, the humans respawn with their
/// scores cleared, lasers vanish, the match plays, and when bots are
/// enabled new bots fill the match up to `MAX_PLAYERS` players.
pub fn begin_new_round(state: &mut ServerState, now: u64) -> (events: Vec<ServerEvent>)
    requires
        old(state).wf(),
    ensures
        final(state).wf(),
        final(state).level == old(state).level,
        new_round_outcome(old(state).level, old(state)@, now, final(state)@, events@),
{
    let ghost ps0 = state.players@;
    let ghost s0 = state@;
    let ghost level0 = state.level;
    let ghost h = ps0.filter(is_human());
    remove_bots(&mut state.players);
    assert(dirs_valid(state.players@)) by {
        assert forall|a: int| 0 <= a < state.players@.len() implies #[trigger] state.players@[a].dir_idx < 4 by {
            lemma_filter_keeps_ids_unique(ps0, is_human());
            assert(ps0.contains(state.players@[a]));
        }
    }
    reset_all_positions(&mut state.players, &state.level);
    let ghost r = state.players@;
    proof {
        lemma_respawned_keeps_valid(state.level, h, r);
    }
    let mut i: usize = 0;
    while i < state.players.len()
        invariant
            state@ == (ServerModel { players: state@.players, ..s0 }),
            state.level == level0,
            level0.wf(),
            addrs_unique(s0.sessions),
            state.players@.len() == r.len(),
            i <= r.len(),
            forall|j: int| 0 <= j < i ==> #[trigger] state.players@[j] == zeroed(r[j]),
            forall|j: int| i <= j < r.len() ==> #[trigger] state.players@[j] == r[j],
        decreases r.len() - i,
    {
        state.players[i].score = 0;
        state.players[i].deaths = 0;
        state.players[i].respawn_ticks = 0;
        i = i + 1;
    }
    assert(state.players@ =~= all_zeroed(r));
    let ghost z = state.players@;
    state.lasers.clear();
    state.match_state = MatchState::Playing;
    state.round_start = Some(now);
    let mut events: Vec<ServerEvent> = Vec::new();
    let ghost mut bots: Seq<PlayerState> = seq![];
    let ghost mut cells: Seq<(usize, usize)> = seq![];
    if state.bots_enabled {
        let humans = count_humans(&state.players);
        proof {
            lemma_filter_keeps_ids_unique(ps0, is_human());
            assert forall|k: int| 0 <= k < h.len() implies is_human()(#[trigger] h[k]) by {
                ps0.lemma_filter_pred(is_human(), k);
            }
            assert forall|k: int| 0 <= k < z.len() implies is_human()(#[trigger] z[k]) by {
                assert(z[k].is_bot == h[k].is_bot);
            }
            lemma_filter_all(z, is_human());
        }
        let to_spawn: usize = if humans < MAX_PLAYERS {
            MAX_PLAYERS - humans
        } else {
            0
        };
        let mut occupied = occupied_cells(&state.players, None);
        let mut n: usize = 1;
        while n <= to_spawn
            invariant
                state.wf(),
                state@ == (ServerModel {
                    players: state@.players,
                    lasers: Seq::empty(),
                    match_state: MatchState::Playing,
                    round_start: Some(now),
                    ..s0
                }),
                state.level == level0,
                to_spawn <= MAX_PLAYERS,
                1 <= n <= to_spawn + 1,
                bots.len() == n - 1,
                cells.len() == n - 1,
                occupied@ == occupied_seq(z, None) + cells,
                state.players@ == bots_added(z, bots),
                forall|j: int|
                    0 <= j < bots.len() ==> is_new_bot(#[trigger] bots[j], j + 1, cells[j]) && valid_spawn(
                        state.level,
                        occupied_seq(z, None) + cells.take(j),
                        cells[j],
                    ),
            decreases to_spawn + 1 - n,
        {
            let cell = find_random_spawn(&state.level, &occupied);
            occupied.push(cell);
            let bot = make_bot(n as u32, cell);
            let ghost b = bot;
            let ghost before = state.players@;
            upsert_player(&mut state.players, bot);
            proof {
                lemma_upsert_keeps_dirs(before, b);
                let old_bots = bots;
                let old_cells = cells;
                bots = bots.push(b);
                cells = cells.push(cell);
                assert(bots.drop_last() =~= old_bots);
                assert(cells.take(old_cells.len() as int) =~= old_cells);
                assert forall|j: int|
                    0 <= j < bots.len() implies is_new_bot(#[trigger] bots[j], j + 1, cells[j]) && valid_spawn(
                        state.level,
                        occupied_seq(z, None) + cells.take(j),
                        cells[j],
                    ) by {
                    if j < old_bots.len() {
                        assert(bots[j] == old_bots[j]);
                        assert(cells[j] == old_cells[j]);
                        assert(cells.take(j) =~= old_cells.take(j));
                    }
                }
                assert(occupied@ =~= occupied_seq(z, None) + cells);
            }
            n = n + 1;
        }
        assert(humans == h.len());
        assert(bots.len() == bots_to_spawn(h.len(), true));
        events.push(ServerEvent::Log { line: LogLine::BotsSpawned { count: to_spawn } });
    }
    proof {
        reveal(new_round_players);
        assert(bots.len() == bots_to_spawn(h.len(), s0.bots_enabled));
        assert({
            &&& respawned_all(level0, h, r)
            &&& bots.len() == bots_to_spawn(h.len(), s0.bots_enabled)
            &&& cells.len() == bots.len()
            &&& forall|j: int|
                0 <= j < bots.len() ==> is_new_bot(#[trigger] bots[j], j + 1, cells[j]) && valid_spawn(
                    level0,
                    occupied_seq(all_zeroed(r), None) + cells.take(j),
                    cells[j],
                )
            &&& state.players@ == bots_added(all_zeroed(r), bots)
        });
    }
    events
}

} // verus!
