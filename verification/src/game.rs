//! The game's grid model: directions, players, laser beams and the rule
//! constants the server applies.
//!
//! Positions are grid cells: a player stands in the middle of its cell.
//! LaserEffect end points are counted in half cells, so that both cell centres
//! (`2 * cell + 1`) and cell edges (`2 * cell`) are whole numbers.

use vstd::prelude::*;

verus! {

/// Damage of one laser hit.
pub const LASER_DAMAGE: i32 = 35;

/// Health of a freshly spawned player.
pub const FULL_HEALTH: i32 = 100;

/// Server ticks a laser beam stays visible.
pub const LASER_TICKS: u32 = 7;

/// Server ticks a killed player waits before respawning.
pub const RESPAWN_TICKS: u32 = 61;

/// Server ticks a client waits between two shots.
pub const SHOOT_COOLDOWN_TICKS: u32 = 10;

/// Most players of a match, bots included; also the most humans admitted.
pub const MAX_PLAYERS: usize = 4;

/// Id of the first bot; bots use the ids `FIRST_BOT_ID .. FIRST_BOT_ID + 4`.
pub const FIRST_BOT_ID: u32 = 1001;

/// Silence after which a client is dropped, in nanoseconds.
pub const HEARTBEAT_TIMEOUT_NANOS: u64 = 5_000_000_000;

/// Length of a round, in nanoseconds.
pub const MATCH_DURATION_NANOS: u64 = 120_000_000_000;

/// Unit step of direction `dir`: 0 east, 1 south, 2 west, 3 north.
pub open spec fn dir_delta(dir: int) -> (int, int) {
    if dir == 0 {
        (1, 0)
    } else if dir == 1 {
        (0, 1)
    } else if dir == 2 {
        (-1, 0)
    } else {
        (0, -1)
    }
}

/// Unit step of a direction index: 0 east, 1 south, 2 west, 3 north.
pub fn dir_coords(dir_idx: usize) -> (d: (i32, i32))
    requires
        dir_idx < 4,
    ensures
        d.0 as int == dir_delta(dir_idx as int).0,
        d.1 as int == dir_delta(dir_idx as int).1,
{
    match dir_idx {
        0 => (1, 0),
        1 => (0, 1),
        2 => (-1, 0),
        _ => (0, -1),
    }
}

/// The direction a quarter turn to the left (counter-clockwise).
pub open spec fn left_of(dir: int) -> int {
    (dir + 3) % 4
}

/// The direction a quarter turn to the right (clockwise).
pub open spec fn right_of(dir: int) -> int {
    (dir + 1) % 4
}

/// A participant of the match, human or bot.
#[derive(Debug, Clone)]
pub struct PlayerState {
    pub id: u32,
    pub name: String,
    /// Column of the cell the player stands in.
    pub x: usize,
    /// Row of the cell the player stands in.
    pub y: usize,
    pub dir_idx: usize,
    pub score: i32,
    pub deaths: i32,
    pub health: i32,
    pub is_alive: bool,
    pub is_bot: bool,
    /// Ticks left until a dead player respawns.
    pub respawn_ticks: u32,
}

/// A visible laser beam. It starts at the centre of the shooter's cell and
/// ends at the centre of cell `(to_x, to_y)`, or, when it stopped at a
/// wall, on the face of that wall that looks back along `dir_idx`.
#[derive(Debug, Clone, Copy, PartialEq, Eq, Structural)]
pub struct LaserEffect {
    pub from_x: usize,
    pub from_y: usize,
    pub to_x: usize,
    pub to_y: usize,
    pub at_wall: bool,
    pub dir_idx: usize,
    /// Ticks the beam stays visible.
    pub ticks_left: u32,
}

/// No two players share an id.
pub open spec fn ids_unique(ps: Seq<PlayerState>) -> bool {
    forall|i: int, j: int| 0 <= i < ps.len() && 0 <= j < ps.len() && i != j ==> #[trigger] ps[i].id != #[trigger] ps[j].id
}

/// Every player faces one of the four directions.
pub open spec fn dirs_valid(ps: Seq<PlayerState>) -> bool {
    forall|i: int| 0 <= i < ps.len() ==> #[trigger] ps[i].dir_idx < 4
}

/// Some player has the id.
pub open spec fn has_id(ps: Seq<PlayerState>, id: u32) -> bool {
    exists|i: int| 0 <= i < ps.len() && #[trigger] ps[i].id == id
}

/// Position of the player with the id, or -1 when there is none.
pub open spec fn index_of(ps: Seq<PlayerState>, id: u32) -> int {
    if has_id(ps, id) {
        choose|i: int| 0 <= i < ps.len() && ps[i].id == id
    } else {
        -1
    }
}

/// With unique ids, the player with the id sits at `index_of`.
pub proof fn lemma_index_of(ps: Seq<PlayerState>, id: u32, i: int)
    requires
        ids_unique(ps),
        0 <= i < ps.len(),
        ps[i].id == id,
    ensures
        index_of(ps, id) == i,
{
    let k = index_of(ps, id);
    assert(0 <= k < ps.len() && ps[k].id == id);
    if k != i {
        assert(ps[k].id != ps[i].id);
    }
}

/// Replacing a player by one with the same id and a valid direction keeps
/// the ids unique and the directions valid.
pub proof fn lemma_update_keeps_valid(ps: Seq<PlayerState>, i: int, p: PlayerState)
    requires
        ids_unique(ps),
        dirs_valid(ps),
        0 <= i < ps.len(),
        p.id == ps[i].id,
        p.dir_idx < 4,
    ensures
        ids_unique(ps.update(i, p)),
        dirs_valid(ps.update(i, p)),
{
    let u = ps.update(i, p);
    assert forall|a: int, b: int| 0 <= a < u.len() && 0 <= b < u.len() && a != b implies #[trigger] u[a].id
        != #[trigger] u[b].id by {
        assert(u[a].id == ps[a].id && u[b].id == ps[b].id);
    }
    assert forall|a: int| 0 <= a < u.len() implies #[trigger] u[a].dir_idx < 4 by {
        if a != i {
            assert(u[a] == ps[a]);
        }
    }
}

/// Position of the player with the id.
pub fn find_player(players: &Vec<PlayerState>, id: u32) -> (found: Option<usize>)
    ensures
        match found {
            Some(i) => i < players@.len() && players@[i as int].id == id && forall|j: int|
                0 <= j < i ==> #[trigger] players@[j].id != id,
            None => forall|j: int| 0 <= j < players@.len() ==> #[trigger] players@[j].id != id,
        },
{
    let mut i: usize = 0;
    while i < players.len()
        invariant
            i <= players@.len(),
            forall|j: int| 0 <= j < i ==> #[trigger] players@[j].id != id,
        decreases players@.len() - i,
    {
        if players[i].id == id {
            return Some(i);
        }
        i = i + 1;
    }
    None
}

/// The players with `p` stored under its id: it replaces the player with
/// the same id, or is appended when there is none.
pub open spec fn upserted(ps: Seq<PlayerState>, p: PlayerState) -> Seq<PlayerState> {
    if has_id(ps, p.id) {
        ps.update(index_of(ps, p.id), p)
    } else {
        ps.push(p)
    }
}

/// Stores the player under its id: replaces the player with the same id,
/// or appends it when there is none.
pub fn upsert_player(players: &mut Vec<PlayerState>, p: PlayerState)
    requires
        ids_unique(old(players)@),
    ensures
        ids_unique(final(players)@),
        final(players)@ == upserted(old(players)@, p),
{
    let ghost ps = players@;
    let found = find_player(players, p.id);
    match found {
        Some(i) => {
            proof {
                lemma_index_of(ps, p.id, i as int);
            }
            players.set(i, p);
            proof {
                assert forall|a: int, b: int|
                    0 <= a < players@.len() && 0 <= b < players@.len() && a != b implies #[trigger] players@[a].id
                    != #[trigger] players@[b].id by {
                    assert(players@[a].id == ps[a].id && players@[b].id == ps[b].id);
                }
            }
        },
        None => {
            players.push(p);
            proof {
                assert forall|a: int, b: int|
                    0 <= a < players@.len() && 0 <= b < players@.len() && a != b implies #[trigger] players@[a].id
                    != #[trigger] players@[b].id by {
                    if a < ps.len() {
                        assert(players@[a] == ps[a]);
                    }
                    if b < ps.len() {
                        assert(players@[b] == ps[b]);
                    }
                }
            }
        },
    }
}

/// Removes the player with the id, if there is one; the others keep their order.
pub fn remove_player(players: &mut Vec<PlayerState>, id: u32)
    requires
        ids_unique(old(players)@),
    ensures
        ids_unique(final(players)@),
        !has_id(final(players)@, id),
        has_id(old(players)@, id) ==> exists|i: int|
            0 <= i < old(players)@.len() && old(players)@[i].id == id && final(players)@ == old(
                players,
            )@.remove(i),
        !has_id(old(players)@, id) ==> final(players)@ == old(players)@,
{
    let found = find_player(players, id);
    match found {
        Some(i) => {
            let ghost ps = players@;
            players.remove(i);
            proof {
                assert forall|a: int, b: int|
                    0 <= a < players@.len() && 0 <= b < players@.len() && a != b implies #[trigger] players@[a].id
                    != #[trigger] players@[b].id by {
                    let a0 = if a < i { a } else { a + 1 };
                    let b0 = if b < i { b } else { b + 1 };
                    assert(players@[a] == ps[a0]);
                    assert(players@[b] == ps[b0]);
                }
                assert forall|j: int| 0 <= j < players@.len() implies #[trigger] players@[j].id != id by {
                    let j0 = if j < i { j } else { j + 1 };
                    assert(players@[j] == ps[j0]);
                }
            }
        },
        None => {},
    }
}

/// Filtering keeps the ids unique, and keeps only players that were there.
pub proof fn lemma_filter_keeps_ids_unique(ps: Seq<PlayerState>, pred: spec_fn(PlayerState) -> bool)
    requires
        ids_unique(ps),
    ensures
        ids_unique(ps.filter(pred)),
        forall|k: int| 0 <= k < ps.filter(pred).len() ==> ps.contains(#[trigger] ps.filter(pred)[k]),
    decreases ps.len(),
{
    reveal(Seq::filter);
    if ps.len() > 0 {
        let init = ps.drop_last();
        assert forall|a: int, b: int|
            0 <= a < init.len() && 0 <= b < init.len() && a != b implies #[trigger] init[a].id
            != #[trigger] init[b].id by {
            assert(init[a] == ps[a] && init[b] == ps[b]);
        }
        lemma_filter_keeps_ids_unique(init, pred);
        let f = init.filter(pred);
        let out = ps.filter(pred);
        assert forall|k: int| 0 <= k < out.len() implies ps.contains(#[trigger] out[k]) by {
            if k < f.len() {
                assert(out[k] == f[k]);
                let i = choose|i: int| 0 <= i < init.len() && init[i] == f[k];
                assert(ps[i] == init[i]);
            } else {
                assert(out[k] == ps[ps.len() - 1]);
            }
        }
        if pred(ps.last()) {
            assert forall|a: int, b: int|
                0 <= a < out.len() && 0 <= b < out.len() && a != b implies #[trigger] out[a].id
                != #[trigger] out[b].id by {
                if a < f.len() && b < f.len() {
                    assert(out[a] == f[a] && out[b] == f[b]);
                } else if a < f.len() {
                    assert(out[a] == f[a]);
                    let i = choose|i: int| 0 <= i < init.len() && init[i] == f[a];
                    assert(ps[i] == init[i]);
                    assert(out[b] == ps[ps.len() - 1]);
                } else {
                    assert(out[b] == f[b]);
                    let i = choose|i: int| 0 <= i < init.len() && init[i] == f[b];
                    assert(ps[i] == init[i]);
                    assert(out[a] == ps[ps.len() - 1]);
                }
            }
        }
    }
}

/// A copy of the player, field for field.
pub fn copy_player(p: &PlayerState) -> (q: PlayerState)
    ensures
        q == *p,
{
    PlayerState {
        id: p.id,
        name: p.name.clone(),
        x: p.x,
        y: p.y,
        dir_idx: p.dir_idx,
        score: p.score,
        deaths: p.deaths,
        health: p.health,
        is_alive: p.is_alive,
        is_bot: p.is_bot,
        respawn_ticks: p.respawn_ticks,
    }
}

/// The test for a human player.
pub open spec fn is_human() -> spec_fn(PlayerState) -> bool {
    |p: PlayerState| !p.is_bot
}

/// Keeps the human players, in their order, and drops the bots.
pub fn remove_bots(players: &mut Vec<PlayerState>)
    requires
        ids_unique(old(players)@),
    ensures
        ids_unique(final(players)@),
        final(players)@ == old(players)@.filter(is_human()),
{
    let ghost ps = players@;

    let mut kept: Vec<PlayerState> = Vec::new();
    let mut i: usize = 0;
    while i < players.len()
        invariant
            players@ == ps,
            i <= ps.len(),
            kept@ == ps.take(i as int).filter(is_human()),
        decreases ps.len() - i,
    {
        proof {
            assert(ps.take(i + 1) == ps.take(i as int).push(ps[i as int]));
            ps.take(i as int).lemma_filter_push(ps[i as int], is_human());
            assert(is_human()(ps[i as int]) == !ps[i as int].is_bot);
        }
        if !players[i].is_bot {
            kept.push(copy_player(&players[i]));
        }
        i = i + 1;
    }
    proof {
        assert(ps.take(ps.len() as int) == ps);
        lemma_filter_keeps_ids_unique(ps, is_human());
    }
    *players = kept;
}

} // verus!
