//! The bots: each tick a bot that is not cooling down shoots at a player
//! in front of it, turns towards a player close by, or wanders.

use std::collections::HashMap;
use vstd::prelude::*;

use crate::game::{
    dir_delta, dirs_valid, find_player, ids_unique, index_of, left_of, lemma_index_of,
    lemma_update_keeps_valid, right_of, LaserEffect, PlayerState,
};
use crate::levels::Level;
use crate::physics::{
    after_hit, beam, cell_taken_by_other, check_line_of_sight, fire_laser, lemma_ray_hit_valid,
    along, occupied_by_other, ray_stop, step_cell, RayStop,
};
use crate::rng::{random_ratio, random_u32_in};

verus! {

broadcast use vstd::std_specs::hash::group_hash_axioms;

/// What a bot tick reads and changes: players, laser beams, bot cooldowns.
pub type BotWorld = (Seq<PlayerState>, Seq<LaserEffect>, Map<u32, u32>);

/// Where the scan of the player at `bi` in direction `dir` stops.
pub open spec fn sight(level: Level, ps: Seq<PlayerState>, bi: int, dir: int) -> RayStop {
    ray_stop(level, ps, ps[bi].id, ps[bi].x as int, ps[bi].y as int, dir, 1)
}

/// The first direction from `d` on, other than the one the player at `bi`
/// faces, in which it sees a player less than six cells away.
pub open spec fn turn_toward(level: Level, ps: Seq<PlayerState>, bi: int, d: int) -> Option<int>
    decreases 4 - d,
{
    if d < 0 || d >= 4 {
        None
    } else if d != ps[bi].dir_idx && (sight(level, ps, bi, d) matches RayStop::Hit { steps, .. }
        && steps < 6) {
        Some(d)
    } else {
        turn_toward(level, ps, bi, d + 1)
    }
}

/// The player after a quarter turn, clockwise or not.
pub open spec fn turned(b: PlayerState, clockwise: bool) -> PlayerState {
    PlayerState {
        dir_idx: if clockwise {
            right_of(b.dir_idx as int) as usize
        } else {
            left_of(b.dir_idx as int) as usize
        },
        ..b
    }
}

/// The bot at `bi` after wandering: when it tries to move and the cell in
/// front lies in the grid, it steps there if that cell is open and free and
/// turns otherwise; it stays put when the cell in front is off the grid;
/// and it turns when it does not try to move.
pub open spec fn wander(level: Level, ps: Seq<PlayerState>, bi: int, try_move: bool, clockwise: bool) -> PlayerState {
    let b = ps[bi];
    let nx = along(b.x as int, dir_delta(b.dir_idx as int).0, 1);
    let ny = along(b.y as int, dir_delta(b.dir_idx as int).1, 1);
    if try_move {
        if 0 <= nx < level.width && 0 <= ny < level.height {
            if !level.wall(nx, ny) && !occupied_by_other(ps, b.id, nx, ny) {
                PlayerState { x: nx as usize, y: ny as usize, ..b }
            } else {
                turned(b, clockwise)
            }
        } else {
            b
        }
    } else {
        turned(b, clockwise)
    }
}

/// The cooldown stored for the bot, zero when none is.
pub open spec fn cooldown_of(cd: Map<u32, u32>, id: u32) -> u32 {
    if cd.contains_key(id) {
        cd[id]
    } else {
        0
    }
}

/// The cooldowns with a fresh value in `lo..hi` for the bot.
pub open spec fn cooldown_reset(cd: Map<u32, u32>, id: u32, cd2: Map<u32, u32>, lo: u32, hi: u32) -> bool {
    cd2.contains_key(id) && cd2 == cd.insert(id, cd2[id]) && lo <= cd2[id] < hi
}

/// One tick of the bot `id`. A bot that is missing or dead does nothing.
/// A bot cooling down counts its cooldown down by one. Otherwise it shoots
/// when a player is in line in front of it (cooldown 10 to 19), else turns
/// to the first direction in which a player stands less than six cells away
/// (cooldown 5 to 11), else wanders (cooldown 6 to 14).
#[verifier::opaque]
pub open spec fn bot_turn(level: Level, pre: BotWorld, id: u32, post: BotWorld) -> bool {
    let (ps, ls, cd) = pre;
    let (ps2, ls2, cd2) = post;
    let bi = index_of(ps, id);
    if bi < 0 || !ps[bi].is_alive {
        post == pre
    } else if cooldown_of(cd, id) > 0 {
        ps2 == ps && ls2 == ls && cd2 == cd.insert(id, (cooldown_of(cd, id) - 1) as u32)
    } else {
        let b = ps[bi];
        match sight(level, ps, bi, b.dir_idx as int) {
            RayStop::Hit { index, steps } => {
                &&& ps2 == after_hit(ps, bi, index)
                &&& ls2 == ls.push(beam(b, sight(level, ps, bi, b.dir_idx as int), ps))
                &&& cooldown_reset(cd, id, cd2, 10, 20)
            },
            _ => match turn_toward(level, ps, bi, 0) {
                Some(d) => {
                    &&& ps2 == ps.update(bi, PlayerState { dir_idx: d as usize, ..b })
                    &&& ls2 == ls
                    &&& cooldown_reset(cd, id, cd2, 5, 12)
                },
                None => {
                    &&& exists|try_move: bool, clockwise: bool|
                        ps2 == ps.update(bi, #[trigger] wander(level, ps, bi, try_move, clockwise))
                    &&& ls2 == ls
                    &&& cooldown_reset(cd, id, cd2, 6, 15)
                },
            },
        }
    }
}

/// The first direction, other than the one it faces, in which the player
/// at `bi` sees another player less than six cells away.
fn look_around(players: &Vec<PlayerState>, level: &Level, bi: usize) -> (dir: Option<usize>)
    requires
        level.wf(),
        bi < players@.len(),
    ensures
        match turn_toward(*level, players@, bi as int, 0) {
            Some(d) => dir == Some(d as usize) && 0 <= d < 4,
            None => dir is None,
        },
{
    let ghost ps = players@;
    let id = players[bi].id;
    let bx = players[bi].x;
    let by = players[bi].y;
    let bdir = players[bi].dir_idx;
    let mut d: usize = 0;
    while d < 4
        invariant
            players@ == ps,
            level.wf(),
            bi < ps.len(),
            id == ps[bi as int].id,
            bx == ps[bi as int].x,
            by == ps[bi as int].y,
            bdir == ps[bi as int].dir_idx,
            d <= 4,
            turn_toward(*level, ps, bi as int, 0) == turn_toward(*level, ps, bi as int, d as int),
        decreases 4 - d,
    {
        proof {
            lemma_ray_hit_valid(*level, ps, id, bx as int, by as int, d as int, 1);
        }
        if d != bdir {
            let (tid, dist) = check_line_of_sight(id, bx, by, d, players, level);
            if tid.is_some() && dist < 6 {
                return Some(d);
            }
        }
        d = d + 1;
    }
    None
}

/// Lets the bot at `bi` wander; returns the turning direction it drew, if
/// it drew one.
fn wander_bot(players: &mut Vec<PlayerState>, level: &Level, bi: usize, try_move: bool) -> (clockwise: bool)
    requires
        level.wf(),
        bi < old(players)@.len(),
        ids_unique(old(players)@),
        dirs_valid(old(players)@),
    ensures
        final(players)@ == old(players)@.update(bi as int, wander(*level, old(players)@, bi as int, try_move, clockwise)),
        ids_unique(final(players)@),
        dirs_valid(final(players)@),
{
    let ghost ps = players@;
    let bot_id = players[bi].id;
    let bx = players[bi].x;
    let by = players[bi].y;
    let bdir = players[bi].dir_idx;
    let w = level.width;
    let h = level.height;
    let n = level.cells.len();
    let mut clockwise = false;
    if try_move {
        match step_cell(bx, by, bdir, 1, w, h) {
            Some((nx, ny)) => {
                proof {
                    crate::levels::lemma_cell_index(nx as int, ny as int, w as int, h as int);
                }
                if !level.cells[ny * w + nx] && !cell_taken_by_other(players, bot_id, nx, ny) {
                    players[bi].x = nx;
                    players[bi].y = ny;
                } else {
                    clockwise = random_ratio(1, 2);
                    players[bi].dir_idx = if clockwise {
                        (bdir + 1) % 4
                    } else {
                        (bdir + 3) % 4
                    };
                }
            },
            None => {},
        }
    } else {
        clockwise = random_ratio(1, 2);
        players[bi].dir_idx = if clockwise {
            (bdir + 1) % 4
        } else {
            (bdir + 3) % 4
        };
    }
    proof {
        assert(players@ =~= ps.update(bi as int, wander(*level, ps, bi as int, try_move, clockwise)));
        lemma_update_keeps_valid(ps, bi as int, wander(*level, ps, bi as int, try_move, clockwise));
    }
    clockwise
}

/// One tick of the bot `bot_id`; see `bot_turn`.
pub fn update_bot(
    bot_id: u32,
    players: &mut Vec<PlayerState>,
    level: &Level,
    lasers: &mut Vec<LaserEffect>,
    bot_cooldowns: &mut HashMap<u32, u32>,
)
    requires
        level.wf(),
        ids_unique(old(players)@),
        dirs_valid(old(players)@),
    ensures
        bot_turn(
            *level,
            (old(players)@, old(lasers)@, old(bot_cooldowns)@),
            bot_id,
            (final(players)@, final(lasers)@, final(bot_cooldowns)@),
        ),
        ids_unique(final(players)@),
        dirs_valid(final(players)@),
{
    let ghost ps = players@;
    let ghost ls = lasers@;
    let ghost cd = bot_cooldowns@;
    reveal(bot_turn);
    let bi = match find_player(players, bot_id) {
        None => {
            return;
        },
        Some(i) => i,
    };
    proof {
        lemma_index_of(ps, bot_id, bi as int);
    }
    if !players[bi].is_alive {
        return;
    }
    let cur: u32 = match bot_cooldowns.get(&bot_id) {
        Some(v) => *v,
        None => 0,
    };
    assert(cur == cooldown_of(cd, bot_id));
    if cur > 0 {
        bot_cooldowns.insert(bot_id, cur - 1);
        return;
    }
    let bx = players[bi].x;
    let by = players[bi].y;
    let bdir = players[bi].dir_idx;
    let (target, _) = check_line_of_sight(bot_id, bx, by, bdir, players, level);
    if target.is_some() {
        fire_laser(bot_id, players, level, lasers);
        let v = random_u32_in(10, 20);
        bot_cooldowns.insert(bot_id, v);
        return;
    }
    match look_around(players, level, bi) {
        Some(d) => {
            players[bi].dir_idx = d;
            let v = random_u32_in(5, 12);
            bot_cooldowns.insert(bot_id, v);
            proof {
                assert(players@ =~= ps.update(bi as int, PlayerState { dir_idx: d, ..ps[bi as int] }));
                lemma_update_keeps_valid(ps, bi as int, PlayerState { dir_idx: d, ..ps[bi as int] });
            }
        },
        None => {
            let try_move = random_ratio(13, 20);
            let clockwise = wander_bot(players, level, bi, try_move);
            let v = random_u32_in(6, 15);
            bot_cooldowns.insert(bot_id, v);
            proof {
                assert(players@ == ps.update(bi as int, wander(*level, ps, bi as int, try_move, clockwise)));
            }
        },
    }
}

/// The bots take their tick in the order of `bot_ids`: the result is
/// reached through a chain of `bot_turn` steps, one per id.
pub open spec fn bot_turns(level: Level, ids: Seq<u32>, trace: Seq<BotWorld>) -> bool {
    &&& trace.len() == ids.len() + 1
    &&& forall|k: int| 0 <= k < ids.len() ==> bot_turn(level, #[trigger] trace[k], ids[k], trace[k + 1])
}

/// Runs one tick of every bot in `bot_ids`, in order.
pub fn update_bots(
    bot_ids: &[u32],
    players: &mut Vec<PlayerState>,
    level: &Level,
    lasers: &mut Vec<LaserEffect>,
    bot_cooldowns: &mut HashMap<u32, u32>,
)
    requires
        level.wf(),
        ids_unique(old(players)@),
        dirs_valid(old(players)@),
    ensures
        exists|trace: Seq<BotWorld>|
            bot_turns(*level, bot_ids@, trace) && trace[0] == (
                old(players)@,
                old(lasers)@,
                old(bot_cooldowns)@,
            ) && trace[bot_ids@.len() as int] == (final(players)@, final(lasers)@, final(bot_cooldowns)@),
        ids_unique(final(players)@),
        dirs_valid(final(players)@),
{
    let ghost start: BotWorld = (players@, lasers@, bot_cooldowns@);
    let ghost mut trace: Seq<BotWorld> = seq![start];
    let mut k: usize = 0;
    while k < bot_ids.len()
        invariant
            level.wf(),
            ids_unique(players@),
            dirs_valid(players@),
            k <= bot_ids@.len(),
            trace.len() == k + 1,
            trace[0] == start,
            trace[k as int] == (players@, lasers@, bot_cooldowns@),
            forall|j: int| 0 <= j < k ==> bot_turn(*level, #[trigger] trace[j], bot_ids@[j], trace[j + 1]),
        decreases bot_ids@.len() - k,
    {
        update_bot(bot_ids[k], players, level, lasers, bot_cooldowns);
        proof {
            let prev = trace;
            trace = trace.push((players@, lasers@, bot_cooldowns@));
            assert forall|j: int| 0 <= j < k + 1 implies bot_turn(*level, #[trigger] trace[j], bot_ids@[j], trace[j + 1]) by {
                if j < k {
                    assert(trace[j] == prev[j] && trace[j + 1] == prev[j + 1]);
                }
            }
        }
        k = k + 1;
    }
    proof {
        assert(bot_turns(*level, bot_ids@, trace));
    }
}

} // verus!
