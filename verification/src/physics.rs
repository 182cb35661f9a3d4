//! Grid rules shared by players and bots: who stands where, what a player
//! sees straight ahead, what a laser shot hits, and where players spawn.

use vstd::prelude::*;

use crate::game::{
    dir_delta, dirs_valid, find_player, ids_unique, index_of, lemma_index_of, lemma_update_keeps_valid,
    LaserEffect, PlayerState, FULL_HEALTH, LASER_DAMAGE, LASER_TICKS, RESPAWN_TICKS,
};
use crate::levels::Level;
use crate::rng::choose_cell;

verus! {

// ---------------------------------------------------------------------------
// Occupancy

/// The player is alive, is not the excluded one, and stands in the cell.
pub open spec fn stands_at(p: PlayerState, exclude_id: u32, cx: int, cy: int) -> bool {
    p.id != exclude_id && p.is_alive && p.x == cx && p.y == cy
}

/// Some living player other than `exclude_id` stands in the cell.
pub open spec fn occupied_by_other(ps: Seq<PlayerState>, exclude_id: u32, cx: int, cy: int) -> bool {
    exists|i: int| 0 <= i < ps.len() && stands_at(#[trigger] ps[i], exclude_id, cx, cy)
}

/// Whether a living player other than `exclude_id` stands in the cell.
pub fn cell_occupied_by_other(players: &Vec<PlayerState>, exclude_id: u32, cell_x: i32, cell_y: i32) -> (b:
    bool)
    ensures
        b == occupied_by_other(players@, exclude_id, cell_x as int, cell_y as int),
{
    if cell_x < 0 || cell_y < 0 {
        return false;
    }
    cell_taken_by_other(players, exclude_id, cell_x as usize, cell_y as usize)
}

/// Whether a living player other than `exclude_id` stands in the cell.
pub(crate) fn cell_taken_by_other(players: &Vec<PlayerState>, exclude_id: u32, cx: usize, cy: usize) -> (b:
    bool)
    ensures
        b == occupied_by_other(players@, exclude_id, cx as int, cy as int),
{
    let mut i: usize = 0;
    while i < players.len()
        invariant
            i <= players@.len(),
            forall|j: int| 0 <= j < i ==> !stands_at(#[trigger] players@[j], exclude_id, cx as int, cy as int),
        decreases players@.len() - i,
    {
        let p = &players[i];
        if p.id != exclude_id && p.is_alive && p.x == cx && p.y == cy {
            assert(stands_at(players@[i as int], exclude_id, cx as int, cy as int));
            return true;
        }
        i = i + 1;
    }
    false
}

/// The players whose cells count as taken: the living ones, but for the
/// excluded id.
pub open spec fn occupant(exclude_id: Option<u32>) -> spec_fn(PlayerState) -> bool {
    |p: PlayerState| p.is_alive && exclude_id != Some(p.id)
}

/// The cell of a player.
pub open spec fn cell_of() -> spec_fn(PlayerState) -> (usize, usize) {
    |p: PlayerState| (p.x, p.y)
}

/// The cells of the players that count as taken, in player order.
pub open spec fn occupied_seq(ps: Seq<PlayerState>, exclude_id: Option<u32>) -> Seq<(usize, usize)> {
    ps.filter(occupant(exclude_id)).map_values(cell_of())
}

/// The cells of the living players, but for `exclude_id`.
pub fn occupied_cells(players: &Vec<PlayerState>, exclude_id: Option<u32>) -> (cells: Vec<(usize, usize)>)
    ensures
        cells@ == occupied_seq(players@, exclude_id),
{
    let ghost ps = players@;
    let mut occupied: Vec<(usize, usize)> = Vec::new();
    let mut i: usize = 0;
    while i < players.len()
        invariant
            players@ == ps,
            i <= ps.len(),
            occupied@ == occupied_seq(ps.take(i as int), exclude_id),
        decreases ps.len() - i,
    {
        proof {
            assert(ps.take(i + 1) == ps.take(i as int).push(ps[i as int]));
            ps.take(i as int).lemma_filter_push(ps[i as int], occupant(exclude_id));
            assert(occupant(exclude_id)(ps[i as int]) == (ps[i as int].is_alive && exclude_id != Some(ps[i as int].id)));
        }
        let p = &players[i];
        let skip = match exclude_id {
            Some(id) => id == p.id,
            None => false,
        };
        if !skip && p.is_alive {
            occupied.push((p.x, p.y));
            proof {
                let f = ps.take(i as int).filter(occupant(exclude_id));
                assert(f.push(ps[i as int]).map_values(cell_of()) == f.map_values(cell_of()).push((p.x, p.y)));
            }
        }
        i = i + 1;
    }
    proof {
        assert(ps.take(ps.len() as int) == ps);
    }
    occupied
}

// ---------------------------------------------------------------------------
// Looking and shooting along a row or column

/// Where a straight scan from a cell stops.
pub enum RayStop {
    /// The scan left the grid.
    Edge,
    /// The scan reached the wall at `(x, y)`.
    Wall { x: int, y: int },
    /// The scan reached the living player at `index`, `steps` cells away.
    Hit { index: int, steps: int },
}

/// Coordinate `k` steps from `s` along a unit delta.
pub open spec fn along(s: int, delta: int, k: int) -> int {
    if delta == 1 {
        s + k
    } else if delta == -1 {
        s - k
    } else {
        s
    }
}

/// Index of the first living player other than `self_id` in the cell,
/// searching from position `i` on.
pub open spec fn first_other_at(ps: Seq<PlayerState>, self_id: u32, cx: int, cy: int, i: int) -> Option<int>
    decreases ps.len() - i,
{
    if i < 0 || i >= ps.len() {
        None
    } else if stands_at(ps[i], self_id, cx, cy) {
        Some(i)
    } else {
        first_other_at(ps, self_id, cx, cy, i + 1)
    }
}

/// A bound past which a scan from `(sx, sy)` has surely left the grid.
pub open spec fn scan_bound(level: Level, sx: int, sy: int) -> int {
    sx + sy + level.width + level.height + 2
}

/// Where a scan from `(sx, sy)` in direction `dir` stops, looking at the
/// cells `k, k + 1, ...` steps away: at the edge of the grid, at a wall, or
/// at the first living player other than `self_id` in player order.
pub open spec fn ray_stop(level: Level, ps: Seq<PlayerState>, self_id: u32, sx: int, sy: int, dir: int, k: int) -> RayStop
    decreases scan_bound(level, sx, sy) - k,
{
    if k < 1 || k >= scan_bound(level, sx, sy) {
        RayStop::Edge
    } else {
        let cx = along(sx, dir_delta(dir).0, k);
        let cy = along(sy, dir_delta(dir).1, k);
        if cx < 0 || cx >= level.width || cy < 0 || cy >= level.height {
            RayStop::Edge
        } else if level.wall(cx, cy) {
            RayStop::Wall { x: cx, y: cy }
        } else {
            match first_other_at(ps, self_id, cx, cy, 0) {
                Some(i) => RayStop::Hit { index: i, steps: k },
                None => ray_stop(level, ps, self_id, sx, sy, dir, k + 1),
            }
        }
    }
}

/// The cell `k` steps from `(sx, sy)` in direction `dir`, when it lies in
/// a `w` x `h` grid.
pub(crate) fn step_cell(sx: usize, sy: usize, dir: usize, k: usize, w: usize, h: usize) -> (cell: Option<(usize, usize)>)
    requires
        dir < 4,
    ensures
        ({
            let cx = along(sx as int, dir_delta(dir as int).0, k as int);
            let cy = along(sy as int, dir_delta(dir as int).1, k as int);
            if 0 <= cx < w && 0 <= cy < h {
                cell == Some((cx as usize, cy as usize))
            } else {
                cell is None
            }
        }),
{
    if dir == 0 {
        if sy < h && sx < w && k < w - sx {
            Some((sx + k, sy))
        } else {
            None
        }
    } else if dir == 1 {
        if sx < w && sy < h && k < h - sy {
            Some((sx, sy + k))
        } else {
            None
        }
    } else if dir == 2 {
        if sy < h && k <= sx && sx - k < w {
            Some((sx - k, sy))
        } else {
            None
        }
    } else {
        if sx < w && k <= sy && sy - k < h {
            Some((sx, sy - k))
        } else {
            None
        }
    }
}

/// The first living player other than `self_id` standing in the cell.
fn first_other_in_cell(players: &Vec<PlayerState>, self_id: u32, cx: usize, cy: usize) -> (found: Option<
    usize,
>)
    ensures
        match first_other_at(players@, self_id, cx as int, cy as int, 0) {
            Some(i) => found == Some(i as usize),
            None => found is None,
        },
{
    let mut i: usize = 0;
    while i < players.len()
        invariant
            i <= players@.len(),
            first_other_at(players@, self_id, cx as int, cy as int, 0) == first_other_at(
                players@,
                self_id,
                cx as int,
                cy as int,
                i as int,
            ),
        decreases players@.len() - i,
    {
        let p = &players[i];
        if p.id != self_id && p.is_alive && p.x == cx && p.y == cy {
            return Some(i);
        }
        i = i + 1;
    }
    None
}

/// Scans from `(sx, sy)` in direction `dir`, from one step away, until the
/// scan stops; returns where.
fn scan(players: &Vec<PlayerState>, level: &Level, self_id: u32, sx: usize, sy: usize, dir: usize) -> (stop: (
    u8,
    usize,
    usize,
    usize,
))
    requires
        dir < 4,
        level.wf(),
    ensures
        match ray_stop(*level, players@, self_id, sx as int, sy as int, dir as int, 1) {
            RayStop::Edge => stop.0 == 0,
            RayStop::Wall { x, y } => stop.0 == 1 && stop.1 == x && stop.2 == y,
            RayStop::Hit { index, steps } => stop.0 == 2 && stop.3 == index && stop.1 == steps,
        },
{
    let w = level.width;
    let h = level.height;
    let n = level.cells.len();
    let np = players.len();
    let mut steps: usize = 1;
    loop
        invariant
            n == w * h,
            np == players@.len(),
            dir < 4,
            level.wf(),
            w == level.width,
            h == level.height,
            1 <= steps <= scan_bound(*level, sx as int, sy as int),
            ray_stop(*level, players@, self_id, sx as int, sy as int, dir as int, 1) == ray_stop(
                *level,
                players@,
                self_id,
                sx as int,
                sy as int,
                dir as int,
                steps as int,
            ),
        decreases scan_bound(*level, sx as int, sy as int) - steps,
    {
        match step_cell(sx, sy, dir, steps, w, h) {
            None => {
                return (0, 0, 0, 0);
            },
            Some((cx, cy)) => {
                proof {
                    let ax = along(sx as int, dir_delta(dir as int).0, steps as int);
                    let ay = along(sy as int, dir_delta(dir as int).1, steps as int);
                    assert(0 <= ax < w && 0 <= ay < h);
                    if dir == 0 {
                        assert(ax == sx + steps);
                    } else if dir == 1 {
                        assert(ay == sy + steps);
                    } else if dir == 2 {
                        assert(ax == sx - steps);
                    } else {
                        assert(ay == sy - steps);
                    }
                }
                assert(steps < scan_bound(*level, sx as int, sy as int));
                proof {
                    vstd::arithmetic::mul::lemma_mul_inequality(cy as int + 1, h as int, w as int);
                    vstd::arithmetic::mul::lemma_mul_is_distributive_add_other_way(w as int, cy as int, 1);
                    vstd::arithmetic::mul::lemma_mul_is_commutative(w as int, h as int);
                }
                if level.cells[cy * w + cx] {
                    return (1, cx, cy, 0);
                }
                match first_other_in_cell(players, self_id, cx, cy) {
                    Some(i) => {
                        proof {
                            lemma_first_other_at_found(players@, self_id, cx as int, cy as int, 0);
                            let ax = along(sx as int, dir_delta(dir as int).0, steps as int);
                            let ay = along(sy as int, dir_delta(dir as int).1, steps as int);
                            assert(ax == cx && ay == cy);
                            assert(!level.wall(ax, ay));
                            assert(first_other_at(players@, self_id, ax, ay, 0) == Some(i as int));
                            assert(ray_stop(*level, players@, self_id, sx as int, sy as int, dir as int, steps as int)
                                == RayStop::Hit { index: i as int, steps: steps as int });
                        }
                        return (2, steps, 0, i);
                    },
                    None => {},
                }
                if steps == usize::MAX {
                    // Only a scan from the far end of the coordinate range
                    // gets here; its next cell lies before column or row 0.
                    assert(ray_stop(*level, players@, self_id, sx as int, sy as int, dir as int, steps + 1) == RayStop::Edge);
                    return (0, 0, 0, 0);
                }
                steps = steps + 1;
            },
        }
    }
}

/// Looks from the cell `(sx, sy)` in direction `dir_idx`: the id of the
/// first living player in sight and how many cells away it stands, or
/// `None` and 999 when a wall or the edge of the grid comes first.
pub fn check_line_of_sight(
    self_id: u32,
    sx: usize,
    sy: usize,
    dir_idx: usize,
    players: &Vec<PlayerState>,
    level: &Level,
) -> (seen: (Option<u32>, usize))
    requires
        dir_idx < 4,
        level.wf(),
    ensures
        match ray_stop(*level, players@, self_id, sx as int, sy as int, dir_idx as int, 1) {
            RayStop::Hit { index, steps } => seen == (Some(players@[index].id), steps as usize),
            _ => seen == (None::<u32>, 999usize),
        },
{
    let stop = scan(players, level, self_id, sx, sy, dir_idx);
    if stop.0 == 2 {
        proof {
            lemma_ray_hit_valid(*level, players@, self_id, sx as int, sy as int, dir_idx as int, 1);
        }
        (Some(players[stop.3].id), stop.1)
    } else {
        (None, 999)
    }
}

proof fn lemma_first_other_at_found(ps: Seq<PlayerState>, self_id: u32, cx: int, cy: int, i: int)
    ensures
        first_other_at(ps, self_id, cx, cy, i) matches Some(j) ==> i <= j < ps.len() && stands_at(
            ps[j],
            self_id,
            cx,
            cy,
        ),
    decreases ps.len() - i,
{
    if 0 <= i < ps.len() && !stands_at(ps[i], self_id, cx, cy) {
        lemma_first_other_at_found(ps, self_id, cx, cy, i + 1);
    }
}

/// A scan that stops at a player stops at a living player other than
/// `self_id`, at least `k` steps away.
pub proof fn lemma_ray_hit_valid(level: Level, ps: Seq<PlayerState>, self_id: u32, sx: int, sy: int, dir: int, k: int)
    ensures
        ray_stop(level, ps, self_id, sx, sy, dir, k) matches RayStop::Hit { index, steps } ==> 0
            <= index < ps.len() && steps >= k && stands_at(
            ps[index],
            self_id,
            along(sx, dir_delta(dir).0, steps),
            along(sy, dir_delta(dir).1, steps),
        ),
    decreases scan_bound(level, sx, sy) - k,
{
    if k >= 1 && k < scan_bound(level, sx, sy) {
        let cx = along(sx, dir_delta(dir).0, k);
        let cy = along(sy, dir_delta(dir).1, k);
        lemma_first_other_at_found(ps, self_id, cx, cy, 0);
        lemma_ray_hit_valid(level, ps, self_id, sx, sy, dir, k + 1);
    }
}


// ---------------------------------------------------------------------------
// Shooting

/// Where a scan by the player at `si` along its facing stops.
pub open spec fn shot_stop(level: Level, ps: Seq<PlayerState>, si: int) -> RayStop {
    ray_stop(level, ps, ps[si].id, ps[si].x as int, ps[si].y as int, ps[si].dir_idx as int, 1)
}

/// The beam of a shot by `shooter` that stopped at `stop`.
pub open spec fn beam(shooter: PlayerState, stop: RayStop, ps: Seq<PlayerState>) -> LaserEffect {
    match stop {
        RayStop::Edge => LaserEffect {
            from_x: shooter.x,
            from_y: shooter.y,
            to_x: shooter.x,
            to_y: shooter.y,
            at_wall: false,
            dir_idx: shooter.dir_idx,
            ticks_left: LASER_TICKS,
        },
        RayStop::Wall { x, y } => LaserEffect {
            from_x: shooter.x,
            from_y: shooter.y,
            to_x: x as usize,
            to_y: y as usize,
            at_wall: true,
            dir_idx: shooter.dir_idx,
            ticks_left: LASER_TICKS,
        },
        RayStop::Hit { index, steps } => LaserEffect {
            from_x: shooter.x,
            from_y: shooter.y,
            to_x: ps[index].x,
            to_y: ps[index].y,
            at_wall: false,
            dir_idx: shooter.dir_idx,
            ticks_left: LASER_TICKS,
        },
    }
}

/// A hit takes the target's health to zero or below.
pub open spec fn lethal(t: PlayerState) -> bool {
    t.health.wrapping_sub(LASER_DAMAGE) <= 0
}

/// The target after a laser hit: it loses `LASER_DAMAGE` health, and when
/// that leaves none, it dies with health 0, one more death, and waits
/// `RESPAWN_TICKS` to respawn.
pub open spec fn damaged(t: PlayerState) -> PlayerState {
    if lethal(t) {
        PlayerState {
            health: 0,
            is_alive: false,
            respawn_ticks: RESPAWN_TICKS,
            deaths: t.deaths.wrapping_add(1),
            ..t
        }
    } else {
        PlayerState { health: t.health.wrapping_sub(LASER_DAMAGE), ..t }
    }
}

/// The players after the one at `si` hits the one at `ti`: the target is
/// damaged, and a kill scores one point for the shooter.
pub open spec fn after_hit(ps: Seq<PlayerState>, si: int, ti: int) -> Seq<PlayerState> {
    let ps1 = ps.update(ti, damaged(ps[ti]));
    if lethal(ps[ti]) {
        ps1.update(si, PlayerState { score: ps1[si].score.wrapping_add(1), ..ps1[si] })
    } else {
        ps1
    }
}

/// The outcome of the player `shooter_id` firing: when it is alive, its
/// beam is added and the scan's target, if any, is hit, the result naming
/// shooter and victim when the hit kills; otherwise nothing changes.
pub open spec fn fired(
    level: Level,
    ps: Seq<PlayerState>,
    ls: Seq<LaserEffect>,
    shooter_id: u32,
    ps2: Seq<PlayerState>,
    ls2: Seq<LaserEffect>,
    kill: Option<(u32, u32)>,
) -> bool {
    let si = index_of(ps, shooter_id);
    if si >= 0 && ps[si].is_alive {
        let stop = shot_stop(level, ps, si);
        &&& ls2 == ls.push(beam(ps[si], stop, ps))
        &&& match stop {
            RayStop::Hit { index, steps } => {
                &&& ps2 == after_hit(ps, si, index)
                &&& kill == if lethal(ps[index]) {
                    Some((shooter_id, ps[index].id))
                } else {
                    None
                }
            },
            _ => ps2 == ps && kill is None,
        }
    } else {
        &&& ps2 == ps
        &&& ls2 == ls
        &&& kill is None
    }
}

/// A hit keeps the ids unique and the directions valid.
pub proof fn lemma_after_hit_keeps_valid(ps: Seq<PlayerState>, si: int, ti: int)
    requires
        ids_unique(ps),
        dirs_valid(ps),
        0 <= si < ps.len(),
        0 <= ti < ps.len(),
    ensures
        ids_unique(after_hit(ps, si, ti)),
        dirs_valid(after_hit(ps, si, ti)),
{
    lemma_update_keeps_valid(ps, ti, damaged(ps[ti]));
    let ps1 = ps.update(ti, damaged(ps[ti]));
    if lethal(ps[ti]) {
        lemma_update_keeps_valid(ps1, si, PlayerState { score: ps1[si].score.wrapping_add(1), ..ps1[si] });
    }
}

/// The player `shooter_id` fires along its facing, if it is alive: the
/// beam is added to `lasers`, and the first living player in line, unless
/// a wall or the edge of the grid comes first, is hit. Returns the
/// shooter's and the victim's id when the hit kills.
pub fn fire_laser(shooter_id: u32, players: &mut Vec<PlayerState>, level: &Level, lasers: &mut Vec<LaserEffect>) -> (kill:
    Option<(u32, u32)>)
    requires
        level.wf(),
        ids_unique(old(players)@),
        dirs_valid(old(players)@),
    ensures
        fired(*level, old(players)@, old(lasers)@, shooter_id, final(players)@, final(lasers)@, kill),
        ids_unique(final(players)@),
        dirs_valid(final(players)@),
{
    let ghost ps = players@;
    let si = match find_player(players, shooter_id) {
        None => {
            return None;
        },
        Some(i) => i,
    };
    proof {
        lemma_index_of(ps, shooter_id, si as int);
    }
    if !players[si].is_alive {
        return None;
    }
    let sx = players[si].x;
    let sy = players[si].y;
    let dir = players[si].dir_idx;
    let stop = scan(players, level, shooter_id, sx, sy, dir);
    proof {
        lemma_ray_hit_valid(*level, ps, shooter_id, sx as int, sy as int, dir as int, 1);
    }
    let laser = if stop.0 == 0 {
        LaserEffect { from_x: sx, from_y: sy, to_x: sx, to_y: sy, at_wall: false, dir_idx: dir, ticks_left: LASER_TICKS }
    } else if stop.0 == 1 {
        LaserEffect {
            from_x: sx,
            from_y: sy,
            to_x: stop.1,
            to_y: stop.2,
            at_wall: true,
            dir_idx: dir,
            ticks_left: LASER_TICKS,
        }
    } else {
        LaserEffect {
            from_x: sx,
            from_y: sy,
            to_x: players[stop.3].x,
            to_y: players[stop.3].y,
            at_wall: false,
            dir_idx: dir,
            ticks_left: LASER_TICKS,
        }
    };
    lasers.push(laser);
    if stop.0 == 2 {
        let ti = stop.3;
        let victim = players[ti].id;
        let hp = players[ti].health.wrapping_sub(LASER_DAMAGE);
        if hp <= 0 {
            players[ti].health = 0;
            players[ti].is_alive = false;
            players[ti].respawn_ticks = RESPAWN_TICKS;
            players[ti].deaths = players[ti].deaths.wrapping_add(1);
            players[si].score = players[si].score.wrapping_add(1);
            proof {
                assert(players@ =~= after_hit(ps, si as int, ti as int));
                lemma_after_hit_keeps_valid(ps, si as int, ti as int);
            }
            return Some((shooter_id, victim));
        } else {
            players[ti].health = hp;
            proof {
                assert(players@ =~= after_hit(ps, si as int, ti as int));
                lemma_after_hit_keeps_valid(ps, si as int, ti as int);
            }
        }
    }
    None
}

// ---------------------------------------------------------------------------
// Spawning

/// The cell lies in the grid and is not a wall.
pub open spec fn open_cell(level: Level, c: int, r: int) -> bool {
    0 <= c < level.width && 0 <= r < level.height && !level.wall(c, r)
}

/// The cell is open and not listed as occupied.
pub open spec fn free_cell(level: Level, occupied: Seq<(usize, usize)>, c: int, r: int) -> bool {
    open_cell(level, c, r) && !occupied.contains((c as usize, r as usize))
}

/// The cell is the first open one in row-major order.
pub open spec fn first_open_cell(level: Level, c: int, r: int) -> bool {
    &&& open_cell(level, c, r)
    &&& forall|c2: int, r2: int| #[trigger] open_cell(level, c2, r2) ==> r < r2 || (r == r2 && c <= c2)
}

/// A spawn cell for the occupancy: any free cell when there is one;
/// otherwise the first open cell; and `(1, 1)` on a grid of walls.
pub open spec fn valid_spawn(level: Level, occupied: Seq<(usize, usize)>, cell: (usize, usize)) -> bool {
    if exists|c: int, r: int| free_cell(level, occupied, c, r) {
        free_cell(level, occupied, cell.0 as int, cell.1 as int)
    } else if exists|c: int, r: int| open_cell(level, c, r) {
        first_open_cell(level, cell.0 as int, cell.1 as int)
    } else {
        cell == (1usize, 1usize)
    }
}

fn cell_listed(cells: &Vec<(usize, usize)>, c: usize, r: usize) -> (listed: bool)
    ensures
        listed == cells@.contains((c, r)),
{
    let mut i: usize = 0;
    while i < cells.len()
        invariant
            i <= cells@.len(),
            forall|j: int| 0 <= j < i ==> cells@[j] != (c, r),
        decreases cells@.len() - i,
    {
        if cells[i].0 == c && cells[i].1 == r {
            assert(cells@[i as int] == (c, r));
            return true;
        }
        i = i + 1;
    }
    false
}

/// A random free cell of the level; when every open cell is occupied, the
/// first open cell; and `(1, 1)` when the level has no open cell.
pub fn find_random_spawn(level: &Level, occupied: &Vec<(usize, usize)>) -> (cell: (usize, usize))
    requires
        level.wf(),
    ensures
        valid_spawn(*level, occupied@, cell),
{
    let w = level.width;
    let h = level.height;
    let n = level.cells.len();
    let mut empty_cells: Vec<(usize, usize)> = Vec::new();
    let mut r: usize = 0;
    while r < h
        invariant
            w == level.width,
            h == level.height,
            n == w * h,
            level.wf(),
            r <= h,
            forall|k: int| 0 <= k < empty_cells@.len() ==> free_cell(*level, occupied@, (#[trigger] empty_cells@[k]).0 as int, empty_cells@[k].1 as int),
            forall|c2: int, r2: int| 0 <= r2 < r && #[trigger] free_cell(*level, occupied@, c2, r2) ==> empty_cells@.contains((c2 as usize, r2 as usize)),
        decreases h - r,
    {
        let mut c: usize = 0;
        while c < w
            invariant
                w == level.width,
                h == level.height,
                n == w * h,
                level.wf(),
                r < h,
                c <= w,
                forall|k: int| 0 <= k < empty_cells@.len() ==> free_cell(*level, occupied@, (#[trigger] empty_cells@[k]).0 as int, empty_cells@[k].1 as int),
                forall|c2: int, r2: int| (0 <= r2 < r || (r2 == r && 0 <= c2 < c)) && #[trigger] free_cell(*level, occupied@, c2, r2) ==> empty_cells@.contains((c2 as usize, r2 as usize)),
            decreases w - c,
        {
            proof {
                crate::levels::lemma_cell_index(c as int, r as int, w as int, h as int);
            }
            if !level.cells[r * w + c] && !cell_listed(occupied, c, r) {
                let ghost before = empty_cells@;
                empty_cells.push((c, r));
                proof {
                    assert(empty_cells@[before.len() as int] == (c, r));
                    assert forall|c2: int, r2: int| (0 <= r2 < r || (r2 == r && 0 <= c2 < c + 1)) && #[trigger] free_cell(*level, occupied@, c2, r2) implies empty_cells@.contains((c2 as usize, r2 as usize)) by {
                        if r2 == r && c2 == c {
                        } else {
                            let k = choose|k: int| 0 <= k < before.len() && before[k] == (c2 as usize, r2 as usize);
                            assert(empty_cells@[k] == before[k]);
                        }
                    }
                }
            }
            c = c + 1;
        }
        r = r + 1;
    }
    if empty_cells.len() == 0 {
        proof {
            assert forall|c2: int, r2: int| !free_cell(*level, occupied@, c2, r2) by {
                if free_cell(*level, occupied@, c2, r2) {
                    assert(empty_cells@.contains((c2 as usize, r2 as usize)));
                }
            }
        }
        let mut r: usize = 0;
        while r < h
            invariant
                w == level.width,
                h == level.height,
                n == w * h,
                level.wf(),
                r <= h,
                forall|c2: int, r2: int| !#[trigger] free_cell(*level, occupied@, c2, r2),
                forall|c2: int, r2: int| 0 <= r2 < r ==> !#[trigger] open_cell(*level, c2, r2),
            decreases h - r,
        {
            let mut c: usize = 0;
            while c < w
                invariant
                    w == level.width,
                    h == level.height,
                    n == w * h,
                    level.wf(),
                    r < h,
                    c <= w,
                    forall|c2: int, r2: int| !#[trigger] free_cell(*level, occupied@, c2, r2),
                    forall|c2: int, r2: int| (0 <= r2 < r || (r2 == r && 0 <= c2 < c)) ==> !#[trigger] open_cell(*level, c2, r2),
                decreases w - c,
            {
                proof {
                    crate::levels::lemma_cell_index(c as int, r as int, w as int, h as int);
                }
                if !level.cells[r * w + c] {
                    proof {
                        assert(open_cell(*level, c as int, r as int));
                        assert forall|c2: int, r2: int| #[trigger] open_cell(*level, c2, r2) implies r < r2 || (r == r2 && c <= c2) by {
                            if r2 < r || (r2 == r && c2 < c) {
                                assert(!open_cell(*level, c2, r2));
                            }
                        }
                    }
                    return (c, r);
                }
                c = c + 1;
            }
            r = r + 1;
        }
        proof {
            assert forall|c2: int, r2: int| !open_cell(*level, c2, r2) by {
                if 0 <= r2 < h {
                    assert(!open_cell(*level, c2, r2));
                }
            }
        }
        return (1, 1);
    }
    let picked = choose_cell(&empty_cells).unwrap();
    proof {
        let k = choose|k: int| 0 <= k < empty_cells@.len() && empty_cells@[k] == picked;
        assert(free_cell(*level, occupied@, empty_cells@[k].0 as int, empty_cells@[k].1 as int));
    }
    picked
}

/// The player moved to `cell`, alive, with full health.
pub open spec fn spawned(p: PlayerState, cell: (usize, usize)) -> PlayerState {
    PlayerState { x: cell.0, y: cell.1, health: FULL_HEALTH, is_alive: true, ..p }
}

/// `after` is `before` respawned in order: each player alive with full
/// health in a spawn cell that avoids the cells of the players before it.
pub open spec fn respawned_all(level: Level, before: Seq<PlayerState>, after: Seq<PlayerState>) -> bool {
    &&& after.len() == before.len()
    &&& forall|i: int|
        0 <= i < after.len() ==> {
            let cell = (after[i].x, after[i].y);
            &&& #[trigger] after[i] == spawned(before[i], cell)
            &&& valid_spawn(level, after.take(i).map_values(cell_of()), cell)
        }
}

/// Respawns every player in order, each in a random free cell that the
/// players before it were not put on, with full health.
pub fn reset_all_positions(players: &mut Vec<PlayerState>, level: &Level)
    requires
        level.wf(),
    ensures
        respawned_all(*level, old(players)@, final(players)@),
{
    let ghost ps = players@;
    let mut occupied: Vec<(usize, usize)> = Vec::new();
    let mut i: usize = 0;
    while i < players.len()
        invariant
            level.wf(),
            players@.len() == ps.len(),
            i <= ps.len(),
            occupied@ == players@.take(i as int).map_values(cell_of()),
            forall|j: int| i <= j < ps.len() ==> #[trigger] players@[j] == ps[j],
            forall|j: int|
                0 <= j < i ==> {
                    let cell = (players@[j].x, players@[j].y);
                    &&& #[trigger] players@[j] == spawned(ps[j], cell)
                    &&& valid_spawn(*level, players@.take(j).map_values(cell_of()), cell)
                },
        decreases ps.len() - i,
    {
        let (sx, sy) = find_random_spawn(level, &occupied);
        let ghost before = players@;
        players[i].x = sx;
        players[i].y = sy;
        players[i].health = FULL_HEALTH;
        players[i].is_alive = true;
        proof {
            assert(players@ == before.update(i as int, spawned(ps[i as int], (sx, sy))));
            assert forall|j: int| 0 <= j <= i implies players@.take(j) == before.take(j) by {
                assert(players@.take(j) =~= before.take(j));
            }
            assert(players@.take(i + 1).map_values(cell_of()) =~= occupied@.push((sx, sy)));
        }
        occupied.push((sx, sy));
        i = i + 1;
    }
}

} // verus!
