use mp::game::{dir_coords, find_player, remove_bots, remove_player, upsert_player, LaserEffect, PlayerState, LASER_TICKS, RESPAWN_TICKS};
use mp::physics::{
    cell_occupied_by_other, check_line_of_sight, fire_laser, find_random_spawn, occupied_cells,
    reset_all_positions,
};
use mp::{get_static_level, parse_map_str};

fn player(id: u32, x: usize, y: usize, dir_idx: usize) -> PlayerState {
    PlayerState {
        id,
        name: format!("P{}", id),
        x,
        y,
        dir_idx,
        score: 0,
        deaths: 0,
        health: 100,
        is_alive: true,
        is_bot: false,
        respawn_ticks: 0,
    }
}

#[test]
fn direction_steps() {
    assert_eq!(dir_coords(0), (1, 0));
    assert_eq!(dir_coords(1), (0, 1));
    assert_eq!(dir_coords(2), (-1, 0));
    assert_eq!(dir_coords(3), (0, -1));
}

#[test]
fn occupancy_ignores_self_and_the_dead() {
    let mut dead = player(3, 4, 4, 0);
    dead.is_alive = false;
    let players = vec![player(1, 2, 2, 0), player(2, 3, 2, 0), dead];
    assert!(!cell_occupied_by_other(&players, 1, 2, 2));
    assert!(cell_occupied_by_other(&players, 1, 3, 2));
    assert!(!cell_occupied_by_other(&players, 1, 4, 4));
    assert!(!cell_occupied_by_other(&players, 1, -1, 2));
    assert_eq!(occupied_cells(&players, None), vec![(2, 2), (3, 2)]);
    assert_eq!(occupied_cells(&players, Some(2)), vec![(2, 2)]);
}

#[test]
fn line_of_sight_finds_the_first_player_in_line() {
    let level = get_static_level(0);
    let players = vec![player(1, 1, 3, 0), player(2, 10, 3, 0), player(3, 6, 3, 0)];
    assert_eq!(check_line_of_sight(1, 1, 3, 0, &players, &level), (Some(3), 5));
    assert_eq!(check_line_of_sight(1, 1, 3, 2, &players, &level), (None, 999));
}

#[test]
fn line_of_sight_stops_at_walls() {
    let level = get_static_level(0);
    // (2, 2) is a wall on the simple map.
    let players = vec![player(1, 1, 2, 0), player(2, 5, 2, 0)];
    assert_eq!(check_line_of_sight(1, 1, 2, 0, &players, &level), (None, 999));
}

#[test]
fn line_of_sight_skips_dead_players() {
    let level = get_static_level(0);
    let mut dead = player(2, 3, 3, 0);
    dead.is_alive = false;
    let players = vec![player(1, 1, 3, 0), dead, player(3, 4, 3, 0)];
    assert_eq!(check_line_of_sight(1, 1, 3, 0, &players, &level), (Some(3), 3));
}

#[test]
fn three_hits_kill_a_fresh_player() {
    let level = get_static_level(0);
    let mut players = vec![player(1, 1, 3, 0), player(2, 4, 3, 2)];
    let mut lasers: Vec<LaserEffect> = Vec::new();
    assert_eq!(fire_laser(1, &mut players, &level, &mut lasers), None);
    assert_eq!(players[1].health, 65);
    assert_eq!(fire_laser(1, &mut players, &level, &mut lasers), None);
    assert_eq!(players[1].health, 30);
    assert_eq!(fire_laser(1, &mut players, &level, &mut lasers), Some((1, 2)));
    assert_eq!(players[1].health, 0);
    assert!(!players[1].is_alive);
    assert_eq!(players[1].deaths, 1);
    assert_eq!(players[1].respawn_ticks, RESPAWN_TICKS);
    assert_eq!(players[0].score, 1);
    assert_eq!(lasers.len(), 3);
    assert_eq!(
        lasers[0],
        LaserEffect { from_x: 1, from_y: 3, to_x: 4, to_y: 3, at_wall: false, dir_idx: 0, ticks_left: LASER_TICKS }
    );
}

#[test]
fn a_shot_into_a_wall_ends_on_the_wall() {
    let level = get_static_level(0);
    let mut players = vec![player(1, 1, 2, 0)];
    let mut lasers: Vec<LaserEffect> = Vec::new();
    assert_eq!(fire_laser(1, &mut players, &level, &mut lasers), None);
    assert_eq!(
        lasers,
        vec![LaserEffect { from_x: 1, from_y: 2, to_x: 2, to_y: 2, at_wall: true, dir_idx: 0, ticks_left: LASER_TICKS }]
    );
}

#[test]
fn a_shot_off_the_grid_stays_at_the_shooter() {
    let level = parse_map_str(3, 1, "   ");
    let mut players = vec![player(1, 1, 0, 3)];
    let mut lasers: Vec<LaserEffect> = Vec::new();
    assert_eq!(fire_laser(1, &mut players, &level, &mut lasers), None);
    assert_eq!(
        lasers,
        vec![LaserEffect { from_x: 1, from_y: 0, to_x: 1, to_y: 0, at_wall: false, dir_idx: 3, ticks_left: LASER_TICKS }]
    );
}

#[test]
fn the_dead_and_the_missing_cannot_shoot() {
    let level = get_static_level(0);
    let mut shooter = player(1, 1, 3, 0);
    shooter.is_alive = false;
    let mut players = vec![shooter, player(2, 4, 3, 2)];
    let mut lasers: Vec<LaserEffect> = Vec::new();
    assert_eq!(fire_laser(1, &mut players, &level, &mut lasers), None);
    assert_eq!(fire_laser(9, &mut players, &level, &mut lasers), None);
    assert!(lasers.is_empty());
    assert_eq!(players[1].health, 100);
}

#[test]
fn spawn_takes_the_only_free_cell() {
    let level = parse_map_str(3, 3, "###\n# #\n###");
    assert_eq!(find_random_spawn(&level, &Vec::new()), (1, 1));
    let level = parse_map_str(4, 1, "#  #");
    assert_eq!(find_random_spawn(&level, &vec![(1, 0)]), (2, 0));
}

#[test]
fn spawn_falls_back_to_the_first_open_cell() {
    let level = parse_map_str(4, 2, "####\n#  #");
    assert_eq!(find_random_spawn(&level, &vec![(1, 1), (2, 1)]), (1, 1));
}

#[test]
fn spawn_on_a_level_of_walls_is_one_one() {
    let level = parse_map_str(2, 2, "##\n##");
    assert_eq!(find_random_spawn(&level, &Vec::new()), (1, 1));
}

#[test]
fn spawn_avoids_walls_and_occupied_cells() {
    let level = get_static_level(0);
    let occupied = vec![(1, 1), (2, 1), (3, 1)];
    for _ in 0..50 {
        let (x, y) = find_random_spawn(&level, &occupied);
        assert!(!level.cells[y * level.width + x]);
        assert!(!occupied.contains(&(x, y)));
    }
}

#[test]
fn reset_puts_everyone_on_distinct_open_cells() {
    let level = get_static_level(1);
    let mut players = vec![player(1, 0, 0, 0), player(2, 0, 0, 1), player(3, 0, 0, 2)];
    players[1].is_alive = false;
    players[1].health = 0;
    reset_all_positions(&mut players, &level);
    for (i, p) in players.iter().enumerate() {
        assert!(p.is_alive);
        assert_eq!(p.health, 100);
        assert!(!level.cells[p.y * level.width + p.x]);
        for q in &players[..i] {
            assert!((q.x, q.y) != (p.x, p.y));
        }
    }
}

#[test]
fn player_list_operations() {
    let mut players = vec![player(1, 1, 1, 0), player(2, 2, 2, 0)];
    assert_eq!(find_player(&players, 2), Some(1));
    assert_eq!(find_player(&players, 5), None);
    let mut moved = player(2, 5, 5, 1);
    moved.score = 3;
    upsert_player(&mut players, moved);
    assert_eq!(players.len(), 2);
    assert_eq!((players[1].x, players[1].score), (5, 3));
    upsert_player(&mut players, player(7, 3, 3, 0));
    assert_eq!(players.len(), 3);
    remove_player(&mut players, 1);
    assert_eq!(players.iter().map(|p| p.id).collect::<Vec<u32>>(), vec![2, 7]);
    players[0].is_bot = true;
    remove_bots(&mut players);
    assert_eq!(players.iter().map(|p| p.id).collect::<Vec<u32>>(), vec![7]);
}
