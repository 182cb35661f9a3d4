use mp::game::{PlayerState, FULL_HEALTH, HEARTBEAT_TIMEOUT_NANOS, LASER_TICKS, MATCH_DURATION_NANOS, RESPAWN_TICKS, SHOOT_COOLDOWN_TICKS};
use mp::handlers::{
    handle_back_to_lobby, handle_client_message, handle_heartbeat, handle_input, handle_join, handle_leave,
    handle_request_level, handle_shoot, handle_start_game, handle_toggle_bots,
};
use mp::protocol::{ClientMessage, MatchState, PlayerAction};
use mp::server::{
    bot_name, count_humans, find_session, first_bot, make_bot, pick_next_host, spawn_replacement_bot, ClientAddr,
    LogLine, Reply, ServerEvent, ServerState, SERVER_FULL_REASON,
};
use mp::tick::{
    bot_ids, check_round_timer, clear_if_empty, decay, expire_sessions, respawn_players, round_time_left,
    server_tick,
};
use mp::get_static_level;
use mp::game::LaserEffect;

fn addr(port: u16) -> ClientAddr {
    ClientAddr { ip: 0x7f00_0001, is_v6: false, port }
}

fn server() -> ServerState {
    ServerState::new(get_static_level(0), 0)
}

fn join(state: &mut ServerState, port: u16, name: &str) -> Vec<ServerEvent> {
    handle_join(state, addr(port), &name.to_string(), 0)
}

fn welcome_of(events: &[ServerEvent]) -> Option<(u32, bool)> {
    match events.last() {
        Some(ServerEvent::Send { reply: Reply::Welcome { player_id, is_host }, .. }) => Some((*player_id, *is_host)),
        _ => None,
    }
}

fn player(id: u32, x: usize, y: usize, dir_idx: usize) -> PlayerState {
    PlayerState {
        id,
        name: format!("P{}", id),
        x,
        y,
        dir_idx,
        score: 0,
        deaths: 0,
        health: 100,
        is_alive: true,
        is_bot: false,
        respawn_ticks: 0,
    }
}

#[test]
fn a_new_server_is_an_empty_lobby() {
    let s = server();
    assert_eq!(s.match_state, MatchState::Lobby);
    assert!(s.sessions.is_empty() && s.players.is_empty() && s.lasers.is_empty());
    assert_eq!((s.next_player_id, s.tick_id, s.host_id), (1, 0, 0));
    assert!(s.bots_enabled);
    assert_eq!(s.round_start, None);
}

#[test]
fn the_first_joiner_becomes_host() {
    let mut s = server();
    let ev = join(&mut s, 1, "Alice");
    assert_eq!(welcome_of(&ev), Some((1, true)));
    assert_eq!(s.host_id, 1);
    assert!(matches!(&ev[0], ServerEvent::Log { line: LogLine::Joined { name, .. } } if name == "Alice"));
    assert!(matches!(&ev[1], ServerEvent::Log { line: LogLine::HostAssigned { id: 1 } }));
    let ev = join(&mut s, 2, "Bob");
    assert_eq!(welcome_of(&ev), Some((2, false)));
    assert_eq!(s.host_id, 1);
    assert_eq!(s.players.len(), 2);
    assert_eq!(s.next_player_id, 3);
    let p = &s.players[0];
    assert_eq!((p.dir_idx, p.health, p.is_alive, p.is_bot), (0, FULL_HEALTH, true, false));
    assert!(!s.level.cells[p.y * s.level.width + p.x]);
}

#[test]
fn a_repeated_join_keeps_the_same_id() {
    let mut s = server();
    join(&mut s, 1, "Alice");
    let ev = join(&mut s, 1, "Alice");
    assert_eq!(welcome_of(&ev), Some((1, true)));
    assert_eq!(ev.len(), 1);
    assert_eq!(s.sessions.len(), 1);
    assert_eq!(s.players.len(), 1);
    assert_eq!(s.next_player_id, 2);
}

#[test]
fn a_fifth_human_is_refused() {
    let mut s = server();
    for port in 1..5 {
        join(&mut s, port, "P");
    }
    let ev = join(&mut s, 9, "Late");
    assert_eq!(ev.len(), 2);
    assert!(matches!(&ev[0], ServerEvent::Send { reply: Reply::RejectFull, to } if *to == addr(9)));
    assert!(matches!(&ev[1], ServerEvent::Log { line: LogLine::Rejected { .. } }));
    assert_eq!(s.sessions.len(), 4);
    assert_eq!(SERVER_FULL_REASON, "Server Full (Max 4 Players)");
    // A known client is still welcomed.
    let ev = join(&mut s, 3, "P");
    assert_eq!(welcome_of(&ev), Some((3, false)));
}

#[test]
fn only_the_host_toggles_bots_and_twice_restores() {
    let mut s = server();
    join(&mut s, 1, "Host");
    join(&mut s, 2, "Guest");
    assert!(handle_toggle_bots(&mut s, addr(2)).is_empty());
    assert!(s.bots_enabled);
    let ev = handle_toggle_bots(&mut s, addr(1));
    assert!(matches!(&ev[0], ServerEvent::Log { line: LogLine::BotsToggled { enabled: false } }));
    assert!(!s.bots_enabled);
    handle_toggle_bots(&mut s, addr(1));
    assert!(s.bots_enabled);
}

#[test]
fn starting_a_round_fills_up_with_bots() {
    let mut s = server();
    join(&mut s, 1, "Host");
    let ev = handle_start_game(&mut s, addr(1), 1_000);
    assert_eq!(s.match_state, MatchState::Playing);
    assert_eq!(s.round_start, Some(1_000));
    assert_eq!(s.players.len(), 4);
    assert_eq!(count_humans(&s.players), 1);
    assert_eq!(s.players.iter().map(|p| p.id).collect::<Vec<u32>>(), vec![1, 1001, 1002, 1003]);
    assert_eq!(s.players[1].name, "RetroBot_1");
    assert_eq!(s.players[3].dir_idx, 3);
    assert!(matches!(&ev[0], ServerEvent::Log { line: LogLine::BotsSpawned { count: 3 } }));
    assert!(matches!(&ev[1], ServerEvent::Log { line: LogLine::MatchStarted }));
    for (i, p) in s.players.iter().enumerate() {
        for q in &s.players[..i] {
            assert!((q.x, q.y) != (p.x, p.y));
        }
    }
}

#[test]
fn a_round_without_bots_has_only_humans() {
    let mut s = server();
    join(&mut s, 1, "Host");
    handle_toggle_bots(&mut s, addr(1));
    let ev = handle_start_game(&mut s, addr(1), 0);
    assert_eq!(ev.len(), 1);
    assert_eq!(s.players.len(), 1);
}

#[test]
fn guests_cannot_start_or_change_the_level() {
    let mut s = server();
    join(&mut s, 1, "Host");
    join(&mut s, 2, "Guest");
    assert!(handle_start_game(&mut s, addr(2), 0).is_empty());
    assert_eq!(s.match_state, MatchState::Lobby);
    assert!(handle_request_level(&mut s, addr(2), 1, 0).is_empty());
    assert_eq!(s.level.width, 12);
    assert_eq!(s.level_index, 0);
}

#[test]
fn the_host_changes_the_level() {
    let mut s = server();
    join(&mut s, 1, "Host");
    let ev = handle_request_level(&mut s, addr(1), 2, 5);
    assert!(matches!(&ev[0], ServerEvent::BroadcastMap));
    assert_eq!((s.level.width, s.level_index), (21, 2));
    let p = &s.players[0];
    assert!(!s.level.cells[p.y * s.level.width + p.x]);
    let ev = handle_request_level(&mut s, addr(1), 3, 6);
    assert_eq!(ev.len(), 1);
    assert_eq!((s.level.width, s.level.height, s.level_index), (19, 19, 3));
}

#[test]
fn moves_turns_and_walls() {
    let mut s = server();
    join(&mut s, 1, "Host");
    handle_toggle_bots(&mut s, addr(1));
    handle_start_game(&mut s, addr(1), 0);
    s.players[0].x = 1;
    s.players[0].y = 3;
    s.players[0].dir_idx = 0;
    handle_input(&mut s, addr(1), PlayerAction::MoveForward, 7);
    assert_eq!((s.players[0].x, s.players[0].y), (2, 3));
    assert_eq!(s.sessions[0].last_packet, 7);
    handle_input(&mut s, addr(1), PlayerAction::MoveBackward, 8);
    handle_input(&mut s, addr(1), PlayerAction::MoveBackward, 8);
    // (0, 3) is a wall.
    assert_eq!((s.players[0].x, s.players[0].y), (1, 3));
    handle_input(&mut s, addr(1), PlayerAction::TurnLeft, 9);
    assert_eq!(s.players[0].dir_idx, 3);
    handle_input(&mut s, addr(1), PlayerAction::TurnRight, 9);
    handle_input(&mut s, addr(1), PlayerAction::TurnRight, 9);
    assert_eq!(s.players[0].dir_idx, 1);
}

#[test]
fn input_outside_a_round_is_ignored() {
    let mut s = server();
    join(&mut s, 1, "Host");
    let before = (s.players[0].x, s.players[0].y, s.players[0].dir_idx);
    handle_input(&mut s, addr(1), PlayerAction::TurnLeft, 3);
    assert_eq!((s.players[0].x, s.players[0].y, s.players[0].dir_idx), before);
    assert_eq!(s.sessions[0].last_packet, 0);
}

#[test]
fn shooting_has_a_cooldown() {
    let mut s = server();
    join(&mut s, 1, "A");
    join(&mut s, 2, "B");
    handle_toggle_bots(&mut s, addr(1));
    handle_start_game(&mut s, addr(1), 0);
    s.players[0].x = 1;
    s.players[0].y = 3;
    s.players[0].dir_idx = 0;
    s.players[1].x = 4;
    s.players[1].y = 3;
    assert!(handle_shoot(&mut s, addr(1), 1).is_empty());
    assert_eq!(s.players[1].health, 65);
    assert_eq!(s.sessions[0].shoot_cooldown, SHOOT_COOLDOWN_TICKS);
    handle_shoot(&mut s, addr(1), 2);
    assert_eq!(s.players[1].health, 65);
    for _ in 0..SHOOT_COOLDOWN_TICKS {
        decay(&mut s);
    }
    handle_shoot(&mut s, addr(1), 3);
    assert_eq!(s.players[1].health, 30);
    s.sessions[0].shoot_cooldown = 0;
    let ev = handle_shoot(&mut s, addr(1), 4);
    assert!(matches!(&ev[0], ServerEvent::Log { line: LogLine::Killed { killer: 1, victim: 2 } }));
    assert_eq!(s.players[0].score, 1);
    assert!(!s.players[1].is_alive);
}

#[test]
fn the_host_leaving_hands_over_and_a_bot_steps_in() {
    let mut s = server();
    join(&mut s, 1, "A");
    join(&mut s, 2, "B");
    handle_start_game(&mut s, addr(1), 0);
    assert_eq!(s.players.len(), 4);
    let ev = handle_leave(&mut s, addr(1));
    assert_eq!(s.host_id, 2);
    assert_eq!(s.sessions.len(), 1);
    assert!(matches!(&ev[0], ServerEvent::Log { line: LogLine::Left { name } } if name == "A"));
    assert!(matches!(&ev[1], ServerEvent::Log { line: LogLine::HostLeft { new_host: 2 } }));
    assert!(matches!(&ev[2], ServerEvent::Log { line: LogLine::ReplacementBot { id: 1003 } }));
    assert_eq!(s.players.len(), 4);
    assert_eq!(count_humans(&s.players), 1);
}

#[test]
fn a_join_during_a_round_takes_a_bots_place() {
    let mut s = server();
    join(&mut s, 1, "A");
    handle_start_game(&mut s, addr(1), 0);
    let ev = join(&mut s, 2, "B");
    assert!(matches!(&ev[1], ServerEvent::Log { line: LogLine::BotRemoved { id: 1001 } }));
    assert_eq!(s.players.len(), 4);
    assert_eq!(count_humans(&s.players), 2);
}

#[test]
fn back_to_lobby_after_the_round() {
    let mut s = server();
    join(&mut s, 1, "A");
    handle_start_game(&mut s, addr(1), 0);
    handle_back_to_lobby(&mut s, addr(1), 1);
    assert_eq!(s.match_state, MatchState::Playing);
    let ev = check_round_timer(&mut s, MATCH_DURATION_NANOS);
    assert!(matches!(&ev[0], ServerEvent::Log { line: LogLine::RoundOver }));
    assert_eq!(s.match_state, MatchState::GameOver);
    s.players[0].is_alive = false;
    handle_back_to_lobby(&mut s, addr(1), 2);
    assert_eq!(s.match_state, MatchState::Lobby);
    assert_eq!(s.players.len(), 1);
    assert!(s.players[0].is_alive);
    assert_eq!(s.round_start, None);
}

#[test]
fn a_level_request_after_the_round_starts_a_new_one() {
    let mut s = server();
    join(&mut s, 1, "A");
    handle_start_game(&mut s, addr(1), 0);
    check_round_timer(&mut s, MATCH_DURATION_NANOS + 1);
    s.players[0].score = 9;
    let ev = handle_request_level(&mut s, addr(1), 1, 500);
    assert_eq!(s.match_state, MatchState::Playing);
    assert_eq!(s.round_start, Some(500));
    assert_eq!(s.players[0].score, 0);
    assert!(matches!(ev.last(), Some(ServerEvent::BroadcastMap)));
}

#[test]
fn round_timer_and_time_left() {
    let mut s = server();
    join(&mut s, 1, "A");
    assert_eq!(round_time_left(&s, 10), 0);
    handle_start_game(&mut s, addr(1), 1_000);
    assert_eq!(round_time_left(&s, 1_000), MATCH_DURATION_NANOS);
    assert_eq!(round_time_left(&s, 1_500), MATCH_DURATION_NANOS - 500);
    assert_eq!(round_time_left(&s, 500), MATCH_DURATION_NANOS);
    assert!(check_round_timer(&mut s, MATCH_DURATION_NANOS + 999).is_empty());
    assert_eq!(s.match_state, MatchState::Playing);
    assert_eq!(check_round_timer(&mut s, MATCH_DURATION_NANOS + 1_000).len(), 1);
    assert_eq!(round_time_left(&s, MATCH_DURATION_NANOS + 1_000), 0);
}

#[test]
fn silent_clients_time_out() {
    let mut s = server();
    join(&mut s, 1, "A");
    join(&mut s, 2, "B");
    handle_heartbeat(&mut s, addr(2), 1_000);
    let ev = expire_sessions(&mut s, HEARTBEAT_TIMEOUT_NANOS);
    assert!(ev.is_empty());
    let ev = expire_sessions(&mut s, HEARTBEAT_TIMEOUT_NANOS + 1);
    assert!(matches!(&ev[0], ServerEvent::Log { line: LogLine::TimedOut { name } } if name == "A"));
    assert!(matches!(&ev[1], ServerEvent::Log { line: LogLine::HostTimedOut { new_host: 2 } }));
    assert_eq!(s.sessions.len(), 1);
    assert_eq!(find_session(&s.sessions, addr(2)), Some(0));
    assert_eq!(s.host_id, 2);
}

#[test]
fn an_empty_server_returns_to_the_lobby() {
    let mut s = server();
    join(&mut s, 1, "A");
    handle_toggle_bots(&mut s, addr(1));
    handle_toggle_bots(&mut s, addr(1));
    handle_start_game(&mut s, addr(1), 0);
    handle_leave(&mut s, addr(1));
    assert_eq!(s.players.len(), 3);
    clear_if_empty(&mut s);
    assert_eq!(s.match_state, MatchState::Lobby);
    assert!(s.players.is_empty());
    assert_eq!(s.host_id, 0);
    assert!(s.bots_enabled);
}

#[test]
fn lasers_fade_after_their_ticks() {
    let mut s = server();
    s.lasers.push(LaserEffect { from_x: 1, from_y: 1, to_x: 2, to_y: 1, at_wall: false, dir_idx: 0, ticks_left: LASER_TICKS });
    for _ in 0..LASER_TICKS - 1 {
        decay(&mut s);
    }
    assert_eq!(s.lasers.len(), 1);
    assert_eq!(s.lasers[0].ticks_left, 1);
    decay(&mut s);
    assert!(s.lasers.is_empty());
}

#[test]
fn the_dead_respawn_after_their_wait() {
    let level = get_static_level(0);
    let mut dead = player(2, 1, 1, 0);
    dead.is_alive = false;
    dead.health = 0;
    dead.respawn_ticks = RESPAWN_TICKS;
    let mut players = vec![player(1, 2, 1, 0), dead];
    for _ in 0..RESPAWN_TICKS - 1 {
        respawn_players(&mut players, &level);
        assert!(!players[1].is_alive);
    }
    assert_eq!(players[1].respawn_ticks, 1);
    respawn_players(&mut players, &level);
    assert!(players[1].is_alive);
    assert_eq!(players[1].health, FULL_HEALTH);
    assert!((players[1].x, players[1].y) != (2, 1));
}

#[test]
fn a_tick_counts_and_runs_bots() {
    let mut s = server();
    join(&mut s, 1, "A");
    handle_start_game(&mut s, addr(1), 0);
    let ev = server_tick(&mut s, 1);
    assert!(ev.is_empty());
    assert_eq!(s.tick_id, 1);
    assert_eq!(bot_ids(), vec![1001, 1002, 1003, 1004]);
    for id in 1001..1004u32 {
        assert!(s.bot_cooldowns.contains_key(&id) || !s.players.iter().any(|p| p.id == id && p.is_alive));
    }
    s.tick_id = u64::MAX;
    server_tick(&mut s, 2);
    assert_eq!(s.tick_id, 0);
}

#[test]
fn bots_helpers() {
    assert_eq!(bot_name(3), "RetroBot_3");
    let b = make_bot(2, (3, 4));
    assert_eq!((b.id, b.x, b.y, b.dir_idx, b.is_bot), (1002, 3, 4, 2, true));
    let level = get_static_level(0);
    let mut players = vec![player(1, 1, 1, 0), make_bot(1, (2, 1)), make_bot(2, (3, 1))];
    assert_eq!(first_bot(&players), Some(1));
    assert_eq!(pick_next_host(&players), 1);
    assert_eq!(spawn_replacement_bot(&mut players, &level), 1003);
    assert_eq!(players.len(), 4);
    assert_eq!(pick_next_host(&players[1..].to_vec()), 0);
}

#[test]
fn dispatch_ignores_custom_maps() {
    let mut s = server();
    join(&mut s, 1, "A");
    let ev = handle_client_message(&mut s, &ClientMessage::CustomMap { width: 2, height: 2, cells: vec![true; 4] }, addr(1), 3);
    assert!(ev.is_empty());
    assert_eq!(s.level.width, 12);
    let ev = handle_client_message(&mut s, &ClientMessage::Join { name: "B".to_string() }, addr(2), 3);
    assert_eq!(welcome_of(&ev), Some((2, false)));
}

#[test]
fn bots_never_share_a_cell_with_a_living_player() {
    let mut s = server();
    join(&mut s, 1, "A");
    handle_start_game(&mut s, addr(1), 0);
    for t in 1..300u64 {
        server_tick(&mut s, t);
        let living: Vec<(usize, usize)> = s.players.iter().filter(|p| p.is_alive).map(|p| (p.x, p.y)).collect();
        for (i, c) in living.iter().enumerate() {
            assert!(!living[..i].contains(c));
        }
    }
}
