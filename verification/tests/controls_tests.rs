use mp::controls::{frame_commands, link_step, FrameView, Keys, LinkEvent, LinkPhase, LinkStep};
use mp::launcher::{trim_text, white_space};
use mp::protocol::{ClientMessage, MatchState, PlayerAction};

fn no_keys() -> Keys {
    Keys {
        forward: false,
        backward: false,
        turn_left: false,
        turn_right: false,
        shoot: false,
        start: false,
        toggle_bots: false,
        edit: false,
        level: None,
    }
}

fn event(since_join: u64, since_heartbeat: u64) -> LinkEvent {
    LinkEvent { escaped: false, launched: false, rejected: false, welcomed: false, since_join, since_heartbeat }
}

fn kinds(msgs: &[ClientMessage]) -> Vec<String> {
    msgs.iter().map(|m| format!("{:?}", m)).collect()
}

#[test]
fn the_launcher_hands_over_to_joining() {
    let step = link_step(LinkPhase::Launcher, LinkEvent { launched: true, ..event(0, 0) });
    assert_eq!(step, LinkStep { phase: LinkPhase::Joining, send_join: false, send_heartbeat: false, send_leave: false, quit: false });
    assert_eq!(link_step(LinkPhase::Launcher, event(0, 0)).phase, LinkPhase::Launcher);
}

#[test]
fn joining_resends_join_every_half_second() {
    assert!(!link_step(LinkPhase::Joining, event(500_000_000, 0)).send_join);
    assert!(link_step(LinkPhase::Joining, event(500_000_001, 0)).send_join);
    assert_eq!(link_step(LinkPhase::Joining, event(0, 0)).phase, LinkPhase::Joining);
}

#[test]
fn a_refusal_wins_over_a_welcome() {
    let both = LinkEvent { rejected: true, welcomed: true, ..event(0, 0) };
    assert_eq!(link_step(LinkPhase::Joining, both).phase, LinkPhase::Rejected);
    let welcome = LinkEvent { welcomed: true, ..event(0, 0) };
    assert_eq!(link_step(LinkPhase::Joining, welcome).phase, LinkPhase::Playing);
    assert_eq!(link_step(LinkPhase::Rejected, welcome).phase, LinkPhase::Rejected);
}

#[test]
fn playing_sends_a_heartbeat_every_second() {
    assert!(!link_step(LinkPhase::Playing, event(0, 1_000_000_000)).send_heartbeat);
    assert!(link_step(LinkPhase::Playing, event(0, 1_000_000_001)).send_heartbeat);
}

#[test]
fn a_living_player_moves_and_shoots() {
    let view = FrameView { match_state: MatchState::Playing, is_host: false, edit_mode: false, alive: true };
    let keys = Keys { forward: true, turn_left: true, shoot: true, ..no_keys() };
    let (msgs, edit) = frame_commands(view, keys);
    assert!(!edit);
    assert_eq!(msgs.len(), 2);
    assert!(matches!(msgs[0], ClientMessage::Input { action: PlayerAction::MoveForward }));
    assert!(matches!(msgs[1], ClientMessage::Shoot));
    let dead = FrameView { alive: false, ..view };
    assert!(frame_commands(dead, keys).0.is_empty());
}

#[test]
fn the_host_starts_or_toggles_in_the_lobby() {
    let host = FrameView { match_state: MatchState::Lobby, is_host: true, edit_mode: false, alive: false };
    let (msgs, _) = frame_commands(host, Keys { start: true, toggle_bots: true, ..no_keys() });
    assert_eq!(kinds(&msgs), vec!["StartGame".to_string()]);
    let (msgs, _) = frame_commands(host, Keys { toggle_bots: true, level: Some(2), ..no_keys() });
    assert_eq!(kinds(&msgs), vec!["ToggleBots".to_string(), "RequestLevel { level_idx: 2 }".to_string()]);
    let guest = FrameView { is_host: false, ..host };
    assert!(frame_commands(guest, Keys { start: true, level: Some(1), edit: true, ..no_keys() }).0.is_empty());
    assert!(!frame_commands(guest, Keys { edit: true, ..no_keys() }).1);
}

#[test]
fn the_editor_silences_commands() {
    let host = FrameView { match_state: MatchState::Lobby, is_host: true, edit_mode: false, alive: false };
    let (msgs, edit) = frame_commands(host, Keys { edit: true, level: Some(1), ..no_keys() });
    assert!(edit);
    assert!(msgs.is_empty());
    let editing = FrameView { edit_mode: true, ..host };
    let (msgs, edit) = frame_commands(editing, Keys { edit: true, level: Some(1), start: true, ..no_keys() });
    assert!(!edit);
    assert_eq!(kinds(&msgs), vec!["RequestLevel { level_idx: 1 }".to_string()]);
}

#[test]
fn unicode_white_space_is_trimmed() {
    assert!(white_space('\u{3000}') && white_space('\u{85}') && white_space('\u{2009}'));
    assert!(!white_space('\u{200b}') && !white_space('x'));
    assert_eq!(trim_text("\u{3000}\u{a0}name\u{2028}"), "name");
    assert_eq!(trim_text("\u{200b}name"), "\u{200b}name");
}

#[test]
fn escape_leaves_the_match_or_closes_the_launcher() {
    let esc = LinkEvent { escaped: true, welcomed: true, ..event(2_000_000_000, 2_000_000_000) };
    for phase in [LinkPhase::Joining, LinkPhase::Playing, LinkPhase::Rejected] {
        assert_eq!(
            link_step(phase, esc),
            LinkStep { phase: LinkPhase::Launcher, send_join: false, send_heartbeat: false, send_leave: true, quit: false }
        );
    }
    let step = link_step(LinkPhase::Launcher, esc);
    assert!(step.quit && !step.send_leave);
}
