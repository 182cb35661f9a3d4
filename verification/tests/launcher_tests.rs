use mp::editor::{clear_grid, paint_cell};
use mp::scoreboard::scoreboard_order;
use mp::launcher::{
    history_file_text, parse_history, trim_text, with_default_port, FocusedField, HistoryItem, LaunchError,
    LauncherState,
};

fn item(alias: &str, ip: &str) -> HistoryItem {
    HistoryItem { alias: alias.to_string(), ip: ip.to_string() }
}

fn pairs(items: &[HistoryItem]) -> Vec<(String, String)> {
    items.iter().map(|i| (i.alias.clone(), i.ip.clone())).collect()
}

#[test]
fn trimming_removes_outer_white_space() {
    assert_eq!(trim_text("  a b \t\n"), "a b");
    assert_eq!(trim_text("   "), "");
    assert_eq!(trim_text(""), "");
}

#[test]
fn history_lines_parse_into_entries() {
    let text = "Main = 10.0.0.1:10500\n\n  192.168.1.5:9000  \r\nbad=line=here\nhome=127.0.0.1:1\n";
    let items = parse_history(text);
    assert_eq!(
        pairs(&items),
        vec![
            ("Main".to_string(), "10.0.0.1:10500".to_string()),
            ("192.168.1.5:9000".to_string(), "192.168.1.5:9000".to_string()),
            ("bad=line=here".to_string(), "bad=line=here".to_string()),
            ("home".to_string(), "127.0.0.1:1".to_string()),
        ]
    );
}

#[test]
fn empty_history_text_has_no_entries() {
    assert!(parse_history("").is_empty());
    assert!(parse_history("\n \n").is_empty());
}

#[test]
fn a_line_with_only_an_equals_sign_is_an_empty_entry() {
    assert_eq!(pairs(&parse_history("=")), vec![(String::new(), String::new())]);
}

#[test]
fn history_text_writes_alias_equals_ip_lines() {
    let items = vec![item("Main", "1.2.3.4:5"), item("x", "y")];
    assert_eq!(history_file_text(&items), "Main=1.2.3.4:5\nx=y\n");
    assert_eq!(history_file_text(&Vec::new()), "");
}

#[test]
fn history_survives_a_write_and_a_read() {
    let items = vec![item("Main Server", "10.0.0.1:10500"), item("10.0.0.2:1", "10.0.0.2:1"), item("", "z")];
    assert_eq!(pairs(&parse_history(&history_file_text(&items))), pairs(&items));
}

#[test]
fn default_port_is_appended_when_missing() {
    assert_eq!(with_default_port("127.0.0.1"), "127.0.0.1:10500");
    assert_eq!(with_default_port("127.0.0.1:9"), "127.0.0.1:9");
    assert_eq!(with_default_port("::1"), "::1");
}

#[test]
fn saving_moves_the_address_to_the_top() {
    let mut s = LauncherState::new(vec![item("a", "1:1"), item("b", "2:2"), item("c", "1:1")]);
    s.save_to_history("1:1", "");
    assert_eq!(pairs(&s.history), vec![("1:1".to_string(), "1:1".to_string()), ("b".to_string(), "2:2".to_string())]);
    s.save_to_history("3:3", "three");
    assert_eq!(s.history[0].alias, "three");
    assert_eq!(s.history.len(), 3);
    assert_eq!(s.history_text(), "three=3:3\n1:1=1:1\nb=2:2\n");
}

#[test]
fn deleting_history_entries() {
    let mut s = LauncherState::new(vec![item("a", "1"), item("b", "2")]);
    assert!(!s.delete_from_history(2));
    assert_eq!(s.history.len(), 2);
    assert!(s.delete_from_history(0));
    assert_eq!(pairs(&s.history), vec![("b".to_string(), "2".to_string())]);
}

#[test]
fn tab_cycles_the_focus() {
    let mut s = LauncherState::new(Vec::new());
    assert_eq!(s.focused_field, FocusedField::Ip);
    s.cycle_focus();
    assert_eq!(s.focused_field, FocusedField::Username);
    s.cycle_focus();
    assert_eq!(s.focused_field, FocusedField::Alias);
    s.cycle_focus();
    assert_eq!(s.focused_field, FocusedField::Ip);
}

#[test]
fn typing_fills_the_focused_field_up_to_its_limit() {
    let mut s = LauncherState::new(Vec::new());
    for c in "127.0.0.1".chars() {
        s.type_char(c);
    }
    s.type_char('\n');
    s.type_char('é');
    assert_eq!(s.ip_input, "127.0.0.1");
    s.cycle_focus();
    for _ in 0..20 {
        s.type_char('n');
    }
    assert_eq!(s.username_input.len(), 16);
    s.cycle_focus();
    for _ in 0..25 {
        s.type_char(' ');
    }
    assert_eq!(s.alias_input.len(), 20);
    s.erase_char();
    assert_eq!(s.alias_input.len(), 19);
    assert_eq!(s.ip_input, "127.0.0.1");
}

#[test]
fn erasing_an_empty_field_does_nothing() {
    let mut s = LauncherState::new(Vec::new());
    s.erase_char();
    assert_eq!(s.ip_input, "");
}

#[test]
fn selecting_a_saved_server_fills_the_fields() {
    let mut s = LauncherState::new(vec![item("home", "127.0.0.1:10500")]);
    s.error_msg = Some(LaunchError::BadAddress);
    s.select_history(0);
    assert_eq!(s.ip_input, "127.0.0.1:10500");
    assert_eq!(s.alias_input, "home");
    assert_eq!(s.focused_field, FocusedField::Username);
    assert_eq!(s.error_msg, None);
}

#[test]
fn connecting_needs_a_name_and_an_address() {
    let mut s = LauncherState::new(Vec::new());
    s.ip_input = " 10.0.0.1 ".to_string();
    s.username_input = "   ".to_string();
    assert_eq!(s.connect_request(), None);
    assert_eq!(s.error_msg, Some(LaunchError::EmptyUsername));
    assert_eq!(LaunchError::EmptyUsername.message(), "Username cannot be empty!");
    s.username_input = " Sayed ".to_string();
    s.ip_input = " ".to_string();
    assert_eq!(s.connect_request(), None);
    assert_eq!(s.error_msg, Some(LaunchError::EmptyAddress));
    assert_eq!(LaunchError::EmptyAddress.message(), "IP Address cannot be empty!");
    assert_eq!(LaunchError::BadAddress.message(), "Invalid IP address formatting!");
    s.ip_input = " 10.0.0.1 ".to_string();
    s.alias_input = " lab ".to_string();
    assert_eq!(
        s.connect_request(),
        Some(("10.0.0.1:10500".to_string(), "Sayed".to_string(), "lab".to_string()))
    );
}

#[test]
fn painting_leaves_the_border_alone() {
    let mut cells = vec![false; 12];
    paint_cell(&mut cells, 4, 3, 1, 1, true);
    paint_cell(&mut cells, 4, 3, 0, 2, true);
    paint_cell(&mut cells, 4, 3, 1, 3, true);
    assert_eq!(cells.iter().filter(|c| **c).count(), 1);
    assert!(cells[5]);
    paint_cell(&mut cells, 4, 3, 1, 1, false);
    assert!(!cells[5]);
}

#[test]
fn clearing_walls_the_border_only() {
    let mut cells = vec![true; 14];
    clear_grid(&mut cells, 4, 3);
    assert_eq!(
        cells,
        vec![true, true, true, true, true, false, false, true, true, true, true, true, true, true]
    );
}

#[test]
fn scoreboard_ranks_kills_then_deaths_and_keeps_ties_in_order() {
    let rows = vec![(1, 0), (3, 2), (3, 1), (1, 0), (0, 5), (3, 2)];
    assert_eq!(scoreboard_order(&rows), vec![2, 1, 5, 0, 3, 4]);
    assert!(scoreboard_order(&Vec::new()).is_empty());
}

#[test]
fn saving_the_same_entry_twice_is_saving_it_once() {
    let mut s = LauncherState::new(vec![item("b", "2:2"), item("a", "1:1")]);
    s.save_to_history("1:1", "home");
    let once = pairs(&s.history);
    let text = s.history_text();
    s.save_to_history("1:1", "home");
    assert_eq!(pairs(&s.history), once);
    assert_eq!(s.history_text(), text);
    assert_eq!(s.history.iter().filter(|i| i.ip == "1:1").count(), 1);
}
