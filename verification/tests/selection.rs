use net_dashboard::selection::{Action, BrowseMode, InputEvent, Mode, SelectionState};

fn names(list: &[&str]) -> Vec<String> {
    list.iter().map(|s| s.to_string()).collect()
}

fn browsing(vpn: &[&str], wifi: &[&str]) -> SelectionState {
    SelectionState::new(names(vpn), names(wifi))
}

fn is_nothing(action: &Action) -> bool {
    matches!(action, Action::Nothing)
}

#[test]
fn starts_browsing_tunnels_at_the_top() {
    let state = browsing(&["home", "office"], &["cafe"]);
    assert!(matches!(state.mode(), Mode::BrowseVpn));
    assert_eq!(state.cursor(), 0);
    assert_eq!(state.origin(), BrowseMode::Vpn);
    assert!(!state.in_secret_entry());
    assert_eq!(state.selected().map(|s| s.as_str()), Some("home"));
    assert_eq!(state.vpn_names(), &names(&["home", "office"]));
    assert_eq!(state.wifi_names(), &names(&["cafe"]));
}

#[test]
fn submit_secret_end_to_end() {
    let mut state = browsing(&["home", "office"], &[]);
    assert!(is_nothing(&state.handle(InputEvent::CursorDown)));
    assert_eq!(state.cursor(), 1);
    assert!(is_nothing(&state.handle(InputEvent::Confirm)));
    match state.mode() {
        Mode::SecretEntry { origin, target, secret } => {
            assert_eq!(*origin, BrowseMode::Vpn);
            assert_eq!(target, "office");
            assert!(secret.is_empty());
        }
        other => panic!("not entering a secret: {:?}", other),
    }
    assert!(is_nothing(&state.handle(InputEvent::CharInput('s'))));
    assert!(is_nothing(&state.handle(InputEvent::CharInput('3'))));
    assert_eq!(state.secret_len(), 2);
    match state.handle(InputEvent::Confirm) {
        Action::SubmitSecret { mode, name, secret } => {
            assert_eq!(mode, BrowseMode::Vpn);
            assert_eq!(name, "office");
            assert_eq!(secret, vec!['s', '3']);
        }
        other => panic!("no secret submitted: {:?}", other),
    }
    assert!(matches!(state.mode(), Mode::BrowseVpn));
    assert_eq!(state.cursor(), 1);
    assert_eq!(state.secret_len(), 0);
}

#[test]
fn cursor_goes_round() {
    let mut state = browsing(&["a", "b", "c"], &[]);
    state.handle(InputEvent::CursorUp);
    assert_eq!(state.cursor(), 2);
    state.handle(InputEvent::CursorDown);
    assert_eq!(state.cursor(), 0);
    state.handle(InputEvent::CursorDown);
    state.handle(InputEvent::CursorDown);
    assert_eq!(state.cursor(), 2);
    state.handle(InputEvent::CursorDown);
    assert_eq!(state.cursor(), 0);
}

#[test]
fn cursor_stays_on_an_empty_list() {
    let mut state = browsing(&[], &[]);
    assert!(is_nothing(&state.handle(InputEvent::CursorDown)));
    assert_eq!(state.cursor(), 0);
    assert!(is_nothing(&state.handle(InputEvent::CursorUp)));
    assert_eq!(state.cursor(), 0);
    assert!(state.selected().is_none());
    assert!(is_nothing(&state.handle(InputEvent::Confirm)));
    assert!(matches!(state.mode(), Mode::BrowseVpn));
    assert!(is_nothing(&state.handle(InputEvent::Disconnect)));
}

#[test]
fn cursor_on_a_single_name_stays() {
    let mut state = browsing(&["only"], &[]);
    state.handle(InputEvent::CursorDown);
    assert_eq!(state.cursor(), 0);
    state.handle(InputEvent::CursorUp);
    assert_eq!(state.cursor(), 0);
}

#[test]
fn mode_toggle_switches_and_resets_the_cursor() {
    let mut state = browsing(&["a", "b"], &["x", "y", "z"]);
    state.handle(InputEvent::CursorDown);
    assert!(is_nothing(&state.handle(InputEvent::ModeToggle)));
    assert!(matches!(state.mode(), Mode::BrowseWifi));
    assert_eq!(state.cursor(), 0);
    assert_eq!(state.current_names(), &names(&["x", "y", "z"]));
    state.handle(InputEvent::CursorUp);
    assert_eq!(state.cursor(), 2);
    state.handle(InputEvent::ModeToggle);
    assert!(matches!(state.mode(), Mode::BrowseVpn));
    assert_eq!(state.cursor(), 0);
}

#[test]
fn cancel_returns_to_the_mode_of_entry() {
    let mut state = browsing(&["a"], &["x", "y"]);
    state.handle(InputEvent::ModeToggle);
    state.handle(InputEvent::CursorDown);
    state.handle(InputEvent::Confirm);
    assert!(state.in_secret_entry());
    assert_eq!(state.origin(), BrowseMode::Wifi);
    state.handle(InputEvent::CharInput('p'));
    state.handle(InputEvent::CharInput('w'));
    assert!(is_nothing(&state.handle(InputEvent::Cancel)));
    assert!(matches!(state.mode(), Mode::BrowseWifi));
    assert_eq!(state.cursor(), 1);
    assert_eq!(state.secret_len(), 0);
    state.handle(InputEvent::Confirm);
    match state.mode() {
        Mode::SecretEntry { target, secret, .. } => {
            assert_eq!(target, "y");
            assert!(secret.is_empty());
        }
        other => panic!("not entering a secret: {:?}", other),
    }
}

#[test]
fn typing_then_erasing_leaves_an_empty_secret() {
    let mut state = browsing(&["a"], &[]);
    state.handle(InputEvent::Confirm);
    let typed = "correct horse battery staple é 🔑";
    let mut count = 0;
    for c in typed.chars() {
        state.handle(InputEvent::CharInput(c));
        count += 1;
        assert_eq!(state.secret_len(), count);
    }
    for _ in 0..count {
        assert!(is_nothing(&state.handle(InputEvent::Backspace)));
    }
    assert_eq!(state.secret_len(), 0);
    assert!(is_nothing(&state.handle(InputEvent::Backspace)));
    assert_eq!(state.secret_len(), 0);
    assert!(state.in_secret_entry());
}

#[test]
fn secret_entry_ignores_browse_inputs() {
    let mut state = browsing(&["a", "b"], &["x"]);
    state.handle(InputEvent::Confirm);
    for event in [
        InputEvent::ModeToggle,
        InputEvent::CursorDown,
        InputEvent::CursorUp,
        InputEvent::Disconnect,
        InputEvent::Refresh,
    ] {
        assert!(is_nothing(&state.handle(event)));
        assert!(state.in_secret_entry());
        assert_eq!(state.cursor(), 0);
        assert_eq!(state.origin(), BrowseMode::Vpn);
    }
}

#[test]
fn browse_modes_ignore_secret_inputs() {
    let mut state = browsing(&["a", "b"], &["x"]);
    state.handle(InputEvent::CursorDown);
    for event in [InputEvent::Cancel, InputEvent::CharInput('z'), InputEvent::Backspace] {
        assert!(is_nothing(&state.handle(event)));
        assert!(matches!(state.mode(), Mode::BrowseVpn));
        assert_eq!(state.cursor(), 1);
    }
}

#[test]
fn disconnect_names_the_tunnel_under_the_cursor() {
    let mut state = browsing(&["home", "office"], &["cafe"]);
    state.handle(InputEvent::CursorDown);
    match state.handle(InputEvent::Disconnect) {
        Action::RequestDisconnect(name) => assert_eq!(name, "office"),
        other => panic!("no disconnect asked for: {:?}", other),
    }
    assert_eq!(state.cursor(), 1);
    state.handle(InputEvent::ModeToggle);
    assert!(is_nothing(&state.handle(InputEvent::Disconnect)));
}

#[test]
fn refresh_asks_for_the_lists() {
    let mut state = browsing(&["home"], &["cafe"]);
    assert!(matches!(state.handle(InputEvent::Refresh), Action::RefreshLists));
    state.handle(InputEvent::ModeToggle);
    assert!(matches!(state.handle(InputEvent::Refresh), Action::RefreshLists));
}

#[test]
fn new_lists_reset_a_cursor_that_points_outside() {
    let mut state = browsing(&["a", "b", "c"], &["x"]);
    state.handle(InputEvent::CursorUp);
    assert_eq!(state.cursor(), 2);
    state.set_lists(names(&["a", "b", "c", "d"]), names(&[]));
    assert_eq!(state.cursor(), 2);
    state.set_lists(names(&["a", "b"]), names(&[]));
    assert_eq!(state.cursor(), 0);
    state.handle(InputEvent::CursorDown);
    state.set_lists(names(&[]), names(&["x"]));
    assert_eq!(state.cursor(), 0);
    assert!(state.selected().is_none());
}

#[test]
fn secret_for_a_name_that_left_the_list_is_dropped() {
    let mut state = browsing(&["home", "office"], &[]);
    state.handle(InputEvent::CursorDown);
    state.handle(InputEvent::Confirm);
    state.handle(InputEvent::CharInput('x'));
    state.set_lists(names(&["home"]), names(&[]));
    assert!(state.in_secret_entry());
    assert_eq!(state.cursor(), 0);
    assert!(is_nothing(&state.handle(InputEvent::Confirm)));
    assert!(matches!(state.mode(), Mode::BrowseVpn));
}

#[test]
fn secret_goes_to_the_name_captured_at_entry() {
    let mut state = browsing(&["home", "office"], &[]);
    state.handle(InputEvent::CursorDown);
    state.handle(InputEvent::Confirm);
    state.set_lists(names(&["alpha", "home", "office"]), names(&[]));
    match state.handle(InputEvent::Confirm) {
        Action::SubmitSecret { name, secret, .. } => {
            assert_eq!(name, "office");
            assert!(secret.is_empty());
        }
        other => panic!("no secret submitted: {:?}", other),
    }
}
