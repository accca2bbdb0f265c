use net_dashboard::connection::ConnectionState;
use net_dashboard::dashboard::Dashboard;
use net_dashboard::frame::{address_rows, graph_panel, list_rows, render};
use net_dashboard::graph::{
    addressed, candidate_positions, choose_series, window, InterfaceAddress, WINDOW_WIDTH,
};
use net_dashboard::keys::{interpret, Command, Key};
use net_dashboard::lane::Lane;
use net_dashboard::selection::{Action, BrowseMode, InputEvent, Mode, SelectionState};
use net_dashboard::net_monitor::{CounterSnapshot, NetStats};
use net_dashboard::throughput::{HistoryPoint, ThroughputTracker, UNITS_PER_MBPS};

fn names(list: &[&str]) -> Vec<String> {
    list.iter().map(|s| s.to_string()).collect()
}

fn snapshot(entries: &[(&str, u64)]) -> CounterSnapshot {
    let mut snapshot = CounterSnapshot::new();
    for (name, rx) in entries {
        snapshot.insert(name.to_string(), NetStats { rx: *rx, tx: 0 });
    }
    snapshot
}

fn addresses(list: &[(&str, &str)]) -> Vec<InterfaceAddress> {
    list.iter()
        .map(|(n, a)| InterfaceAddress { name: n.to_string(), address: a.to_string() })
        .collect()
}

fn tracking(interfaces: &[&str]) -> ThroughputTracker {
    let zero: Vec<(&str, u64)> = interfaces.iter().map(|n| (*n, 0)).collect();
    let later: Vec<(&str, u64)> = interfaces.iter().map(|n| (*n, 65536)).collect();
    let mut tracker = ThroughputTracker::new(snapshot(&zero));
    tracker.update(snapshot(&later));
    tracker
}

fn point(sequence: u64, throughput: u64) -> HistoryPoint {
    HistoryPoint { sequence, throughput }
}

#[test]
fn window_spans_three_hundred_ticks() {
    let history = vec![point(99, 5), point(100, 7), point(250, 9), point(400, 11), point(401, 13)];
    let shown = window(&history, 400);
    assert_eq!(shown.first, 100);
    assert_eq!(shown.last, 400);
    assert_eq!(shown.points, vec![point(100, 7), point(250, 9), point(400, 11)]);
    assert_eq!(WINDOW_WIDTH, 300);
}

#[test]
fn window_starts_before_zero_in_the_first_ticks() {
    let shown = window(&vec![point(1, 70000), point(2, 3)], 2);
    assert_eq!(shown.first, -298);
    assert_eq!(shown.last, 2);
    assert_eq!(shown.points.len(), 2);
    assert_eq!(shown.ceiling, 70000);
}

#[test]
fn ceiling_is_one_megabit_at_the_least() {
    assert_eq!(window(&vec![], 10).ceiling, UNITS_PER_MBPS);
    assert_eq!(window(&vec![point(1, 0), point(2, 65535)], 2).ceiling, 65536);
    assert_eq!(window(&vec![point(1, 65537), point(2, 1)], 2).ceiling, 65537);
}

#[test]
fn ceiling_forgets_a_spike_that_left_the_window() {
    let history = vec![point(1, 9_000_000), point(2, 100_000), point(302, 200_000)];
    assert_eq!(window(&history, 301).ceiling, 9_000_000);
    let shown = window(&history, 302);
    assert_eq!(shown.ceiling, 200_000);
    assert_eq!(shown.points, vec![point(2, 100_000), point(302, 200_000)]);
}

#[test]
fn graph_alternates_between_uplink_and_tunnels() {
    let tracker = tracking(&["eth0", "wlan0", "tun0", "wg0", "usb0"]);
    let all = addresses(&[
        ("wg0", "10.0.0.2"),
        ("eth0", "192.168.1.2"),
        ("tun0", "10.8.0.2"),
        ("wlan0", "192.168.1.3"),
        ("usb0", "192.168.7.1"),
    ]);
    let name = |index: usize| {
        choose_series(&tracker, &all, index).map(|p| tracker.sample_at(p).name.clone())
    };
    assert_eq!(name(0).as_deref(), Some("eth0"));
    assert_eq!(name(1).as_deref(), Some("tun0"));
    assert_eq!(name(2).as_deref(), Some("eth0"));
    assert_eq!(name(3).as_deref(), Some("wg0"));
    assert_eq!(name(4).as_deref(), Some("eth0"));
    assert_eq!(name(5).as_deref(), Some("tun0"));
    assert_eq!(name(7).as_deref(), Some("wg0"));
}

#[test]
fn graph_needs_an_address() {
    let tracker = tracking(&["eth0", "wlan0", "tun0"]);
    let only_wlan = addresses(&[("wlan0", "192.168.1.3")]);
    let at = |index: usize| {
        choose_series(&tracker, &only_wlan, index).map(|p| tracker.sample_at(p).name.clone())
    };
    assert_eq!(at(0).as_deref(), Some("wlan0"));
    assert_eq!(at(1).as_deref(), Some("wlan0"));
    assert_eq!(choose_series(&tracker, &addresses(&[]), 0), None);
    assert_eq!(choose_series(&tracker, &addresses(&[]), 1), None);
    assert_eq!(choose_series(&tracker, &addresses(&[("usb0", "1.2.3.4")]), 1), None);
    let only_tunnel = addresses(&[("tun0", "10.8.0.2")]);
    assert_eq!(choose_series(&tracker, &only_tunnel, 0), Some(1));
    assert_eq!(choose_series(&tracker, &only_tunnel, 1), Some(1));
    assert_eq!(choose_series(&tracker, &only_tunnel, 2), Some(1));
    assert!(addressed(&only_tunnel, "tun0"));
    assert!(!addressed(&only_tunnel, "tun"));
    assert_eq!(candidate_positions(&tracker, &only_tunnel, true), vec![1]);
    assert!(candidate_positions(&tracker, &only_tunnel, false).is_empty());
}

#[test]
fn tunnels_are_graphed_where_no_uplink_is() {
    let tracker = tracking(&["eth0", "ppp0", "tun0", "wg0"]);
    let tunnels = addresses(&[("wg0", "10.0.0.2"), ("tun0", "10.8.0.2"), ("ppp0", "10.9.0.2")]);
    let name = |index: usize| {
        choose_series(&tracker, &tunnels, index).map(|p| tracker.sample_at(p).name.clone())
    };
    assert_eq!(name(0).as_deref(), Some("ppp0"));
    assert_eq!(name(1).as_deref(), Some("ppp0"));
    assert_eq!(name(2).as_deref(), Some("tun0"));
    assert_eq!(name(3).as_deref(), Some("tun0"));
    assert_eq!(name(4).as_deref(), Some("wg0"));
    assert_eq!(name(5).as_deref(), Some("wg0"));
    assert_eq!(name(6).as_deref(), Some("ppp0"));
    let panel = graph_panel(&tracker, &tunnels, 0).unwrap();
    assert_eq!(panel.name, "ppp0");
    assert_eq!(panel.lane, Lane::Tunnel);
    let untracked_only = addresses(&[("usb0", "192.168.7.1"), ("tun9", "10.1.0.2")]);
    assert_eq!(choose_series(&tracker, &untracked_only, 0), None);
    assert!(graph_panel(&tracker, &untracked_only, 3).is_none());
}

#[test]
fn panel_shows_speed_and_window() {
    let mut tracker = ThroughputTracker::new(snapshot(&[("eth0", 1000)]));
    tracker.update(snapshot(&[("eth0", 1000 + 655360)]));
    tracker.update(snapshot(&[("eth0", 1000 + 655360 + 10)]));
    let panel = graph_panel(&tracker, &addresses(&[("eth0", "192.168.1.2")]), 0).unwrap();
    assert_eq!(panel.name, "eth0");
    assert_eq!(panel.speed, 10);
    assert_eq!(panel.lane, Lane::Physical);
    assert_eq!(panel.window.points, vec![point(1, 655360), point(2, 10)]);
    assert_eq!(panel.window.ceiling, 655360);
    assert_eq!(panel.window.last, 2);
    assert_eq!(panel.window.first, -298);
    assert!(graph_panel(&tracker, &addresses(&[]), 0).is_none());
}

#[test]
fn rows_mark_what_is_active() {
    let mut selection = SelectionState::new(names(&["home", "office"]), names(&["cafe", "lab"]));
    let mut connection = ConnectionState::new();
    connection.poll(names(&["office"]), Some("lab".to_string()));
    let rows = list_rows(&selection, &connection);
    let shown: Vec<(&str, bool)> = rows.iter().map(|r| (r.name.as_str(), r.active)).collect();
    assert_eq!(shown, vec![("home", false), ("office", true)]);
    selection.handle(InputEvent::ModeToggle);
    let rows = list_rows(&selection, &connection);
    let shown: Vec<(&str, bool)> = rows.iter().map(|r| (r.name.as_str(), r.active)).collect();
    assert_eq!(shown, vec![("cafe", false), ("lab", true)]);
}

#[test]
fn address_rows_carry_the_lane() {
    let rows = address_rows(&addresses(&[("wg0", "10.0.0.2"), ("eth0", "192.168.1.2")]));
    assert_eq!(rows.len(), 2);
    assert_eq!(rows[0].name, "wg0");
    assert_eq!(rows[0].address, "10.0.0.2");
    assert_eq!(rows[0].lane, Lane::Tunnel);
    assert_eq!(rows[1].lane, Lane::Physical);
}

#[test]
fn empty_state_renders_empty_parts() {
    let selection = SelectionState::new(names(&[]), names(&[]));
    let connection = ConnectionState::new();
    let tracker = ThroughputTracker::new(CounterSnapshot::new());
    let frame = render(&selection, &connection, &tracker, &addresses(&[]), 0);
    assert_eq!(frame.list, BrowseMode::Vpn);
    assert!(frame.rows.is_empty());
    assert_eq!(frame.highlighted, None);
    assert!(frame.addresses.is_empty());
    assert!(frame.graph.is_none());
    assert_eq!(frame.secret_mask, None);
}

#[test]
fn frame_masks_the_secret() {
    let mut selection = SelectionState::new(names(&["home"]), names(&["cafe", "lab"]));
    let connection = ConnectionState::new();
    let tracker = ThroughputTracker::new(CounterSnapshot::new());
    selection.handle(InputEvent::ModeToggle);
    selection.handle(InputEvent::CursorDown);
    let frame = render(&selection, &connection, &tracker, &addresses(&[]), 0);
    assert_eq!(frame.highlighted, Some(1));
    assert_eq!(frame.secret_mask, None);
    selection.handle(InputEvent::Confirm);
    selection.handle(InputEvent::CharInput('é'));
    selection.handle(InputEvent::CharInput('x'));
    let frame = render(&selection, &connection, &tracker, &addresses(&[]), 0);
    assert_eq!(frame.list, BrowseMode::Wifi);
    assert_eq!(frame.rows.len(), 2);
    assert_eq!(frame.highlighted, Some(1));
    assert_eq!(frame.secret_mask, Some(2));
}

#[test]
fn keys_in_the_browse_modes() {
    assert_eq!(interpret(Key::Tab, false), Command::Input(InputEvent::ModeToggle));
    assert_eq!(interpret(Key::Down, false), Command::Input(InputEvent::CursorDown));
    assert_eq!(interpret(Key::Char('j'), false), Command::Input(InputEvent::CursorDown));
    assert_eq!(interpret(Key::Up, false), Command::Input(InputEvent::CursorUp));
    assert_eq!(interpret(Key::Char('k'), false), Command::Input(InputEvent::CursorUp));
    assert_eq!(interpret(Key::Enter, false), Command::Input(InputEvent::Confirm));
    assert_eq!(interpret(Key::Char('x'), false), Command::Input(InputEvent::Disconnect));
    assert_eq!(interpret(Key::Char('r'), false), Command::Input(InputEvent::Refresh));
    assert_eq!(interpret(Key::Char('g'), false), Command::NextGraph);
    assert_eq!(interpret(Key::Char('a'), false), Command::OpenEditor);
    assert_eq!(interpret(Key::Char('q'), false), Command::Quit);
    assert_eq!(interpret(Key::Char('z'), false), Command::Ignored);
    assert_eq!(interpret(Key::Escape, false), Command::Ignored);
    assert_eq!(interpret(Key::Backspace, false), Command::Ignored);
    assert_eq!(interpret(Key::Other, false), Command::Ignored);
}

#[test]
fn keys_while_a_secret_is_entered() {
    assert_eq!(interpret(Key::Enter, true), Command::Input(InputEvent::Confirm));
    assert_eq!(interpret(Key::Escape, true), Command::Input(InputEvent::Cancel));
    assert_eq!(interpret(Key::Backspace, true), Command::Input(InputEvent::Backspace));
    assert_eq!(interpret(Key::Char('q'), true), Command::Input(InputEvent::CharInput('q')));
    assert_eq!(interpret(Key::Char('g'), true), Command::Input(InputEvent::CharInput('g')));
    assert_eq!(interpret(Key::Tab, true), Command::Ignored);
    assert_eq!(interpret(Key::Up, true), Command::Ignored);
    assert_eq!(interpret(Key::Down, true), Command::Ignored);
    assert_eq!(interpret(Key::Other, true), Command::Ignored);
}

#[test]
fn dashboard_from_keys_to_frame() {
    let mut dashboard =
        Dashboard::new(names(&["home", "office"]), names(&["cafe"]), snapshot(&[("eth0", 1000)]));
    let events = dashboard.tick(names(&["home"]), None, snapshot(&[("eth0", 1000 + 655360)]));
    assert_eq!(events.len(), 1);
    assert!(matches!(dashboard.press(Key::Down), Action::Nothing));
    assert!(matches!(dashboard.press(Key::Enter), Action::Nothing));
    assert!(matches!(dashboard.press(Key::Char('q')), Action::Nothing));
    assert!(matches!(dashboard.press(Key::Char('g')), Action::Nothing));
    assert_eq!(dashboard.graph_index, 0);
    let frame = dashboard.render(&addresses(&[("eth0", "192.168.1.2")]));
    assert_eq!(frame.secret_mask, Some(2));
    assert_eq!(frame.highlighted, Some(1));
    assert_eq!(frame.rows[0].active, true);
    assert_eq!(frame.rows[1].active, false);
    assert_eq!(frame.graph.as_ref().unwrap().speed, 655360);
    match dashboard.press(Key::Enter) {
        Action::SubmitSecret { mode, name, secret } => {
            assert_eq!(mode, BrowseMode::Vpn);
            assert_eq!(name, "office");
            assert_eq!(secret, vec!['q', 'g']);
        }
        other => panic!("no secret submitted: {:?}", other),
    }
    assert!(matches!(dashboard.selection.mode(), Mode::BrowseVpn));
    assert!(matches!(dashboard.press(Key::Char('g')), Action::Nothing));
    assert_eq!(dashboard.graph_index, 1);
    assert!(matches!(dashboard.press(Key::Char('a')), Action::OpenEditor));
    assert!(matches!(dashboard.press(Key::Char('r')), Action::RefreshLists));
    dashboard.refresh(names(&["home"]), names(&[]));
    assert_eq!(dashboard.selection.cursor(), 0);
    assert!(matches!(dashboard.press(Key::Char('x')), Action::RequestDisconnect(n) if n == "home"));
    assert!(matches!(dashboard.press(Key::Char('q')), Action::Quit));
}

#[test]
fn graph_index_wraps() {
    let mut dashboard = Dashboard::new(names(&[]), names(&[]), CounterSnapshot::new());
    dashboard.graph_index = usize::MAX;
    dashboard.press(Key::Char('g'));
    assert_eq!(dashboard.graph_index, 0);
}
