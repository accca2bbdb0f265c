use net_dashboard::fields::{lines, number, split, words, Separator};
use net_dashboard::net_monitor::{count, get_net_data, without, NetStats};
use net_dashboard::sources::{
    active_names, addresses, associated_network, leading_field, name_in, names_in,
    network_names, sorted_names, tunnel_names, Listing,
};

fn names(list: &[&str]) -> Vec<String> {
    list.iter().map(|s| s.to_string()).collect()
}

const TEXTS: [&str; 14] = [
    "",
    "\n",
    "a",
    "a\n",
    "a\nb",
    "a\r\nb\r\n",
    "a\rb\n\rc",
    "a\r",
    "\n\na\n\n",
    "  eth0: 1 2\t3 \n lo:4",
    "x:y:z",
    ":",
    "a\u{a0}b\u{2003}c\u{3000}d\u{85}e\u{200b}f",
    "é:ü\n日本 語",
];

#[test]
fn lines_are_those_of_the_standard_library() {
    for text in TEXTS {
        let expected: Vec<String> = text.lines().map(|l| l.to_string()).collect();
        assert_eq!(lines(text), expected, "{:?}", text);
    }
}

#[test]
fn words_are_those_of_the_standard_library() {
    for text in TEXTS {
        let expected: Vec<String> = text.split_whitespace().map(|l| l.to_string()).collect();
        assert_eq!(words(text), expected, "{:?}", text);
    }
}

#[test]
fn pieces_are_those_of_the_standard_library() {
    for text in TEXTS {
        for sep in [':', '\n', 'a', '/'] {
            let expected: Vec<String> = text.split(sep).map(|l| l.to_string()).collect();
            assert_eq!(split(text, Separator::Is(sep)), expected, "{:?} {:?}", text, sep);
            assert_eq!(leading_field(text, sep), expected[0]);
        }
    }
}

#[test]
fn split_keeps_empty_pieces() {
    assert_eq!(split("", Separator::Is(':')), names(&[""]));
    assert_eq!(split(":", Separator::Is(':')), names(&["", ""]));
    assert_eq!(split("a::b:", Separator::Is(':')), names(&["a", "", "b", ""]));
    assert_eq!(split(" a  b", Separator::Whitespace), names(&["", "a", "", "b"]));
}

#[test]
fn numbers_are_those_of_the_standard_library() {
    let inputs = [
        "",
        "0",
        "7",
        "42",
        "+42",
        "+",
        "-1",
        "-0",
        "++1",
        "1+",
        "0042",
        " 42",
        "42 ",
        "4 2",
        "12a",
        "٤٢",
        "18446744073709551615",
        "18446744073709551616",
        "+18446744073709551615",
        "000018446744073709551615",
        "99999999999999999999999999",
        "184467440737095516150",
        "1e3",
        "0x10",
    ];
    for word in inputs {
        assert_eq!(number(word), word.parse::<u64>().ok(), "{:?}", word);
        assert_eq!(count(word), word.parse::<u64>().unwrap_or(0), "{:?}", word);
    }
}

#[test]
fn without_removes_every_occurrence() {
    assert_eq!(without("eth0:", ':'), "eth0");
    assert_eq!(without(":a::b:", ':'), "ab");
    assert_eq!(without("", ':'), "");
    assert_eq!(without("é:é", ':'), "éé");
    assert_eq!(without("abc", ':'), "abc");
}

const NET_DEV: &str = "Inter-|   Receive                                                |  Transmit
 face |bytes    packets errs drop fifo frame compressed multicast|bytes    packets errs drop fifo colls carrier compressed
    lo: 1234567    5678    0    0    0     0          0         0  1234567    5678    0    0    0     0       0          0
  eth0: 987654321 1000 0 0 0 0 0 0 123456789 2000 0 0 0 0 0 0
 wlan0: 55 1 0 0 0 0 0 0 66 2 0 0 0 0 0 0
 short: 1 2 3
  bad0: x12 1 0 0 0 0 0 0 99999999999999999999 2 0 0 0 0 0 0
";

#[test]
fn counters_come_from_the_kernel_table() {
    let snapshot = get_net_data(NET_DEV);
    assert_eq!(snapshot.len(), 4);
    assert_eq!(snapshot.get("lo"), Some(&NetStats { rx: 1234567, tx: 1234567 }));
    assert_eq!(snapshot.get("eth0"), Some(&NetStats { rx: 987654321, tx: 123456789 }));
    assert_eq!(snapshot.get("wlan0"), Some(&NetStats { rx: 55, tx: 66 }));
    assert_eq!(snapshot.get("bad0"), Some(&NetStats { rx: 0, tx: 0 }));
    assert_eq!(snapshot.get("short"), None);
    assert_eq!(snapshot.get("face"), None);
}

#[test]
fn counters_of_too_little_text_are_empty() {
    assert_eq!(get_net_data("").len(), 0);
    assert_eq!(get_net_data("eth0: 1 2 3 4 5 6 7 8 9 10 11").len(), 0);
    assert_eq!(get_net_data("h\neth0: 1 2 3 4 5 6 7 8 9 10 11").len(), 0);
    let snapshot = get_net_data("h\nh\neth0: 1 2 3 4 5 6 7 8 9 10 11");
    assert_eq!(snapshot.get("eth0"), Some(&NetStats { rx: 1, tx: 9 }));
    let ten = get_net_data("h\nh\neth0: 1 2 3 4 5 6 7 8 9");
    assert_eq!(ten.len(), 0);
}

#[test]
fn later_line_of_an_interface_counts() {
    let snapshot = get_net_data("h\nh\ne: 1 0 0 0 0 0 0 0 2 0 0\ne: 3 0 0 0 0 0 0 0 4 0 0\n");
    assert_eq!(snapshot.len(), 1);
    assert_eq!(snapshot.get("e"), Some(&NetStats { rx: 3, tx: 4 }));
}

#[test]
fn tunnels_are_the_vpn_and_wireguard_connections() {
    let text = "office:vpn\nWired connection 1:802-3-ethernet\nhome:wireguard\ncafe:802-11-wireless\nhome:wireguard\n";
    assert_eq!(tunnel_names(text), names(&["home", "office"]));
    assert_eq!(names_in(text, Listing::Tunnels), names(&["office", "home", "home"]));
    assert_eq!(tunnel_names(""), names(&[]));
    assert_eq!(name_in("a:b:vpn", Listing::Tunnels), Some("a".to_string()));
    assert_eq!(name_in(":vpn", Listing::Tunnels), Some("".to_string()));
    assert_eq!(name_in("vpn", Listing::Tunnels), None);
    assert_eq!(name_in("my:vpnish", Listing::Tunnels), Some("my".to_string()));
}

#[test]
fn networks_are_the_lines_that_name_one() {
    let text = "lab\n--\n\ncafe\nlab\nCafe\n";
    assert_eq!(network_names(text), names(&["Cafe", "cafe", "lab"]));
    assert_eq!(names_in(text, Listing::Networks), names(&["lab", "cafe", "lab", "Cafe"]));
    assert_eq!(name_in("---", Listing::Networks), Some("---".to_string()));
    assert_eq!(name_in("--", Listing::Networks), None);
    assert_eq!(name_in("", Listing::Networks), None);
}

#[test]
fn active_connections_are_named_by_their_first_field() {
    let text = "home:activated\n:activated\nWired connection 1:activated\nplain\n\n";
    assert_eq!(active_names(text), names(&["home", "Wired connection 1", "plain"]));
    assert_eq!(name_in(":x", Listing::Active), None);
}

#[test]
fn associated_network_is_the_one_marked_yes() {
    assert_eq!(associated_network("no:cafe\nyes:lab\nyes:other\n"), Some("lab".to_string()));
    assert_eq!(associated_network("no:cafe\nno:lab\n"), None);
    assert_eq!(associated_network(""), None);
    assert_eq!(associated_network("yes"), Some("".to_string()));
    assert_eq!(associated_network("yes:"), Some("".to_string()));
    assert_eq!(associated_network("yes:a:b"), Some("a".to_string()));
    assert_eq!(associated_network("yesterday:x"), Some("x".to_string()));
    assert_eq!(associated_network(" yes:x"), None);
}

#[test]
fn addresses_come_from_the_one_line_listing() {
    let text = "1: lo    inet 127.0.0.1/8 scope host lo\\       valid_lft forever
2: eth0    inet 192.168.1.2/24 brd 192.168.1.255 scope global eth0
3: wg0    inet 10.0.0.2 scope global wg0
4: short inet
";
    let found = addresses(text);
    let pairs: Vec<(&str, &str)> =
        found.iter().map(|a| (a.name.as_str(), a.address.as_str())).collect();
    assert_eq!(pairs, vec![("eth0", "192.168.1.2"), ("wg0", "10.0.0.2")]);
    assert!(addresses("").is_empty());
}

#[test]
fn sorted_names_are_in_order_and_distinct() {
    let sorted = sorted_names(&names(&["b", "a", "c", "a", "B", "", "b"]));
    assert_eq!(sorted, names(&["", "B", "a", "b", "c"]));
    assert!(sorted_names(&names(&[])).is_empty());
    let mut expected = names(&["zeta", "Alpha", "alpha", "beta", "é", "eta"]);
    let sorted = sorted_names(&expected);
    expected.sort();
    expected.dedup();
    assert_eq!(sorted, expected);
}
