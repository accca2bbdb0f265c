use net_dashboard::names::NameMap;
use net_dashboard::text::{chars_of, comes_before, contains, has_name, same_name, starts_with};

#[test]
fn names_are_ordered_as_strings_are() {
    let words = ["", "a", "ab", "b", "B", "eth0", "eth1", "eth10", "é", "z", "wg0", "日本"];
    for a in words {
        for b in words {
            assert_eq!(comes_before(a, b), a < b, "{:?} {:?}", a, b);
            assert_eq!(same_name(a, b), a == b, "{:?} {:?}", a, b);
        }
    }
}

#[test]
fn prefixes_and_substrings() {
    assert!(starts_with("tun0", "tun"));
    assert!(starts_with("tun", "tun"));
    assert!(!starts_with("tu", "tun"));
    assert!(starts_with("anything", ""));
    assert!(starts_with("", ""));
    assert!(!starts_with("xtun0", "tun"));
    assert!(starts_with("éa", "é"));
    assert!(contains("veth-docker0", "docker"));
    assert!(contains("docker", "docker"));
    assert!(!contains("docke", "docker"));
    assert!(contains("abc", ""));
    assert!(contains("", ""));
    assert!(contains("xbr-", "br-"));
    assert!(!contains("b-r", "br-"));
    assert!(contains("aab", "ab"));
}

#[test]
fn chars_of_gives_every_character() {
    assert_eq!(chars_of("wé🔑"), vec!['w', 'é', '🔑']);
    assert!(chars_of("").is_empty());
}

#[test]
fn has_name_finds_whole_names_only() {
    let list = vec!["home".to_string(), "office".to_string()];
    assert!(has_name(&list, "home"));
    assert!(has_name(&list, "office"));
    assert!(!has_name(&list, "hom"));
    assert!(!has_name(&list, ""));
    assert!(!has_name(&vec![], "home"));
}

#[test]
fn table_walks_in_name_order() {
    let mut table: NameMap<u32> = NameMap::new();
    for (i, name) in ["wlan0", "eth1", "eth0", "tun0", "eth1"].iter().enumerate() {
        table.insert(name.to_string(), i as u32);
    }
    assert_eq!(table.len(), 4);
    let walked: Vec<(&str, u32)> =
        (0..table.len()).map(|i| (table.name_at(i).as_str(), *table.value_at(i))).collect();
    assert_eq!(walked, vec![("eth0", 2), ("eth1", 4), ("tun0", 3), ("wlan0", 0)]);
    assert_eq!(table.get("eth1"), Some(&4));
    assert_eq!(table.get("eth2"), None);
    assert_eq!(table.position("tun0"), Some(2));
    assert_eq!(table.position("a"), None);
    assert_eq!(table.position("zz"), None);
    assert_eq!(table.take("eth1"), Some(4));
    assert_eq!(table.position("tun0"), Some(1));
}
