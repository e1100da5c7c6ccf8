use night::utils::{build_ring, choose_in_ring, generate_task_id, parse_duration, ConsistentHash};
use std::time::Duration;

#[test]
fn test_generate_task_id() {
    let id1 = generate_task_id();
    let id2 = generate_task_id();
    assert_ne!(id1, id2);
}

#[test]
fn test_consistent_hash() {
    let nodes = vec!["node1", "node2", "node3"];
    let ch = ConsistentHash::new(nodes, 100);

    let node = ch.get_node("test_key");
    assert!(node.is_some());

    let node1 = ch.get_node("key1");
    let node2 = ch.get_node("key2");
    assert!(node1.is_some() && node2.is_some());
}

#[test]
fn test_parse_duration() {
    assert_eq!(parse_duration("100 ms"), Some(Duration::from_millis(100)));
    assert_eq!(parse_duration("5 seconds"), Some(Duration::from_secs(5)));
    assert_eq!(parse_duration("2 minutes"), Some(Duration::from_secs(120)));
    assert_eq!(parse_duration("1 hour"), Some(Duration::from_secs(3600)));
    assert_eq!(parse_duration("invalid"), None);
}

#[test]
fn parse_duration_units_and_case() {
    assert_eq!(parse_duration("7 MS"), Some(Duration::from_millis(7)));
    assert_eq!(parse_duration("3 Millisecond"), Some(Duration::from_millis(3)));
    assert_eq!(parse_duration("3 milliseconds"), Some(Duration::from_millis(3)));
    assert_eq!(parse_duration("4 s"), Some(Duration::from_secs(4)));
    assert_eq!(parse_duration("1 second"), Some(Duration::from_secs(1)));
    assert_eq!(parse_duration("9 m"), Some(Duration::from_secs(540)));
    assert_eq!(parse_duration("1 minute"), Some(Duration::from_secs(60)));
    assert_eq!(parse_duration("2 h"), Some(Duration::from_secs(7200)));
    assert_eq!(parse_duration("2 HOURS"), Some(Duration::from_secs(7200)));
}

#[test]
fn parse_duration_spacing_and_numbers() {
    assert_eq!(parse_duration("  12 \t ms  "), Some(Duration::from_millis(12)));
    assert_eq!(parse_duration("+5 s"), Some(Duration::from_secs(5)));
    assert_eq!(parse_duration("5\u{3000}s"), Some(Duration::from_secs(5)));
    assert_eq!(parse_duration("-5 s"), None);
    assert_eq!(parse_duration("+ s"), None);
    assert_eq!(parse_duration("5 s extra"), None);
    assert_eq!(parse_duration("5 days"), None);
    assert_eq!(parse_duration(""), None);
    assert_eq!(parse_duration("18446744073709551615 ms"), Some(Duration::from_millis(u64::MAX)));
    assert_eq!(parse_duration("18446744073709551616 ms"), None);
}

#[test]
fn consistent_hash_needs_nodes_and_virtual_nodes() {
    let empty: ConsistentHash<&str> = ConsistentHash::new(vec![], 10);
    assert!(empty.get_node("k").is_none());
    let no_virtual = ConsistentHash::new(vec!["a", "b"], 0);
    assert!(no_virtual.get_node("k").is_none());
}

#[test]
fn consistent_hash_single_node_takes_every_key() {
    let ch = ConsistentHash::new(vec!["only"], 5);
    for key in ["a", "b", "c", "another key"] {
        assert_eq!(ch.get_node(key), Some(&"only"));
    }
}

#[test]
fn consistent_hash_same_key_same_node() {
    let ch = ConsistentHash::new(vec!["node1", "node2", "node3"], 20);
    assert_eq!(ch.get_node("stable"), ch.get_node("stable"));
}

#[test]
fn consistent_hash_add_and_remove_nodes() {
    let mut ch = ConsistentHash::new(vec![String::from("a")], 3);
    ch.add_node(String::from("b"));
    ch.remove_node(&String::from("a"));
    assert_eq!(ch.get_node("k"), Some(&String::from("b")));
    ch.remove_node(&String::from("missing"));
    assert_eq!(ch.get_node("k"), Some(&String::from("b")));
    ch.remove_node(&String::from("b"));
    assert_eq!(ch.get_node("k"), None);
}

#[test]
fn consistent_hash_add_then_remove_restores_the_ring() {
    let mut ch = ConsistentHash::new(vec![String::from("a"), String::from("b")], 7);
    let before: Vec<_> = ["k1", "k2", "k3", "k4"].iter().map(|k| ch.get_node(k).cloned()).collect();
    ch.add_node(String::from("c"));
    ch.remove_node(&String::from("c"));
    let after: Vec<_> = ["k1", "k2", "k3", "k4"].iter().map(|k| ch.get_node(k).cloned()).collect();
    assert_eq!(before, after);
}

#[test]
fn ring_laws_on_given_node_hashes() {
    let hashes = vec![u64::MAX / 3, u64::MAX / 2, 17];
    let ring = build_ring(&hashes, 4);
    let mut more = hashes.clone();
    more.push(u64::MAX / 5);
    let bigger = build_ring(&more, 4);
    let fewer: Vec<u64> = vec![hashes[0], hashes[2]];
    let smaller = build_ring(&fewer, 4);
    for key in [0u64, 1, 99, u64::MAX / 7, u64::MAX / 4, u64::MAX - 1, u64::MAX] {
        let before = choose_in_ring(&ring, key).unwrap();
        let after = choose_in_ring(&bigger, key).unwrap();
        assert!(after == before || after == 3);
        if before != 1 {
            let kept = choose_in_ring(&smaller, key).unwrap();
            assert_eq!(kept, if before < 1 { before } else { before - 1 });
        }
    }
}
