use fabric::distributed::sharding::ConsistentHash;
use fabric::distributed::{hash_key, shard_for_key};
use std::collections::hash_map::DefaultHasher;
use std::hash::{Hash, Hasher};

fn std_hash(key: &str) -> u64 {
    let mut hasher = DefaultHasher::new();
    key.hash(&mut hasher);
    hasher.finish()
}

#[test]
fn test_consistent_hashing() {
    let mut ch = ConsistentHash::new();

    ch.add_node("node1");
    ch.add_node("node2");
    ch.add_node("node3");

    let node = ch.get_node("test_key").unwrap();
    assert!(["node1", "node2", "node3"].contains(&node.as_str()));

    let replicas = ch.get_replicas("test_key", 2);
    assert_eq!(replicas.len(), 2);
    assert_ne!(replicas[0], replicas[1]);

    ch.remove_node("node1");
    let node_after_remove = ch.get_node("test_key").unwrap();
    assert_ne!(node_after_remove, "node1");
}

#[test]
fn hash_key_is_the_standard_hash_of_the_string() {
    for key in ["", "a", "test_key", "node1#0", "node1#159", "käse", "a much longer key, with spaces"] {
        assert_eq!(hash_key(key), std_hash(key));
        assert_eq!(shard_for_key(key), std_hash(key) % 1024);
        assert!(shard_for_key(key) < 1024);
    }
    assert_ne!(hash_key("a"), hash_key("b"));
}

#[test]
fn empty_ring_has_no_owner() {
    let ch = ConsistentHash::new();
    assert_eq!(ch.get_node("anything"), None);
    assert!(ch.get_replicas("anything", 3).is_empty());
    let by_default = ConsistentHash::default();
    assert_eq!(by_default.get_node("anything"), None);
}

#[test]
fn single_node_owns_every_key() {
    let mut ch = ConsistentHash::new();
    ch.add_node("only");
    for key in ["a", "b", "c", "test_key", ""] {
        assert_eq!(ch.get_node(key), Some("only".to_string()));
        assert_eq!(ch.get_replicas(key, 3), vec!["only".to_string()]);
    }
}

#[test]
fn owner_is_the_node_at_the_first_position_at_or_after_the_hash() {
    let mut ch = ConsistentHash::new();
    let nodes = ["alpha", "beta", "gamma"];
    let mut ring: Vec<(u64, &str)> = Vec::new();
    for node in nodes {
        ch.add_node(node);
        for i in 0..160 {
            ring.push((std_hash(&format!("{}#{}", node, i)), node));
        }
    }
    ring.sort();
    for key in ["test_key", "k1", "k2", "another", "zzz", ""] {
        let h = std_hash(key);
        let expected = ring.iter().find(|(p, _)| *p >= h).unwrap_or(&ring[0]).1;
        assert_eq!(ch.get_node(key).unwrap(), expected);
        assert_eq!(ch.get_replicas(key, 1), vec![expected.to_string()]);
    }
}

#[test]
fn replicas_are_distinct_and_bounded() {
    let mut ch = ConsistentHash::new();
    ch.add_node("node1");
    ch.add_node("node2");
    assert!(ch.get_replicas("test_key", 0).is_empty());
    let five = ch.get_replicas("test_key", 5);
    assert_eq!(five.len(), 2);
    assert_ne!(five[0], five[1]);
    assert_eq!(five[0], ch.get_node("test_key").unwrap());
    ch.add_node("node3");
    let three = ch.get_replicas("test_key", 3);
    assert_eq!(three.len(), 3);
    let mut sorted = three.clone();
    sorted.sort();
    assert_eq!(sorted, vec!["node1".to_string(), "node2".to_string(), "node3".to_string()]);
    assert_eq!(ch.get_replicas("test_key", 2), three[..2].to_vec());
}

#[test]
fn remove_node_reports_presence() {
    let mut ch = ConsistentHash::new();
    assert!(!ch.remove_node("ghost"));
    ch.add_node("node1");
    assert!(!ch.remove_node("ghost"));
    assert!(ch.remove_node("node1"));
    assert!(!ch.remove_node("node1"));
    assert_eq!(ch.get_node("test_key"), None);
}

#[test]
fn owner_is_always_a_present_node() {
    let mut ch = ConsistentHash::new();
    let keys = ["k0", "k1", "k2", "k3", "k4", "k5", "k6", "k7"];
    let mut present: Vec<String> = Vec::new();
    let steps: [(bool, &str); 9] = [
        (true, "a"),
        (true, "b"),
        (true, "c"),
        (false, "b"),
        (true, "d"),
        (true, "a"),
        (false, "a"),
        (false, "c"),
        (false, "d"),
    ];
    for (add, node) in steps {
        if add {
            ch.add_node(node);
            if !present.contains(&node.to_string()) {
                present.push(node.to_string());
            }
        } else {
            assert!(ch.remove_node(node));
            present.retain(|n| n != node);
        }
        for key in keys {
            match ch.get_node(key) {
                Some(owner) => assert!(present.contains(&owner)),
                None => assert!(present.is_empty()),
            }
            let replicas = ch.get_replicas(key, 2);
            assert!(replicas.len() <= 2);
            assert_eq!(replicas.len(), present.len().min(2));
            for (i, r) in replicas.iter().enumerate() {
                assert!(present.contains(r));
                assert!(!replicas[..i].contains(r));
            }
        }
    }
    assert!(present.is_empty());
}

#[test]
fn adding_a_node_twice_changes_nothing() {
    let mut once = ConsistentHash::new();
    once.add_node("a");
    once.add_node("b");
    let mut twice = ConsistentHash::new();
    twice.add_node("a");
    twice.add_node("b");
    twice.add_node("a");
    for key in ["k0", "k1", "k2", "k3", "test_key"] {
        assert_eq!(once.get_node(key), twice.get_node(key));
        assert_eq!(once.get_replicas(key, 2), twice.get_replicas(key, 2));
    }
    assert!(twice.remove_node("a"));
    assert_eq!(twice.get_node("k0"), Some("b".to_string()));
}
