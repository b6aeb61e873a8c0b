use fabric::distributed::coordinator::Coordinator;
use fabric::distributed::node::Node;
use fabric::distributed::{ClusterError, Endpoint, Host};
use std::collections::HashSet;

fn local(port: u16) -> Endpoint {
    Endpoint::v4(127, 0, 0, 1, port)
}

#[test]
fn test_add_remove_node() {
    let addr = local(8080);
    let mut coordinator = Coordinator::new(addr);

    let node_addr = local(8081);
    let node_id = Node::new(node_addr).id;

    coordinator.add_node(node_id.clone(), node_addr).unwrap();
    assert_eq!(coordinator.node_count(), 1);

    coordinator.remove_node(&node_id).unwrap();
    assert_eq!(coordinator.node_count(), 0);
}

#[test]
fn test_shard_rebalancing() {
    let addr = local(8080);
    let mut coordinator = Coordinator::new(addr);

    let mut ids = Vec::new();
    for i in 0..3 {
        let node_addr = local(8081 + i as u16);
        let id = Node::new(node_addr).id;
        coordinator.add_node(id.clone(), node_addr).unwrap();
        ids.push(id);
    }

    let shard_map = coordinator.get_shard_owners();
    assert_eq!(shard_map.len(), 1024);

    for id in &ids {
        let shards = coordinator.get_node_shards(id).unwrap();
        assert!(!shards.is_empty());
    }
}

#[test]
fn endpoint_v4_packs_the_octets() {
    assert_eq!(local(8080), Endpoint { host: Host::V4(0x7f00_0001), port: 8080 });
    assert_eq!(Endpoint::v4(1, 2, 3, 4, 5), Endpoint { host: Host::V4(0x0102_0304), port: 5 });
    assert_eq!(Endpoint::v4(255, 255, 255, 255, 65535).host, Host::V4(u32::MAX));
}

#[test]
fn duplicate_and_unknown_nodes_are_refused() {
    let mut coordinator = Coordinator::new(local(8080));
    assert_eq!(coordinator.addr(), local(8080));
    assert_eq!(coordinator.remove_node("a"), Err(ClusterError::UnknownNode));
    assert_eq!(coordinator.add_node("a".to_string(), local(1)), Ok(()));
    assert_eq!(coordinator.add_node("a".to_string(), local(2)), Err(ClusterError::DuplicateNode));
    assert_eq!(coordinator.node_count(), 1);
    assert_eq!(coordinator.get_node_addr("a"), Some(local(1)));
    assert_eq!(coordinator.get_node_addr("b"), None);
    assert!(coordinator.has_node("a"));
    assert!(!coordinator.has_node("b"));
    assert_eq!(coordinator.remove_node("b"), Err(ClusterError::UnknownNode));
    assert_eq!(coordinator.remove_node("a"), Ok(()));
    assert_eq!(coordinator.remove_node("a"), Err(ClusterError::UnknownNode));
}

#[test]
fn error_messages() {
    assert_eq!(ClusterError::DuplicateNode.message(), "Node already exists");
    assert_eq!(ClusterError::UnknownNode.message(), "Node not found");
    assert_eq!(ClusterError::JoinFailed.message(), "Failed to join cluster");
    assert_eq!(ClusterError::NoConnection.message(), "No connection to node");
}

#[test]
fn assignment_is_round_robin_over_the_sorted_ids() {
    let mut coordinator = Coordinator::new(local(8080));
    // Joined out of order: the enumeration is by id all the same.
    coordinator.add_node("c".to_string(), local(3)).unwrap();
    coordinator.add_node("a".to_string(), local(1)).unwrap();
    coordinator.add_node("b".to_string(), local(2)).unwrap();
    let sorted = ["a", "b", "c"];
    let owners = coordinator.get_shard_owners();
    assert_eq!(owners.len(), 1024);
    for shard in 0..1024u64 {
        assert_eq!(owners[&shard], sorted[(shard % 3) as usize]);
        assert_eq!(coordinator.get_shard_owner(shard).unwrap(), sorted[(shard % 3) as usize]);
    }
    assert_eq!(coordinator.get_shard_owner(1024), None);
    for (index, id) in sorted.iter().enumerate() {
        let expected: HashSet<u64> = (0..1024u64).filter(|k| (k % 3) as usize == index).collect();
        assert_eq!(coordinator.get_node_shards(id).unwrap(), expected);
    }
    assert_eq!(coordinator.get_node_shards("a").unwrap().len(), 342);
    assert_eq!(coordinator.get_node_shards("b").unwrap().len(), 341);
    assert_eq!(coordinator.get_node_shards("c").unwrap().len(), 341);
    assert_eq!(coordinator.get_node_shards("d"), None);
}

#[test]
fn ids_are_ordered_byte_by_byte() {
    let mut coordinator = Coordinator::new(local(8080));
    for id in ["b", "", "ab", "a", "B", "é"] {
        coordinator.add_node(id.to_string(), local(1)).unwrap();
    }
    let sorted = ["", "B", "a", "ab", "b", "é"];
    for shard in 0..12u64 {
        assert_eq!(coordinator.get_shard_owner(shard).unwrap(), sorted[(shard % 6) as usize]);
    }
}

#[test]
fn every_shard_has_exactly_one_owner_after_each_change() {
    let mut coordinator = Coordinator::new(local(8080));
    let steps: [(bool, &str); 7] =
        [(true, "n1"), (true, "n2"), (true, "n3"), (false, "n2"), (true, "n4"), (false, "n1"), (false, "n3")];
    let mut present: Vec<&str> = Vec::new();
    for (add, id) in steps {
        if add {
            coordinator.add_node(id.to_string(), local(1)).unwrap();
            present.push(id);
        } else {
            coordinator.remove_node(id).unwrap();
            present.retain(|n| *n != id);
        }
        let owners = coordinator.get_shard_owners();
        assert_eq!(owners.len(), 1024);
        for shard in 0..1024u64 {
            let holders: Vec<&&str> = present
                .iter()
                .filter(|id| coordinator.get_node_shards(id).unwrap().contains(&shard))
                .collect();
            assert_eq!(holders.len(), 1);
            assert_eq!(owners[&shard], **holders[0]);
        }
        let total: usize = present.iter().map(|id| coordinator.get_node_shards(id).unwrap().len()).sum();
        assert_eq!(total, 1024);
    }
}

#[test]
fn three_nodes_then_one_leaves() {
    let mut coordinator = Coordinator::new(local(8080));
    assert!(coordinator.get_shard_owners().is_empty());
    for id in ["n1", "n2", "n3"] {
        coordinator.add_node(id.to_string(), local(1)).unwrap();
    }
    let owners = coordinator.get_shard_owners();
    for shard in 0..1024u64 {
        assert!(owners.contains_key(&shard));
    }
    for id in ["n1", "n2", "n3"] {
        assert!(!coordinator.get_node_shards(id).unwrap().is_empty());
    }
    let left = coordinator.get_node_shards("n2").unwrap();
    coordinator.remove_node("n2").unwrap();
    assert_eq!(coordinator.get_node_shards("n2"), None);
    let owners = coordinator.get_shard_owners();
    assert_eq!(owners.len(), 1024);
    for shard in 0..1024u64 {
        assert!(owners[&shard] == "n1" || owners[&shard] == "n3");
    }
    let n1 = coordinator.get_node_shards("n1").unwrap();
    let n3 = coordinator.get_node_shards("n3").unwrap();
    for shard in &left {
        assert!(n1.contains(shard) != n3.contains(shard));
    }
    assert_eq!(n1.len() + n3.len(), 1024);
}

#[test]
fn removing_the_last_node_empties_the_assignment() {
    let mut coordinator = Coordinator::new(local(8080));
    coordinator.add_node("only".to_string(), local(1)).unwrap();
    assert_eq!(coordinator.get_node_shards("only").unwrap().len(), 1024);
    coordinator.remove_node("only").unwrap();
    assert!(coordinator.get_shard_owners().is_empty());
    assert_eq!(coordinator.get_shard_owner(0), None);
    assert_eq!(coordinator.node_count(), 0);
}
