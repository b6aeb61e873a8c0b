use fabric::distributed::cluster::Cluster;
use fabric::distributed::{shard_for_key, ClusterError, Endpoint};

fn local(port: u16) -> Endpoint {
    Endpoint::v4(127, 0, 0, 1, port)
}

#[test]
fn test_cluster_join_leave() {
    let addr = local(8080);
    let mut cluster = Cluster::new(addr);

    let node_addr = local(8081);
    cluster.join(node_addr).unwrap();

    assert_eq!(cluster.node_count(), 1);

    let node_id = cluster.node_ids()[0].clone();

    cluster.leave(&node_id).unwrap();
    assert_eq!(cluster.node_count(), 0);
}

#[test]
fn join_makes_a_new_id_each_time() {
    let mut cluster = Cluster::new(local(8080));
    cluster.join(local(8081)).unwrap();
    cluster.join(local(8082)).unwrap();
    let ids = cluster.node_ids();
    assert_eq!(ids.len(), 2);
    assert_eq!(ids[0].len(), 36);
    assert_eq!(ids[1].len(), 36);
    assert_ne!(ids[0], ids[1]);
    assert_eq!(cluster.coordinator().node_count(), 2);
    assert_eq!(cluster.coordinator().addr(), local(8080));
}

#[test]
fn join_as_propagates_the_coordinators_refusal() {
    let mut cluster = Cluster::new(local(8080));
    assert_eq!(cluster.join_as("a".to_string(), local(1)), Ok(()));
    assert_eq!(cluster.join_as("a".to_string(), local(2)), Err(ClusterError::DuplicateNode));
    assert_eq!(cluster.node_count(), 1);
    // The table holds the node as it was registered last.
    let node = cluster.get_node_for_key("any").unwrap();
    assert_eq!(node.id, "a");
    assert_eq!(node.addr, local(2));
    // The coordinator keeps the address it admitted the node under.
    assert_eq!(cluster.coordinator().get_node_addr("a"), Some(local(1)));
}

#[test]
fn leave_of_an_unknown_node_changes_nothing() {
    let mut cluster = Cluster::new(local(8080));
    cluster.join_as("a".to_string(), local(1)).unwrap();
    assert_eq!(cluster.leave("b"), Err(ClusterError::UnknownNode));
    assert_eq!(cluster.node_ids(), vec!["a".to_string()]);
    assert_eq!(cluster.leave("a"), Ok(()));
    assert_eq!(cluster.leave("a"), Err(ClusterError::UnknownNode));
}

#[test]
fn key_is_routed_to_the_owner_of_its_shard() {
    let mut cluster = Cluster::new(local(8080));
    assert!(cluster.get_node_for_key("test_key").is_none());
    cluster.join_as("n2".to_string(), local(2)).unwrap();
    cluster.join_as("n1".to_string(), local(1)).unwrap();
    cluster.join_as("n3".to_string(), local(3)).unwrap();
    let sorted = [("n1", 1u16), ("n2", 2), ("n3", 3)];
    for key in ["test_key", "a", "b", "c", "d", "e"] {
        let shard = shard_for_key(key);
        let (id, port) = sorted[(shard % 3) as usize];
        let node = cluster.get_node_for_key(key).unwrap();
        assert_eq!(node.id, id);
        assert_eq!(node.addr, local(port));
        assert!(node.shards.is_empty());
        assert_eq!(cluster.coordinator().get_shard_owner(shard).unwrap(), id);
    }
    cluster.leave("n1").unwrap();
    cluster.leave("n2").unwrap();
    assert_eq!(cluster.get_node_for_key("test_key").unwrap().id, "n3");
    cluster.leave("n3").unwrap();
    assert!(cluster.get_node_for_key("test_key").is_none());
}
