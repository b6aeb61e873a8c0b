use fabric::distributed::node::{Node, StoreAction};
use fabric::distributed::{shard_for_key, ClusterError, Endpoint, Message};
use std::collections::HashMap;

fn local(port: u16) -> Endpoint {
    Endpoint::v4(127, 0, 0, 1, port)
}

#[test]
fn test_node_creation() {
    let addr = local(8080);
    let node = Node::new(addr);

    assert_eq!(node.addr, addr);
    assert!(!node.id.is_empty());
}

#[test]
fn test_shard_assignment() {
    let addr = local(8080);
    let mut node = Node::new(addr);

    let mut shard_map = HashMap::new();
    shard_map.insert(1, node.id.clone());
    shard_map.insert(2, node.id.clone());

    node.process_shard_map(shard_map);

    assert_eq!(node.shards.len(), 2);
    assert!(node.shards.contains(&1));
    assert!(node.shards.contains(&2));
}

#[test]
fn new_nodes_get_distinct_ids_of_36_characters() {
    let a = Node::new(local(1));
    let b = Node::new(local(2));
    assert_eq!(a.id.len(), 36);
    assert_eq!(b.id.len(), 36);
    assert_ne!(a.id, b.id);
    assert!(a.shards.is_empty() && a.connections.is_empty());
    let named = Node::with_id("n1".to_string(), local(3));
    assert_eq!(named.id, "n1");
    assert_eq!(named.addr, local(3));
}

#[test]
fn shard_map_is_filtered_by_owner() {
    let mut node = Node::with_id("me".to_string(), local(1));
    node.shards = vec![7, 8, 9];
    let mut shard_map = HashMap::new();
    shard_map.insert(1, "me".to_string());
    shard_map.insert(2, "other".to_string());
    shard_map.insert(5000, "me".to_string());
    shard_map.insert(3, "Me".to_string());
    node.process_shard_map(shard_map);
    let mut shards = node.shards.clone();
    shards.sort();
    assert_eq!(shards, vec![1, 5000]);
    node.process_shard_map(HashMap::new());
    assert!(node.shards.is_empty());
}

#[test]
fn send_needs_a_connection() {
    let mut node = Node::with_id("me".to_string(), local(1));
    let peer = local(2);
    let refused = node.send_message(&peer, Message::Query { key: "k".to_string() });
    assert_eq!(refused.unwrap_err(), ClusterError::NoConnection);
    node.connect(peer);
    node.connect(peer);
    assert_eq!(node.connections, vec![peer]);
    let sent = node.send_message(&peer, Message::Query { key: "k".to_string() }).unwrap();
    assert_eq!(sent.peer, peer);
    assert!(matches!(sent.message, Message::Query { key } if key == "k"));
    assert!(node.send_message(&local(3), Message::Query { key: "k".to_string() }).is_err());
}

#[test]
fn join_request_names_the_node() {
    let node = Node::with_id("me".to_string(), local(1));
    match node.join_request() {
        Message::JoinRequest { node_id, addr } => {
            assert_eq!(node_id, "me");
            assert_eq!(addr, local(1));
        }
        other => panic!("unexpected message {:?}", other),
    }
}

#[test]
fn join_adopts_the_shards_of_a_successful_response() {
    let mut node = Node::with_id("me".to_string(), local(1));
    let mut shard_map = HashMap::new();
    shard_map.insert(0, "me".to_string());
    shard_map.insert(1, "you".to_string());
    shard_map.insert(2, "me".to_string());
    let reply = Message::JoinResponse { success: true, shard_map };
    assert_eq!(node.join_cluster(Some(reply)), Ok(()));
    let mut shards = node.shards.clone();
    shards.sort();
    assert_eq!(shards, vec![0, 2]);
    assert!(node.owns_shard(0) && !node.owns_shard(1) && node.owns_shard(2));
}

#[test]
fn join_fails_on_anything_else() {
    let mut node = Node::with_id("me".to_string(), local(1));
    node.shards = vec![4];
    let mut shard_map = HashMap::new();
    shard_map.insert(0, "me".to_string());
    let refused = Message::JoinResponse { success: false, shard_map };
    assert_eq!(node.join_cluster(Some(refused)), Err(ClusterError::JoinFailed));
    assert_eq!(node.join_cluster(None), Err(ClusterError::JoinFailed));
    let wrong = Message::QueryResponse { value: None };
    assert_eq!(node.join_cluster(Some(wrong)), Err(ClusterError::JoinFailed));
    assert_eq!(node.shards, vec![4]);
}

#[test]
fn store_goes_local_or_forward_by_shard() {
    let mut node = Node::with_id("me".to_string(), local(1));
    let shard = shard_for_key("test_key");
    match node.store_data("test_key", vec![1, 2, 3]) {
        StoreAction::Forward { shard: s, message: Message::Forward { key, value } } => {
            assert_eq!(s, shard);
            assert_eq!(key, "test_key");
            assert_eq!(value, vec![1, 2, 3]);
        }
        other => panic!("unexpected action {:?}", other),
    }
    node.shards = vec![shard];
    match node.store_data("test_key", vec![1, 2, 3]) {
        StoreAction::Local { key, value } => {
            assert_eq!(key, "test_key");
            assert_eq!(value, vec![1, 2, 3]);
        }
        other => panic!("unexpected action {:?}", other),
    }
}
