//! One member of the cluster: the shards it owns, the peers it is connected
//! to, and the rules by which it routes what it is given.

use super::{fresh_node_id, shard_for_key, spec_shard_for_key, ClusterError, Endpoint, Message};
use std::collections::HashMap;
use vstd::prelude::*;
use vstd::std_specs::iter::IteratorSpec;

verus! {

broadcast use vstd::std_specs::hash::group_hash_axioms;

/// A member of the cluster.
#[derive(Debug)]
pub struct Node {
    pub id: String,
    pub addr: Endpoint,
    /// The shards that the node owns, as it last learned them.
    pub shards: Vec<u64>,
    /// The peers to which a connection has been made.
    pub connections: Vec<Endpoint>,
}

/// A node as plain values.
pub struct NodeView {
    pub id: Seq<char>,
    pub addr: Endpoint,
    pub shards: Seq<u64>,
    pub connections: Seq<Endpoint>,
}

impl View for Node {
    type V = NodeView;

    open spec fn view(&self) -> NodeView {
        NodeView {
            id: self.id@,
            addr: self.addr,
            shards: self.shards@,
            connections: self.connections@,
        }
    }
}

impl Clone for Node {
    fn clone(&self) -> (r: Self)
        ensures
            r@ == self@,
    {
        let shards = self.shards.clone();
        let connections = self.connections.clone();
        assert(shards@ =~= self.shards@);
        assert(connections@ =~= self.connections@);
        Node { id: self.id.clone(), addr: self.addr, shards, connections }
    }
}

/// A message on its way to a peer.
#[derive(Debug)]
pub struct Outbound {
    pub peer: Endpoint,
    pub message: Message,
}

/// What is to be done with a value that a node was given to store.
#[derive(Debug)]
pub enum StoreAction {
    /// The node owns the key's shard: the value goes into its own store.
    Local { key: String, value: Vec<u8> },
    /// Another node owns the shard: the message goes to that shard's owner.
    Forward { shard: u64, message: Message },
}

/// The shards that `shard_map` gives to the node `id`.
pub open spec fn owned_by(shard_map: Map<u64, String>, id: Seq<char>) -> Set<u64> {
    Set::new(|k: u64| shard_map.contains_key(k) && shard_map[k]@ == id)
}

/// The shards of `id` among the first `n` of `pairs`, in their order.
pub open spec fn owned_prefix(pairs: Seq<(&u64, &String)>, id: Seq<char>, n: int) -> Seq<u64>
    decreases n,
{
    if n <= 0 {
        Seq::empty()
    } else {
        let before = owned_prefix(pairs, id, n - 1);
        if pairs[n - 1].1@ == id {
            before.push(*pairs[n - 1].0)
        } else {
            before
        }
    }
}

/// `k` is the shard of one of the first `n` pairs, and `id` its owner.
pub open spec fn is_owned_among(pairs: Seq<(&u64, &String)>, id: Seq<char>, n: int, k: u64) -> bool {
    exists|i: int| 0 <= i < n && *(#[trigger] pairs[i]).0 == k && pairs[i].1@ == id
}

proof fn lemma_owned_prefix(pairs: Seq<(&u64, &String)>, id: Seq<char>, n: int)
    requires
        0 <= n <= pairs.len(),
        forall|i: int, j: int|
            0 <= i < j < pairs.len() ==> *(#[trigger] pairs[i]).0 != *(#[trigger] pairs[j]).0,
    ensures
        owned_prefix(pairs, id, n).no_duplicates(),
        forall|k: u64| #[trigger]
            owned_prefix(pairs, id, n).contains(k) <==> is_owned_among(pairs, id, n, k),
    decreases n,
{
    if n > 0 {
        lemma_owned_prefix(pairs, id, n - 1);
        let before = owned_prefix(pairs, id, n - 1);
        let now = owned_prefix(pairs, id, n);
        assert forall|k: u64| is_owned_among(pairs, id, n - 1, k) implies is_owned_among(
            pairs,
            id,
            n,
            k,
        ) by {
            let i = choose|i: int| 0 <= i < n - 1 && *(#[trigger] pairs[i]).0 == k && pairs[i].1@ == id;
            assert(0 <= i < n && *pairs[i].0 == k && pairs[i].1@ == id);
        }
        if pairs[n - 1].1@ == id {
            let key = *pairs[n - 1].0;
            assert(now == before.push(key));
            assert(is_owned_among(pairs, id, n, key));
            assert(!before.contains(key)) by {
                if before.contains(key) {
                    let i = choose|i: int|
                        0 <= i < n - 1 && *(#[trigger] pairs[i]).0 == key && pairs[i].1@ == id;
                    assert(*pairs[i].0 != *pairs[n - 1].0);
                }
            }
            assert forall|a: int, b: int| 0 <= a < now.len() && 0 <= b < now.len() && a
                != b implies now[a] != now[b] by {
                if a < before.len() && b < before.len() {
                    assert(before[a] != before[b]);
                } else if a < before.len() {
                    assert(before.contains(before[a]));
                } else {
                    assert(before.contains(before[b]));
                }
            }
            assert forall|k: u64| #[trigger] now.contains(k) <==> is_owned_among(pairs, id, n, k) by {
                if now.contains(k) {
                    let a = choose|a: int| 0 <= a < now.len() && now[a] == k;
                    if a < before.len() {
                        assert(before[a] == k);
                        assert(before.contains(k));
                    }
                }
                if is_owned_among(pairs, id, n, k) {
                    let i = choose|i: int| 0 <= i < n && *(#[trigger] pairs[i]).0 == k && pairs[i].1@ == id;
                    if i < n - 1 {
                        assert(is_owned_among(pairs, id, n - 1, k));
                        assert(before.contains(k));
                        let a = choose|a: int| 0 <= a < before.len() && before[a] == k;
                        assert(now[a] == k);
                    } else {
                        assert(now[now.len() - 1] == k);
                    }
                }
            }
        } else {
            assert(now == before);
            assert forall|k: u64| #[trigger] now.contains(k) <==> is_owned_among(pairs, id, n, k) by {
                if is_owned_among(pairs, id, n, k) {
                    let i = choose|i: int| 0 <= i < n && *(#[trigger] pairs[i]).0 == k && pairs[i].1@ == id;
                    assert(i < n - 1);
                    assert(is_owned_among(pairs, id, n - 1, k));
                }
            }
        }
    }
}

fn holds(items: &Vec<u64>, wanted: u64) -> (r: bool)
    ensures
        r == items@.contains(wanted),
{
    let mut i: usize = 0;
    while i < items.len()
        invariant
            i <= items@.len(),
            forall|j: int| 0 <= j < i ==> items@[j] != wanted,
        decreases items@.len() - i,
    {
        if items[i] == wanted {
            return true;
        }
        i = i + 1;
    }
    false
}

fn holds_endpoint(items: &Vec<Endpoint>, wanted: &Endpoint) -> (r: bool)
    ensures
        r == items@.contains(*wanted),
{
    let mut i: usize = 0;
    while i < items.len()
        invariant
            i <= items@.len(),
            forall|j: int| 0 <= j < i ==> items@[j] != *wanted,
        decreases items@.len() - i,
    {
        if items[i] == *wanted {
            return true;
        }
        i = i + 1;
    }
    false
}

impl Node {
    /// A node at `addr` under a new random id, with no shards and no
    /// connections.
    pub fn new(addr: Endpoint) -> (r: Node)
        ensures
            r.addr == addr,
            r.id@.len() == 36,
            r.shards@.len() == 0,
            r.connections@.len() == 0,
    {
        Node::with_id(fresh_node_id(), addr)
    }

    /// A node at `addr` under the id `id`, with no shards and no
    /// connections.
    pub fn with_id(id: String, addr: Endpoint) -> (r: Node)
        ensures
            r.id == id,
            r.addr == addr,
            r.shards@.len() == 0,
            r.connections@.len() == 0,
    {
        Node { id, addr, shards: Vec::new(), connections: Vec::new() }
    }

    /// Records that a connection to `addr` has been made. One connection is
    /// kept for each peer.
    pub fn connect(&mut self, addr: Endpoint)
        ensures
            final(self).id == old(self).id,
            final(self).addr == old(self).addr,
            final(self).shards == old(self).shards,
            final(self).connections@ == if old(self).connections@.contains(addr) {
                old(self).connections@
            } else {
                old(self).connections@.push(addr)
            },
            final(self).connections@.contains(addr),
    {
        if !holds_endpoint(&self.connections, &addr) {
            self.connections.push(addr);
            assert(self.connections@[self.connections@.len() - 1] == addr);
        }
    }

    /// Decides whether `message` may go to the peer at `addr`: it may where
    /// a connection to that peer has been made, and is refused with
    /// `NoConnection` otherwise.
    pub fn send_message(&self, addr: &Endpoint, message: Message) -> (r: Result<
        Outbound,
        ClusterError,
    >)
        ensures
            self.connections@.contains(*addr) ==> r == Ok::<Outbound, ClusterError>(
                Outbound { peer: *addr, message },
            ),
            !self.connections@.contains(*addr) ==> r == Err::<Outbound, ClusterError>(
                ClusterError::NoConnection,
            ),
    {
        if holds_endpoint(&self.connections, addr) {
            Ok(Outbound { peer: *addr, message })
        } else {
            Err(ClusterError::NoConnection)
        }
    }

    /// The request by which the node asks the coordinator to admit it.
    pub fn join_request(&self) -> (r: Message)
        ensures
            r matches Message::JoinRequest { node_id, addr } && node_id == self.id && addr
                == self.addr,
    {
        Message::JoinRequest { node_id: self.id.clone(), addr: self.addr }
    }

    /// Takes over the shards that `shard_map` gives to this node, in place
    /// of those it had.
    pub fn process_shard_map(&mut self, shard_map: HashMap<u64, String>)
        ensures
            final(self).id == old(self).id,
            final(self).addr == old(self).addr,
            final(self).connections == old(self).connections,
            final(self).shards@.to_set() == owned_by(shard_map@, old(self).id@),
            final(self).shards@.no_duplicates(),
    {
        let mut shards: Vec<u64> = Vec::new();
        let ghost pairs = shard_map.iter().remaining();
        for pair in it: shard_map.iter()
            invariant
                it.seq() == pairs,
                shards@ == owned_prefix(pairs, self.id@, it.index() as int),
        {
            let (shard, owner) = pair;
            if *owner == self.id {
                shards.push(*shard);
            }
        }
        proof {
            let id = self.id@;
            assert forall|i: int, j: int| 0 <= i < j < pairs.len() implies *(
            #[trigger] pairs[i]).0 != *(#[trigger] pairs[j]).0 by {
                assert(shard_map@.contains_key(*pairs[i].0) && shard_map@[*pairs[i].0]
                    == *pairs[i].1);
                assert(shard_map@.contains_key(*pairs[j].0) && shard_map@[*pairs[j].0]
                    == *pairs[j].1);
                if *pairs[i].0 == *pairs[j].0 {
                    assert(pairs[i] == pairs[j]);
                }
            }
            lemma_owned_prefix(pairs, id, pairs.len() as int);
            assert forall|k: u64| shards@.to_set().contains(k) == owned_by(shard_map@, id).contains(
                k,
            ) by {
                if shards@.contains(k) {
                    assert(is_owned_among(pairs, id, pairs.len() as int, k));
                    let i = choose|i: int|
                        0 <= i < pairs.len() && *(#[trigger] pairs[i]).0 == k && pairs[i].1@ == id;
                    assert(shard_map@.contains_key(*pairs[i].0) && shard_map@[*pairs[i].0]
                        == *pairs[i].1);
                }
                if owned_by(shard_map@, id).contains(k) {
                    assert(pairs.contains((&k, &shard_map@[k])));
                    let i = choose|i: int| 0 <= i < pairs.len() && pairs[i] == (&k, &shard_map@[k]);
                    assert(*pairs[i].0 == k && pairs[i].1@ == id);
                    assert(is_owned_among(pairs, id, pairs.len() as int, k));
                }
            }
            assert(shards@.to_set() =~= owned_by(shard_map@, id));
        }
        self.shards = shards;
    }

    /// Ends the join: `reply` is the one message that came back to the join
    /// request, or `None` where the exchange failed or what came could not
    /// be read. On a `JoinResponse` that admits the node, it takes over the
    /// shards that the response gives it. On anything else the join has
    /// failed and the node stays as it was.
    pub fn join_cluster(&mut self, reply: Option<Message>) -> (r: Result<(), ClusterError>)
        ensures
            final(self).id == old(self).id,
            final(self).addr == old(self).addr,
            final(self).connections == old(self).connections,
            reply matches Some(Message::JoinResponse { success: true, shard_map }) ==> {
                &&& r == Ok::<(), ClusterError>(())
                &&& final(self).shards@.to_set() == owned_by(shard_map@, old(self).id@)
                &&& final(self).shards@.no_duplicates()
            },
            !(reply matches Some(Message::JoinResponse { success: true, shard_map })) ==> {
                &&& r == Err::<(), ClusterError>(ClusterError::JoinFailed)
                &&& final(self).shards == old(self).shards
            },
    {
        match reply {
            Some(Message::JoinResponse { success, shard_map }) => {
                if success {
                    self.process_shard_map(shard_map);
                    Ok(())
                } else {
                    Err(ClusterError::JoinFailed)
                }
            },
            _ => Err(ClusterError::JoinFailed),
        }
    }

    /// Tells whether the node owns `shard`, as far as it knows.
    pub fn owns_shard(&self, shard: u64) -> (r: bool)
        ensures
            r == self.shards@.contains(shard),
    {
        holds(&self.shards, shard)
    }

    /// Decides where a value goes: into the node's own store where the node
    /// owns the shard of `key`, and else, in a `Forward` message, to the
    /// owner of that shard.
    pub fn store_data(&self, key: &str, value: Vec<u8>) -> (r: StoreAction)
        ensures
            self.shards@.contains(spec_shard_for_key(key@)) ==> (r matches StoreAction::Local {
                key: k,
                value: v,
            } && k@ == key@ && v == value),
            !self.shards@.contains(spec_shard_for_key(key@)) ==> (r matches StoreAction::Forward {
                shard,
                message: Message::Forward { key: k, value: v },
            } && shard == spec_shard_for_key(key@) && k@ == key@ && v == value),
    {
        let shard = shard_for_key(key);
        if holds(&self.shards, shard) {
            StoreAction::Local { key: key.to_owned(), value }
        } else {
            StoreAction::Forward {
                shard,
                message: Message::Forward { key: key.to_owned(), value },
            }
        }
    }
}

} // verus!
