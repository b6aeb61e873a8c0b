//! Cluster membership, shard assignment and key routing.

pub mod cluster;
pub mod coordinator;
pub mod names;
pub mod node;
pub mod sharding;

use std::collections::hash_map::DefaultHasher;
use std::collections::HashMap;
use std::hash::Hasher;
use vstd::prelude::*;
use vstd::std_specs::hash::DefaultHasherAdditionalSpecFns;
use vstd::string::StringSliceAdditionalSpecFns;

verus! {

/// The size of the shard space: shard ids are `0 .. SHARD_COUNT`.
pub const SHARD_COUNT: u64 = 1024;

/// The byte that closes a key in the hasher's input, so that no key's input
/// is a prefix of another's.
pub const KEY_TERMINATOR: u8 = 0xff;

/// The 64-bit hash of a key: what the standard library's default hasher
/// gives after the key's bytes and the terminator were written to it.
pub open spec fn spec_hash_key(key: Seq<char>) -> u64 {
    DefaultHasher::spec_finish(seq![vstd::utf8::encode_utf8(key), seq![KEY_TERMINATOR]])
}

/// The shard that a key falls into.
pub open spec fn spec_shard_for_key(key: Seq<char>) -> u64 {
    (spec_hash_key(key) % SHARD_COUNT) as u64
}

/// Hashes a key to a 64-bit position.
pub fn hash_key(key: &str) -> (h: u64)
    ensures
        h == spec_hash_key(key@),
{
    let mut hasher = DefaultHasher::new();
    hasher.write(key.as_bytes());
    let terminator: [u8; 1] = [KEY_TERMINATOR];
    let tail = terminator.as_slice();
    assert(tail@ =~= seq![KEY_TERMINATOR]);
    hasher.write(tail);
    assert(hasher@ =~= seq![vstd::utf8::encode_utf8(key@), seq![KEY_TERMINATOR]]);
    hasher.finish()
}

/// The shard that `key` falls into: its hash modulo `SHARD_COUNT`. Every
/// part of the cluster routes by this one function.
pub fn shard_for_key(key: &str) -> (shard: u64)
    ensures
        shard == spec_shard_for_key(key@),
        shard < SHARD_COUNT,
{
    hash_key(key) % SHARD_COUNT
}

/// The host part of a network endpoint, as the integer of its address.
#[derive(Clone, Copy, Debug, PartialEq, Eq, Hash, Structural)]
pub enum Host {
    /// An IPv4 address; the first octet is the most significant byte.
    V4(u32),
    /// An IPv6 address; the first segment holds the most significant bits.
    V6(u128),
}

/// A network endpoint: where a node or the coordinator can be reached.
#[derive(Clone, Copy, Debug, PartialEq, Eq, Hash, Structural)]
pub struct Endpoint {
    pub host: Host,
    pub port: u16,
}

impl Endpoint {
    /// The IPv4 endpoint `a.b.c.d:port`.
    pub open spec fn spec_v4(a: u8, b: u8, c: u8, d: u8, port: u16) -> Endpoint {
        Endpoint {
            host: Host::V4((a as u32 * 0x100_0000 + b as u32 * 0x1_0000 + c as u32 * 0x100 + d as u32) as u32),
            port,
        }
    }

    /// The IPv4 endpoint `a.b.c.d:port`.
    pub fn v4(a: u8, b: u8, c: u8, d: u8, port: u16) -> (r: Endpoint)
        ensures
            r == Endpoint::spec_v4(a, b, c, d, port),
    {
        Endpoint {
            host: Host::V4(a as u32 * 0x100_0000 + b as u32 * 0x1_0000 + c as u32 * 0x100 + d as u32),
            port,
        }
    }
}

/// Why a membership or networking operation was refused.
#[derive(Clone, Copy, Debug, PartialEq, Eq, Structural)]
pub enum ClusterError {
    /// A node with this id is in the cluster already.
    DuplicateNode,
    /// No node with this id is in the cluster.
    UnknownNode,
    /// The coordinator did not admit the node, or the exchange with it failed.
    JoinFailed,
    /// No connection to the peer has been made.
    NoConnection,
}

impl ClusterError {
    /// The error in words.
    pub fn message(&self) -> (text: &'static str)
        ensures
            *self == ClusterError::DuplicateNode ==> text@ == "Node already exists"@,
            *self == ClusterError::UnknownNode ==> text@ == "Node not found"@,
            *self == ClusterError::JoinFailed ==> text@ == "Failed to join cluster"@,
            *self == ClusterError::NoConnection ==> text@ == "No connection to node"@,
    {
        match self {
            ClusterError::DuplicateNode => "Node already exists",
            ClusterError::UnknownNode => "Node not found",
            ClusterError::JoinFailed => "Failed to join cluster",
            ClusterError::NoConnection => "No connection to node",
        }
    }
}

/// What nodes and the coordinator say to each other.
#[derive(Debug)]
#[allow(inconsistent_fields)]
pub enum Message {
    /// A node asks to be admitted.
    JoinRequest { node_id: String, addr: Endpoint },
    /// The coordinator's answer, with the owner of every shard.
    JoinResponse { success: bool, shard_map: HashMap<u64, String> },
    /// A value is handed to a replica.
    Replicate { key: String, value: Vec<u8> },
    /// A value is handed on to the owner of its shard.
    Forward { key: String, value: Vec<u8> },
    /// A node asks for the value of a key.
    Query { key: String },
    /// The answer to a query.
    QueryResponse { value: Option<Vec<u8>> },
}

/// Makes a new node id with `uuid::Uuid::new_v4` and writes it out with the
/// crate's `Display`: the hyphenated form, which is 36 characters long. The
/// id is random, so nothing else is claimed of it.
#[verifier::external_body]
pub(crate) fn fresh_node_id() -> (id: String)
    ensures
        id@.len() == 36,
{
    uuid::Uuid::new_v4().to_string()
}

} // verus!
