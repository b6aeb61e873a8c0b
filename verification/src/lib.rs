//! Fabric: a shard-partitioned search-and-document cluster core.
//!
//! The crate holds the cluster's decision logic: the consistent-hash ring,
//! the coordinator's shard assignment, the per-node routing rules, the fuzzy
//! scorer with its in-memory index and rolling metrics, and the document
//! table. Every function is verified against the contract written on it,
//! but for the few that read a clock, ask the machine for its CPUs or draw
//! a random id: those say so, and their contracts are taken on trust.

pub mod config;
pub mod distributed;
pub mod kernel;
pub mod persistence;
pub mod search;
