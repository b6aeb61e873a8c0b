//! The coordinator: the authoritative membership table and the assignment of
//! every shard to one node.

use super::names::{
    is_name_less, lemma_bytes_less_total, lemma_bytes_less_transitive, lemma_name_from_bytes,
    name_less,
};
use super::{ClusterError, Endpoint, SHARD_COUNT};
use std::collections::{HashMap, HashSet};
use vstd::prelude::*;
use vstd::utf8::encode_utf8;

verus! {

broadcast use vstd::std_specs::hash::group_hash_axioms;

/// A member of the cluster: its id and where it can be reached.
pub struct NodeRecord {
    pub node_id: String,
    pub addr: Endpoint,
}

/// The ids rise strictly in the order of `name_less`.
pub open spec fn ids_sorted(ids: Seq<Seq<char>>) -> bool {
    forall|a: int, b: int| 0 <= a < b < ids.len() ==> name_less(#[trigger] ids[a], #[trigger] ids[b])
}

/// There is one enumeration of a set of ids: two lists that rise strictly
/// and hold the same ids are the same list. So the assignment follows from
/// who the members are, not from the order in which they joined.
pub proof fn lemma_enumeration_unique(a: Seq<Seq<char>>, b: Seq<Seq<char>>)
    requires
        ids_sorted(a),
        ids_sorted(b),
        forall|id: Seq<char>| a.contains(id) <==> b.contains(id),
    ensures
        a == b,
    decreases a.len(),
{
    if a.len() == 0 {
        if b.len() > 0 {
            assert(b.contains(b[0]));
        }
        assert(a =~= b);
    } else {
        let top = a.last();
        assert(a.contains(top));
        assert(b.contains(top));
        let j = choose|j: int| 0 <= j < b.len() && b[j] == top;
        if j < b.len() - 1 {
            let other = b.last();
            assert(name_less(b[j], other));
            assert(b.contains(other));
            assert(a.contains(other));
            let i = choose|i: int| 0 <= i < a.len() && a[i] == other;
            lemma_bytes_less_total(encode_utf8(top), encode_utf8(other));
            if i < a.len() - 1 {
                assert(name_less(a[i], top));
            }
            assert(false);
        }
        let a0 = a.drop_last();
        let b0 = b.drop_last();
        assert forall|id: Seq<char>| a0.contains(id) <==> b0.contains(id) by {
            lemma_bytes_less_total(encode_utf8(id), encode_utf8(top));
            if a0.contains(id) {
                let i = choose|i: int| 0 <= i < a0.len() && a0[i] == id;
                assert(a[i] == id);
                assert(name_less(a[i], top));
                assert(a.contains(id));
                assert(b.contains(id));
                let k = choose|k: int| 0 <= k < b.len() && b[k] == id;
                assert(k < b.len() - 1);
                assert(b0[k] == id);
            }
            if b0.contains(id) {
                let k = choose|k: int| 0 <= k < b0.len() && b0[k] == id;
                assert(b[k] == id);
                assert(name_less(b[k], b[j]));
                assert(b.contains(id));
                assert(a.contains(id));
                let i = choose|i: int| 0 <= i < a.len() && a[i] == id;
                assert(i < a.len() - 1);
                assert(a0[i] == id);
            }
        }
        assert forall|x: int, y: int| 0 <= x < y < a0.len() implies name_less(
            #[trigger] a0[x],
            #[trigger] a0[y],
        ) by {
            assert(name_less(a[x], a[y]));
        }
        assert forall|x: int, y: int| 0 <= x < y < b0.len() implies name_less(
            #[trigger] b0[x],
            #[trigger] b0[y],
        ) by {
            assert(name_less(b[x], b[y]));
        }
        lemma_enumeration_unique(a0, b0);
        assert(a =~= a0.push(top));
        assert(b =~= b0.push(top));
    }
}

/// The round-robin assignment over the node ids in their enumeration order:
/// shard `k` goes to the node at index `k mod n`. With no node there is no
/// assignment.
pub open spec fn round_robin(ids: Seq<Seq<char>>) -> Map<u64, Seq<char>> {
    if ids.len() == 0 {
        Map::empty()
    } else {
        Map::new(|k: u64| k < SHARD_COUNT, |k: u64| ids[k as int % ids.len() as int])
    }
}

/// The shards that round-robin over `n` nodes gives to the node at `index`.
pub open spec fn shards_of(index: int, n: int) -> Set<u64> {
    Set::new(|k: u64| k < SHARD_COUNT && k as int % n == index)
}

/// A map of shard owners with each owner's id as a plain sequence.
pub open spec fn owners_view(owners: Map<u64, String>) -> Map<u64, Seq<char>> {
    Map::new(|k: u64| owners.contains_key(k), |k: u64| owners[k]@)
}

/// The ids of a list of node records.
pub open spec fn record_ids(records: Seq<NodeRecord>) -> Seq<Seq<char>> {
    Seq::new(records.len(), |i: int| records[i].node_id@)
}

/// The addresses of a list of node records.
pub open spec fn record_addrs(records: Seq<NodeRecord>) -> Seq<Endpoint> {
    Seq::new(records.len(), |i: int| records[i].addr)
}

/// Owns the cluster's membership and the shard assignment computed from it.
pub struct Coordinator {
    addr: Endpoint,
    nodes: Vec<NodeRecord>,
    node_shards: Vec<HashSet<u64>>,
    shard_map: HashMap<u64, String>,
}

impl Coordinator {
    /// Where the coordinator itself can be reached.
    pub closed spec fn spec_addr(&self) -> Endpoint {
        self.addr
    }

    /// The ids of the members in their enumeration order.
    pub closed spec fn spec_node_ids(&self) -> Seq<Seq<char>> {
        record_ids(self.nodes@)
    }

    /// The addresses of the members, in the order of `spec_node_ids`.
    pub closed spec fn spec_node_addrs(&self) -> Seq<Endpoint> {
        record_addrs(self.nodes@)
    }

    /// The owner of each shard.
    pub closed spec fn spec_shard_map(&self) -> Map<u64, Seq<char>> {
        owners_view(self.shard_map@)
    }

    /// The shard set of each member, in the order of `spec_node_ids`.
    pub closed spec fn spec_node_shards(&self) -> Seq<Set<u64>> {
        Seq::new(self.node_shards@.len(), |i: int| self.node_shards@[i]@)
    }

    /// The members are enumerated in rising order of id, and both views of
    /// the assignment are the round-robin over that enumeration.
    pub closed spec fn wf(&self) -> bool {
        &&& ids_sorted(self.spec_node_ids())
        &&& self.spec_shard_map() == round_robin(self.spec_node_ids())
        &&& self.spec_node_shards() == Seq::new(
            self.spec_node_ids().len(),
            |i: int| shards_of(i, self.spec_node_ids().len() as int),
        )
    }

    /// What a well-formed coordinator guarantees to its readers.
    pub proof fn lemma_wf(&self)
        requires
            self.wf(),
        ensures
            ids_sorted(self.spec_node_ids()),
            self.spec_node_addrs().len() == self.spec_node_ids().len(),
            self.spec_node_shards().len() == self.spec_node_ids().len(),
            self.spec_shard_map() == round_robin(self.spec_node_ids()),
            forall|i: int|
                0 <= i < self.spec_node_ids().len() ==> #[trigger] self.spec_node_shards()[i]
                    == shards_of(i, self.spec_node_ids().len() as int),
    {
    }

    /// A coordinator at `addr` with no members.
    pub fn new(addr: Endpoint) -> (r: Self)
        ensures
            r.wf(),
            r.spec_addr() == addr,
            r.spec_node_ids().len() == 0,
    {
        let r = Coordinator {
            addr,
            nodes: Vec::new(),
            node_shards: Vec::new(),
            shard_map: HashMap::new(),
        };
        assert(r.spec_shard_map() =~= round_robin(r.spec_node_ids()));
        assert(r.spec_node_shards() =~= Seq::new(
            r.spec_node_ids().len(),
            |i: int| shards_of(i, r.spec_node_ids().len() as int),
        ));
        r
    }

    /// Where the coordinator itself can be reached.
    pub fn addr(&self) -> (r: Endpoint)
        ensures
            r == self.spec_addr(),
    {
        self.addr
    }

    /// Replaces the whole assignment by the round-robin over the members as
    /// they are now enumerated.
    fn rebalance_shards(&mut self)
        requires
            ids_sorted(old(self).spec_node_ids()),
        ensures
            final(self).wf(),
            final(self).nodes == old(self).nodes,
            final(self).addr == old(self).addr,
    {
        let n = self.nodes.len();
        let mut shard_map: HashMap<u64, String> = HashMap::new();
        let mut node_shards: Vec<HashSet<u64>> = Vec::new();
        let mut i: usize = 0;
        while i < n
            invariant
                i <= n,
                node_shards@.len() == i,
                forall|j: int| 0 <= j < i ==> (#[trigger] node_shards@[j])@ == Set::<u64>::empty(),
            decreases n - i,
        {
            node_shards.push(HashSet::new());
            i = i + 1;
        }
        if n > 0 {
            let mut shard: u64 = 0;
            while shard < SHARD_COUNT
                invariant
                    shard <= SHARD_COUNT,
                    n == self.nodes@.len(),
                    n > 0,
                    node_shards@.len() == n,
                    forall|j: int|
                        0 <= j < n ==> (#[trigger] node_shards@[j])@ == Set::new(
                            |k: u64| k < shard && k as int % n as int == j,
                        ),
                    forall|k: u64| #[trigger] shard_map@.contains_key(k) <==> k < shard,
                    forall|k: u64|
                        k < shard ==> (#[trigger] shard_map@[k])@ == self.nodes@[k as int % n as int].node_id@,
                decreases SHARD_COUNT - shard,
            {
                let at = (shard % (n as u64)) as usize;
                let ghost sets_before = node_shards@;
                shard_map.insert(shard, self.nodes[at].node_id.clone());
                node_shards[at].insert(shard);
                proof {
                    assert forall|j: int| 0 <= j < n implies (#[trigger] node_shards@[j])@
                        == Set::new(|k: u64| k < shard + 1 && k as int % n as int == j) by {
                        if j == at {
                            assert(node_shards@[j]@ =~= Set::new(
                                |k: u64| k < shard + 1 && k as int % n as int == j,
                            ));
                        } else {
                            assert(node_shards@[j] == sets_before[j]);
                            assert(node_shards@[j]@ =~= Set::new(
                                |k: u64| k < shard + 1 && k as int % n as int == j,
                            ));
                        }
                    }
                }
                shard = shard + 1;
            }
        }
        self.shard_map = shard_map;
        self.node_shards = node_shards;
        proof {
            assert(self.spec_shard_map() =~= round_robin(self.spec_node_ids()));
            assert(self.spec_node_shards() =~= Seq::new(
                self.spec_node_ids().len(),
                |i: int| shards_of(i, self.spec_node_ids().len() as int),
            )) by {
                assert forall|j: int| 0 <= j < n implies #[trigger] self.spec_node_shards()[j]
                    == shards_of(j, n as int) by {
                    assert(self.node_shards@[j]@ =~= shards_of(j, n as int));
                }
            }
        }
    }

    /// Finds where `node_id` stands in the enumeration, or where it would
    /// have to be put.
    fn locate(&self, node_id: &String) -> (r: (usize, bool))
        requires
            ids_sorted(self.spec_node_ids()),
        ensures
            r.0 <= self.spec_node_ids().len(),
            forall|i: int| 0 <= i < r.0 ==> name_less(#[trigger] self.spec_node_ids()[i], node_id@),
            forall|i: int|
                r.0 <= i < self.spec_node_ids().len() && !(r.1 && i == r.0) ==> name_less(
                    node_id@,
                    #[trigger] self.spec_node_ids()[i],
                ),
            r.1 ==> r.0 < self.spec_node_ids().len() && self.spec_node_ids()[r.0 as int]
                == node_id@,
            r.1 == self.spec_node_ids().contains(node_id@),
    {
        let ghost ids = self.spec_node_ids();
        let mut at: usize = 0;
        while at < self.nodes.len() && is_name_less(
            self.nodes[at].node_id.as_str(),
            node_id.as_str(),
        )
            invariant
                at <= self.nodes@.len(),
                ids == self.spec_node_ids(),
                forall|i: int| 0 <= i < at ==> name_less(#[trigger] ids[i], node_id@),
            decreases self.nodes@.len() - at,
        {
            assert(ids[at as int] == self.nodes@[at as int].node_id@);
            at = at + 1;
        }
        let same = at < self.nodes.len() && self.nodes[at].node_id == *node_id;
        proof {
            if at < ids.len() {
                assert(ids[at as int] == self.nodes@[at as int].node_id@);
                lemma_bytes_less_total(encode_utf8(ids[at as int]), encode_utf8(node_id@));
                if !same {
                    if encode_utf8(ids[at as int]) == encode_utf8(node_id@) {
                        lemma_name_from_bytes(ids[at as int], node_id@);
                    }
                    assert(name_less(node_id@, ids[at as int]));
                }
            }
            assert forall|i: int| at <= i < ids.len() && !(same && i == at) implies name_less(
                node_id@,
                #[trigger] ids[i],
            ) by {
                if i > at {
                    assert(name_less(ids[at as int], ids[i]));
                    if same {
                        assert(ids[at as int] == node_id@);
                    } else {
                        lemma_bytes_less_transitive(
                            encode_utf8(node_id@),
                            encode_utf8(ids[at as int]),
                            encode_utf8(ids[i]),
                        );
                    }
                }
            }
            if !same {
                assert forall|i: int| 0 <= i < ids.len() implies ids[i] != node_id@ by {
                    lemma_bytes_less_total(encode_utf8(ids[i]), encode_utf8(node_id@));
                    if i < at {
                        assert(name_less(ids[i], node_id@));
                    } else {
                        assert(name_less(node_id@, ids[i]));
                    }
                }
            }
        }
        (at, same)
    }

    /// Admits a node and rebalances. A node whose id is a member already is
    /// refused with `DuplicateNode`, and nothing changes.
    pub fn add_node(&mut self, node_id: String, addr: Endpoint) -> (r: Result<(), ClusterError>)
        requires
            old(self).wf(),
        ensures
            final(self).wf(),
            final(self).spec_addr() == old(self).spec_addr(),
            old(self).spec_node_ids().contains(node_id@) ==> {
                &&& r == Err::<(), ClusterError>(ClusterError::DuplicateNode)
                &&& final(self).spec_node_ids() == old(self).spec_node_ids()
                &&& final(self).spec_node_addrs() == old(self).spec_node_addrs()
            },
            !old(self).spec_node_ids().contains(node_id@) ==> {
                &&& r == Ok::<(), ClusterError>(())
                &&& exists|at: int|
                    {
                        &&& 0 <= at <= old(self).spec_node_ids().len()
                        &&& final(self).spec_node_ids() == old(self).spec_node_ids().insert(
                            at,
                            node_id@,
                        )
                        &&& final(self).spec_node_addrs() == old(self).spec_node_addrs().insert(
                            at,
                            addr,
                        )
                    }
            },
    {
        let (at, present) = self.locate(&node_id);
        if present {
            return Err(ClusterError::DuplicateNode);
        }
        let ghost ids = self.spec_node_ids();
        let ghost addrs = self.spec_node_addrs();
        let ghost id = node_id@;
        self.nodes.insert(at, NodeRecord { node_id, addr });
        proof {
            assert(self.spec_node_ids() =~= ids.insert(at as int, id));
            assert(self.spec_node_addrs() =~= addrs.insert(at as int, addr));
            let grown = self.spec_node_ids();
            assert forall|a: int, b: int| 0 <= a < b < grown.len() implies name_less(
                #[trigger] grown[a],
                #[trigger] grown[b],
            ) by {
                let a0 = if a < at { a } else { a - 1 };
                let b0 = if b < at { b } else { b - 1 };
                if a != at && b != at {
                    assert(grown[a] == ids[a0]);
                    assert(grown[b] == ids[b0]);
                } else if a == at {
                    assert(grown[b] == ids[b0]);
                } else {
                    assert(grown[a] == ids[a0]);
                }
            }
        }
        self.rebalance_shards();
        Ok(())
    }

    /// Dismisses a node and rebalances. An id that is no member is refused
    /// with `UnknownNode`, and nothing changes.
    pub fn remove_node(&mut self, node_id: &str) -> (r: Result<(), ClusterError>)
        requires
            old(self).wf(),
        ensures
            final(self).wf(),
            final(self).spec_addr() == old(self).spec_addr(),
            !old(self).spec_node_ids().contains(node_id@) ==> {
                &&& r == Err::<(), ClusterError>(ClusterError::UnknownNode)
                &&& final(self).spec_node_ids() == old(self).spec_node_ids()
                &&& final(self).spec_node_addrs() == old(self).spec_node_addrs()
            },
            old(self).spec_node_ids().contains(node_id@) ==> {
                &&& r == Ok::<(), ClusterError>(())
                &&& exists|at: int|
                    {
                        &&& 0 <= at < old(self).spec_node_ids().len()
                        &&& old(self).spec_node_ids()[at] == node_id@
                        &&& final(self).spec_node_ids() == old(self).spec_node_ids().remove(at)
                        &&& final(self).spec_node_addrs() == old(self).spec_node_addrs().remove(at)
                    }
                &&& !final(self).spec_node_ids().contains(node_id@)
            },
    {
        let owned = node_id.to_owned();
        let (at, present) = self.locate(&owned);
        if !present {
            return Err(ClusterError::UnknownNode);
        }
        let ghost ids = self.spec_node_ids();
        let ghost addrs = self.spec_node_addrs();
        self.nodes.remove(at);
        proof {
            assert(self.spec_node_ids() =~= ids.remove(at as int));
            assert(self.spec_node_addrs() =~= addrs.remove(at as int));
            let shrunk = self.spec_node_ids();
            assert forall|a: int, b: int| 0 <= a < b < shrunk.len() implies name_less(
                #[trigger] shrunk[a],
                #[trigger] shrunk[b],
            ) by {
                let a0 = if a < at { a } else { a + 1 };
                let b0 = if b < at { b } else { b + 1 };
                assert(shrunk[a] == ids[a0]);
                assert(shrunk[b] == ids[b0]);
            }
            assert forall|i: int| 0 <= i < shrunk.len() implies shrunk[i] != node_id@ by {
                let i0 = if i < at { i } else { i + 1 };
                assert(shrunk[i] == ids[i0]);
                lemma_bytes_less_total(encode_utf8(ids[i0]), encode_utf8(node_id@));
            }
        }
        self.rebalance_shards();
        Ok(())
    }

    /// How many members there are.
    pub fn node_count(&self) -> (n: usize)
        ensures
            n == self.spec_node_ids().len(),
    {
        self.nodes.len()
    }

    /// Tells whether `node_id` is a member.
    pub fn has_node(&self, node_id: &str) -> (r: bool)
        requires
            self.wf(),
        ensures
            r == self.spec_node_ids().contains(node_id@),
    {
        let owned = node_id.to_owned();
        let (_, present) = self.locate(&owned);
        present
    }

    /// The address under which `node_id` was admitted; `None` for an id that
    /// is no member.
    pub fn get_node_addr(&self, node_id: &str) -> (r: Option<Endpoint>)
        requires
            self.wf(),
        ensures
            match r {
                None => !self.spec_node_ids().contains(node_id@),
                Some(addr) => exists|i: int|
                    0 <= i < self.spec_node_ids().len() && self.spec_node_ids()[i] == node_id@
                        && self.spec_node_addrs()[i] == addr,
            },
    {
        let owned = node_id.to_owned();
        let (at, present) = self.locate(&owned);
        if present {
            assert(self.spec_node_addrs()[at as int] == self.nodes@[at as int].addr);
            Some(self.nodes[at].addr)
        } else {
            None
        }
    }

    /// A snapshot of the owner of every shard.
    pub fn get_shard_owners(&self) -> (owners: HashMap<u64, String>)
        ensures
            owners_view(owners@) == self.spec_shard_map(),
    {
        self.shard_map.clone()
    }

    /// The owner of one shard; `None` where no shard of that number is
    /// assigned.
    pub fn get_shard_owner(&self, shard: u64) -> (r: Option<String>)
        ensures
            match r {
                None => !self.spec_shard_map().contains_key(shard),
                Some(id) => self.spec_shard_map().contains_key(shard) && self.spec_shard_map()[shard]
                    == id@,
            },
    {
        match self.shard_map.get(&shard) {
            Some(id) => Some(id.clone()),
            None => None,
        }
    }

    /// A snapshot of the shards of one member; `None` for an id that is no
    /// member.
    pub fn get_node_shards(&self, node_id: &str) -> (r: Option<HashSet<u64>>)
        requires
            self.wf(),
        ensures
            match r {
                None => !self.spec_node_ids().contains(node_id@),
                Some(shards) => exists|i: int|
                    0 <= i < self.spec_node_ids().len() && self.spec_node_ids()[i] == node_id@
                        && self.spec_node_shards()[i] == shards@,
            },
    {
        let owned = node_id.to_owned();
        let (at, present) = self.locate(&owned);
        if !present {
            return None;
        }
        assert(self.spec_node_shards().len() == self.spec_node_ids().len());
        let mut shards: HashSet<u64> = HashSet::new();
        let mut shard: u64 = 0;
        while shard < SHARD_COUNT
            invariant
                shard <= SHARD_COUNT,
                at < self.node_shards@.len(),
                shards@ == Set::new(|k: u64| k < shard && self.node_shards@[at as int]@.contains(k)),
            decreases SHARD_COUNT - shard,
        {
            if self.node_shards[at].contains(&shard) {
                shards.insert(shard);
            }
            assert(shards@ =~= Set::new(
                |k: u64| k < shard + 1 && self.node_shards@[at as int]@.contains(k),
            ));
            shard = shard + 1;
        }
        assert(shards@ =~= self.spec_node_shards()[at as int]);
        Some(shards)
    }

    /// Single ownership: while there is a member, every shard has an owner,
    /// the owner is a member, and the shard is in the shard set of that
    /// member and of no other.
    pub proof fn lemma_single_owner(&self, shard: u64)
        requires
            self.wf(),
            self.spec_node_ids().len() > 0,
            shard < SHARD_COUNT,
        ensures
            self.spec_shard_map().contains_key(shard),
            exists|i: int|
                {
                    &&& 0 <= i < self.spec_node_ids().len()
                    &&& self.spec_node_ids()[i] == self.spec_shard_map()[shard]
                    &&& #[trigger] self.spec_node_shards()[i].contains(shard)
                },
            forall|i: int, j: int|
                0 <= i < self.spec_node_ids().len() && 0 <= j < self.spec_node_ids().len()
                    && #[trigger] self.spec_node_shards()[i].contains(shard)
                    && #[trigger] self.spec_node_shards()[j].contains(shard) ==> i == j,
    {
        let n = self.spec_node_ids().len() as int;
        let i = shard as int % n;
        assert(self.spec_node_shards()[i] == shards_of(i, n));
        assert(self.spec_node_shards()[i].contains(shard));
        assert forall|a: int, b: int|
            0 <= a < n && 0 <= b < n && #[trigger] self.spec_node_shards()[a].contains(shard)
                && #[trigger] self.spec_node_shards()[b].contains(shard) implies a == b by {
            assert(self.spec_node_shards()[a] == shards_of(a, n));
            assert(self.spec_node_shards()[b] == shards_of(b, n));
        }
    }

    /// The two views of the assignment agree: a shard is in a member's shard
    /// set exactly when the shard map names that member as its owner.
    pub proof fn lemma_views_agree(&self, index: int, shard: u64)
        requires
            self.wf(),
            0 <= index < self.spec_node_ids().len(),
        ensures
            self.spec_node_shards()[index].contains(shard) <==> (self.spec_shard_map().contains_key(
                shard,
            ) && self.spec_shard_map()[shard] == self.spec_node_ids()[index]),
    {
        let n = self.spec_node_ids().len() as int;
        let ids = self.spec_node_ids();
        assert(self.spec_node_shards()[index] == shards_of(index, n));
        if shard < SHARD_COUNT {
            let owner = shard as int % n;
            if owner != index {
                lemma_bytes_less_total(encode_utf8(ids[owner]), encode_utf8(ids[index]));
                if owner < index {
                    assert(name_less(ids[owner], ids[index]));
                } else {
                    assert(name_less(ids[index], ids[owner]));
                }
            }
        }
    }

    /// While there are no more members than shards, no member is left
    /// without a shard.
    pub proof fn lemma_every_node_has_shards(&self, index: int)
        requires
            self.wf(),
            0 <= index < self.spec_node_ids().len(),
            self.spec_node_ids().len() <= SHARD_COUNT,
        ensures
            self.spec_node_shards()[index].contains(index as u64),
    {
        let n = self.spec_node_ids().len() as int;
        assert(self.spec_node_shards()[index] == shards_of(index, n));
        vstd::arithmetic::div_mod::lemma_small_mod(index as nat, n as nat);
    }
}

} // verus!
