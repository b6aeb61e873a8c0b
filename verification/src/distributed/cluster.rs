//! The cluster: the coordinator together with the table of member nodes,
//! and the routing of a key to the node that owns it.

use super::coordinator::Coordinator;
use super::node::{Node, NodeView};
use super::{fresh_node_id, shard_for_key, spec_shard_for_key, ClusterError, Endpoint};
use vstd::prelude::*;

verus! {

/// The views of a list of nodes.
pub open spec fn node_views(nodes: Seq<Node>) -> Seq<NodeView> {
    Seq::new(nodes.len(), |i: int| nodes[i]@)
}

/// The index of the first member at or after `from` that has the id `id`,
/// or `members.len()` where there is none.
pub open spec fn member_index(members: Seq<NodeView>, id: Seq<char>, from: int) -> int
    decreases members.len() - from,
{
    if from < 0 || from >= members.len() {
        members.len() as int
    } else if members[from].id == id {
        from
    } else {
        member_index(members, id, from + 1)
    }
}

/// The member with the id `id`, if there is one.
pub open spec fn member(members: Seq<NodeView>, id: Seq<char>) -> Option<NodeView> {
    let at = member_index(members, id, 0);
    if at < members.len() {
        Some(members[at])
    } else {
        None
    }
}

/// The table after `node` was registered: in place of the member with its
/// id, or at the end.
pub open spec fn registered(members: Seq<NodeView>, node: NodeView) -> Seq<NodeView> {
    let at = member_index(members, node.id, 0);
    if at < members.len() {
        members.update(at, node)
    } else {
        members.push(node)
    }
}

/// The table without the member that has the id `id`.
pub open spec fn unregistered(members: Seq<NodeView>, id: Seq<char>) -> Seq<NodeView> {
    let at = member_index(members, id, 0);
    if at < members.len() {
        members.remove(at)
    } else {
        members
    }
}

/// A node that has just joined under `id` at `addr`.
pub open spec fn joined_node(id: Seq<char>, addr: Endpoint) -> NodeView {
    NodeView { id, addr, shards: Seq::empty(), connections: Seq::empty() }
}

/// No two members have the same id.
pub open spec fn member_ids_unique(members: Seq<NodeView>) -> bool {
    forall|i: int, j: int|
        0 <= i < j < members.len() ==> (#[trigger] members[i]).id != (#[trigger] members[j]).id
}

/// Some member has the id `id`.
pub open spec fn has_member(members: Seq<NodeView>, id: Seq<char>) -> bool {
    exists|i: int| 0 <= i < members.len() && (#[trigger] members[i]).id == id
}

/// `member_index` names the first member with the id, and no member before
/// it has it.
pub proof fn lemma_member_index(members: Seq<NodeView>, id: Seq<char>, from: int)
    requires
        0 <= from <= members.len(),
    ensures
        from <= member_index(members, id, from) <= members.len(),
        forall|j: int| from <= j < member_index(members, id, from) ==> (#[trigger] members[j]).id != id,
        member_index(members, id, from) < members.len() ==> members[member_index(
            members,
            id,
            from,
        )].id == id,
    decreases members.len() - from,
{
    if from < members.len() && members[from].id != id {
        lemma_member_index(members, id, from + 1);
    }
}

/// The coordinator with the cluster's own table of member nodes.
pub struct Cluster {
    nodes: Vec<Node>,
    coordinator: Coordinator,
}

impl Cluster {
    /// The table of member nodes, in the order in which their ids joined.
    pub closed spec fn spec_members(&self) -> Seq<NodeView> {
        node_views(self.nodes@)
    }

    /// The coordinator.
    pub closed spec fn spec_coordinator(&self) -> Coordinator {
        self.coordinator
    }

    /// The coordinator is well formed, no id is in the table twice, and the
    /// table holds exactly the ids that the coordinator has admitted.
    pub closed spec fn wf(&self) -> bool {
        &&& self.coordinator.wf()
        &&& member_ids_unique(self.spec_members())
        &&& forall|id: Seq<char>|
            has_member(self.spec_members(), id) <==> #[trigger] self.coordinator.spec_node_ids().contains(
                id,
            )
    }

    /// What a well-formed cluster guarantees to its readers.
    pub proof fn lemma_wf(&self)
        requires
            self.wf(),
        ensures
            self.spec_coordinator().wf(),
            member_ids_unique(self.spec_members()),
            forall|id: Seq<char>|
                has_member(self.spec_members(), id) <==> #[trigger] self.spec_coordinator().spec_node_ids().contains(
                    id,
                ),
    {
    }

    /// A cluster without members, whose coordinator is at
    /// `coordinator_addr`.
    pub fn new(coordinator_addr: Endpoint) -> (r: Cluster)
        ensures
            r.wf(),
            r.spec_members().len() == 0,
            r.spec_coordinator().spec_addr() == coordinator_addr,
            r.spec_coordinator().spec_node_ids().len() == 0,
    {
        let r = Cluster { nodes: Vec::new(), coordinator: Coordinator::new(coordinator_addr) };
        assert forall|id: Seq<char>|
            has_member(r.spec_members(), id) <==> #[trigger] r.coordinator.spec_node_ids().contains(
                id,
            ) by {}
        r
    }

    fn find(&self, id: &String) -> (at: usize)
        ensures
            at == member_index(self.spec_members(), id@, 0),
            at <= self.nodes@.len(),
    {
        let ghost members = self.spec_members();
        let mut at: usize = 0;
        while at < self.nodes.len() && !(self.nodes[at].id == *id)
            invariant
                at <= self.nodes@.len(),
                members == self.spec_members(),
                member_index(members, id@, 0) == member_index(members, id@, at as int),
            decreases self.nodes@.len() - at,
        {
            assert(members[at as int].id == self.nodes@[at as int].id@);
            at = at + 1;
        }
        proof {
            if at < members.len() {
                assert(members[at as int].id == self.nodes@[at as int].id@);
            }
        }
        at
    }

    /// What a join under the id `id` at `addr` does to the cluster `before`:
    /// the node is registered in the table, in place of a member with the
    /// same id; the coordinator admits a new id and refuses one that it has
    /// admitted before, and `r` is its answer.
    pub open spec fn has_joined(
        before: Cluster,
        after: Cluster,
        id: Seq<char>,
        addr: Endpoint,
        r: Result<(), ClusterError>,
    ) -> bool {
        &&& after.spec_members() == registered(before.spec_members(), joined_node(id, addr))
        &&& after.spec_coordinator().spec_addr() == before.spec_coordinator().spec_addr()
        &&& before.spec_coordinator().spec_node_ids().contains(id) ==> {
            &&& r == Err::<(), ClusterError>(ClusterError::DuplicateNode)
            &&& after.spec_coordinator().spec_node_ids()
                == before.spec_coordinator().spec_node_ids()
            &&& after.spec_coordinator().spec_node_addrs()
                == before.spec_coordinator().spec_node_addrs()
        }
        &&& !before.spec_coordinator().spec_node_ids().contains(id) ==> {
            &&& r == Ok::<(), ClusterError>(())
            &&& exists|at: int|
                {
                    &&& 0 <= at <= before.spec_coordinator().spec_node_ids().len()
                    &&& after.spec_coordinator().spec_node_ids()
                        == before.spec_coordinator().spec_node_ids().insert(at, id)
                    &&& after.spec_coordinator().spec_node_addrs()
                        == before.spec_coordinator().spec_node_addrs().insert(at, addr)
                }
        }
    }

    /// Lets a node at `node_addr` join under a new random id: the node is
    /// registered in the table and admitted by the coordinator, which
    /// rebalances.
    pub fn join(&mut self, node_addr: Endpoint) -> (r: Result<(), ClusterError>)
        requires
            old(self).wf(),
        ensures
            final(self).wf(),
            exists|id: Seq<char>|
                id.len() == 36 && #[trigger] Self::has_joined(*old(self), *final(self), id, node_addr, r),
    {
        let node_id = fresh_node_id();
        let ghost id = node_id@;
        let r = self.join_as(node_id, node_addr);
        assert(Self::has_joined(*old(self), *self, id, node_addr, r));
        r
    }

    /// Lets a node at `node_addr` join under the id `node_id`. The node is
    /// registered in the table, in place of a member with the same id, and
    /// then handed to the coordinator, whose answer is returned: it admits
    /// a new id and rebalances, and refuses one that it has admitted before
    /// with `DuplicateNode`.
    pub fn join_as(&mut self, node_id: String, node_addr: Endpoint) -> (r: Result<
        (),
        ClusterError,
    >)
        requires
            old(self).wf(),
        ensures
            final(self).wf(),
            Self::has_joined(*old(self), *final(self), node_id@, node_addr, r),
    {
        let ghost members = self.spec_members();
        let ghost ids = self.coordinator.spec_node_ids();
        let ghost id = node_id@;
        let at = self.find(&node_id);
        let node = Node::with_id(node_id.clone(), node_addr);
        let ghost view = node@;
        assert(view =~= joined_node(id, node_addr)) by {
            assert(view.shards =~= Seq::<u64>::empty());
            assert(view.connections =~= Seq::<Endpoint>::empty());
        }
        proof {
            lemma_member_index(members, id, 0);
        }
        if at < self.nodes.len() {
            self.nodes.set(at, node);
            assert(self.spec_members() =~= members.update(at as int, view));
        } else {
            self.nodes.push(node);
            assert(self.spec_members() =~= members.push(view));
        }
        let r = self.coordinator.add_node(node_id, node_addr);
        proof {
            let now = self.spec_members();
            let now_ids = self.coordinator.spec_node_ids();
            assert forall|i: int, j: int| 0 <= i < j < now.len() implies (#[trigger] now[i]).id != (
            #[trigger] now[j]).id by {
                if j < members.len() {
                    assert(now[i].id == members[i].id);
                    assert(now[j].id == members[j].id);
                } else {
                    assert(now[i].id == members[i].id);
                }
            }
            if !ids.contains(id) {
                let to = choose|to: int| 0 <= to <= ids.len() && now_ids == ids.insert(to, id);
                assert(now_ids.to_set() =~= ids.to_set().insert(id)) by {
                    assert forall|x: Seq<char>| now_ids.to_set().contains(x)
                        == ids.to_set().insert(id).contains(x) by {
                        if now_ids.contains(x) {
                            let k = choose|k: int| 0 <= k < now_ids.len() && now_ids[k] == x;
                            if k < to {
                                assert(ids[k] == x);
                            } else if k > to {
                                assert(ids[k - 1] == x);
                            }
                        }
                        if ids.contains(x) {
                            let k = choose|k: int| 0 <= k < ids.len() && ids[k] == x;
                            if k < to {
                                assert(now_ids[k] == x);
                            } else {
                                assert(now_ids[k + 1] == x);
                            }
                        }
                        if x == id {
                            assert(now_ids[to] == x);
                        }
                    }
                }
            }
            assert forall|x: Seq<char>| has_member(now, x) <==> #[trigger] now_ids.contains(x) by {
                assert(has_member(members, x) <==> ids.contains(x));
                if has_member(now, x) {
                    let k = choose|k: int| 0 <= k < now.len() && (#[trigger] now[k]).id == x;
                    if k < members.len() && x != id {
                        assert(members[k].id == x);
                    }
                }
                if has_member(members, x) {
                    let k = choose|k: int| 0 <= k < members.len() && (#[trigger] members[k]).id == x;
                    assert(now[k].id == x);
                }
                if x == id {
                    if at < members.len() {
                        assert(now[at as int].id == x);
                    } else {
                        assert(now[now.len() - 1].id == x);
                    }
                    if !ids.contains(id) {
                        assert(now_ids.to_set().contains(x));
                    }
                } else {
                    if !ids.contains(id) {
                        assert(now_ids.to_set().contains(x) == ids.to_set().contains(x));
                    }
                }
            }
        }
        r
    }

    /// Lets the node `node_id` leave: the coordinator dismisses it and
    /// rebalances, and then it is taken out of the table. An id that the
    /// coordinator does not know is refused with `UnknownNode`, and nothing
    /// changes.
    pub fn leave(&mut self, node_id: &str) -> (r: Result<(), ClusterError>)
        requires
            old(self).wf(),
        ensures
            final(self).wf(),
            final(self).spec_coordinator().spec_addr() == old(self).spec_coordinator().spec_addr(),
            old(self).spec_coordinator().spec_node_ids().contains(node_id@) ==> {
                &&& r == Ok::<(), ClusterError>(())
                &&& final(self).spec_members() == unregistered(old(self).spec_members(), node_id@)
                &&& !final(self).spec_coordinator().spec_node_ids().contains(node_id@)
                &&& final(self).spec_coordinator().spec_node_ids().to_set() == old(
                    self,
                ).spec_coordinator().spec_node_ids().to_set().remove(node_id@)
            },
            !old(self).spec_coordinator().spec_node_ids().contains(node_id@) ==> {
                &&& r == Err::<(), ClusterError>(ClusterError::UnknownNode)
                &&& final(self).spec_members() == old(self).spec_members()
                &&& final(self).spec_coordinator().spec_node_ids() == old(
                    self,
                ).spec_coordinator().spec_node_ids()
            },
    {
        let ghost members = self.spec_members();
        let ghost ids = self.coordinator.spec_node_ids();
        let ghost id = node_id@;
        match self.coordinator.remove_node(node_id) {
            Err(e) => {
                return Err(e);
            },
            Ok(()) => {},
        }
        let owned = node_id.to_owned();
        let at = self.find(&owned);
        proof {
            lemma_member_index(members, id, 0);
            assert(has_member(members, id));
        }
        self.nodes.remove(at);
        proof {
            assert(self.spec_members() =~= members.remove(at as int));
            let now = self.spec_members();
            let now_ids = self.coordinator.spec_node_ids();
            let from = choose|from: int|
                0 <= from < ids.len() && ids[from] == id && now_ids == ids.remove(from);
            assert(now_ids.to_set() =~= ids.to_set().remove(id)) by {
                assert forall|x: Seq<char>| now_ids.to_set().contains(x) == ids.to_set().remove(
                    id,
                ).contains(x) by {
                    if now_ids.contains(x) {
                        let k = choose|k: int| 0 <= k < now_ids.len() && now_ids[k] == x;
                        let k0 = if k < from { k } else { k + 1 };
                        assert(ids[k0] == x);
                    }
                    if ids.contains(x) && x != id {
                        let k = choose|k: int| 0 <= k < ids.len() && ids[k] == x;
                        if k < from {
                            assert(now_ids[k] == x);
                        } else {
                            assert(now_ids[k - 1] == x);
                        }
                    }
                }
            }
            assert forall|i: int, j: int| 0 <= i < j < now.len() implies (#[trigger] now[i]).id != (
            #[trigger] now[j]).id by {
                let i0 = if i < at { i } else { i + 1 };
                let j0 = if j < at { j } else { j + 1 };
                assert(now[i] == members[i0]);
                assert(now[j] == members[j0]);
            }
            assert forall|x: Seq<char>| has_member(now, x) <==> #[trigger] now_ids.contains(x) by {
                assert(has_member(members, x) <==> ids.contains(x));
                assert(now_ids.to_set().contains(x) == ids.to_set().remove(id).contains(x));
                if has_member(now, x) {
                    let k = choose|k: int| 0 <= k < now.len() && (#[trigger] now[k]).id == x;
                    let k0 = if k < at { k } else { k + 1 };
                    assert(now[k] == members[k0]);
                    assert(members[k0].id == x);
                    if k0 < at {
                        assert(members[k0].id != members[at as int].id);
                    } else {
                        assert(members[at as int].id != members[k0].id);
                    }
                }
                if has_member(members, x) && x != id {
                    let k = choose|k: int| 0 <= k < members.len() && (#[trigger] members[k]).id == x;
                    if k < at {
                        assert(now[k].id == x);
                    } else {
                        assert(now[k - 1].id == x);
                    }
                }
            }
        }
        Ok(())
    }

    /// How many members the table holds.
    pub fn node_count(&self) -> (n: usize)
        ensures
            n == self.spec_members().len(),
    {
        self.nodes.len()
    }

    /// The ids of the members, in the order of the table.
    pub fn node_ids(&self) -> (ids: Vec<String>)
        ensures
            ids@.len() == self.spec_members().len(),
            forall|i: int| 0 <= i < ids@.len() ==> (#[trigger] ids@[i])@ == self.spec_members()[i].id,
    {
        let mut ids: Vec<String> = Vec::new();
        let mut i: usize = 0;
        while i < self.nodes.len()
            invariant
                i <= self.nodes@.len(),
                ids@.len() == i,
                forall|j: int| 0 <= j < i ==> (#[trigger] ids@[j])@ == self.nodes@[j].id@,
            decreases self.nodes@.len() - i,
        {
            ids.push(self.nodes[i].id.clone());
            i = i + 1;
        }
        ids
    }

    /// The coordinator.
    pub fn coordinator(&self) -> (r: &Coordinator)
        ensures
            *r == self.spec_coordinator(),
    {
        &self.coordinator
    }

    /// The member that owns `key`: the key's shard is looked up in the
    /// coordinator's assignment, and the owner in the table. `None` exactly
    /// while the cluster has no member.
    pub fn get_node_for_key(&self, key: &str) -> (r: Option<Node>)
        requires
            self.wf(),
        ensures
            match r {
                None => self.spec_coordinator().spec_node_ids().len() == 0,
                Some(node) => {
                    &&& self.spec_coordinator().spec_shard_map().contains_key(
                        spec_shard_for_key(key@),
                    )
                    &&& node.id@ == self.spec_coordinator().spec_shard_map()[spec_shard_for_key(
                        key@,
                    )]
                    &&& member(self.spec_members(), node.id@) == Some(node@)
                },
            },
    {
        let shard = shard_for_key(key);
        proof {
            self.coordinator.lemma_wf();
            if self.coordinator.spec_node_ids().len() > 0 {
                self.coordinator.lemma_single_owner(shard);
            }
        }
        match self.coordinator.get_shard_owner(shard) {
            None => None,
            Some(owner) => {
                let at = self.find(&owner);
                proof {
                    lemma_member_index(self.spec_members(), owner@, 0);
                    let n = self.coordinator.spec_node_ids().len() as int;
                    assert(n > 0);
                    let i = shard as int % n;
                    assert(self.coordinator.spec_node_ids()[i] == owner@);
                    assert(self.coordinator.spec_node_ids().contains(owner@));
                    assert(has_member(self.spec_members(), owner@));
                    if at >= self.nodes@.len() {
                        let k = choose|k: int|
                            0 <= k < self.spec_members().len() && (
                            #[trigger] self.spec_members()[k]).id == owner@;
                        assert(false);
                    }
                }
                let node = self.nodes[at].clone();
                assert(self.spec_members()[at as int] == self.nodes@[at as int]@);
                Some(node)
            },
        }
    }
}

} // verus!
