//! The consistent-hash ring: virtual nodes placed on a circle of 64-bit
//! positions, and the clockwise walk that finds a key's owner and replicas.

use super::{hash_key, spec_hash_key};
use vstd::prelude::*;
use vstd::string::StringExecFns;

verus! {

/// How many positions each node takes on the ring.
pub const VIRTUAL_NODES: usize = 160;

/// The character of a decimal digit.
pub open spec fn spec_digit(d: int) -> char {
    if d == 0 {
        '0'
    } else if d == 1 {
        '1'
    } else if d == 2 {
        '2'
    } else if d == 3 {
        '3'
    } else if d == 4 {
        '4'
    } else if d == 5 {
        '5'
    } else if d == 6 {
        '6'
    } else if d == 7 {
        '7'
    } else if d == 8 {
        '8'
    } else {
        '9'
    }
}

/// A number written in decimal, without leading zeros.
pub open spec fn spec_decimal(n: nat) -> Seq<char>
    decreases n,
{
    if n < 10 {
        seq![spec_digit(n as int)]
    } else {
        spec_decimal(n / 10).push(spec_digit((n % 10) as int))
    }
}

/// The key under which the `index`-th virtual node of `node_id` is hashed:
/// the id, a `#`, and the index in decimal.
pub open spec fn spec_virtual_key(node_id: Seq<char>, index: nat) -> Seq<char> {
    node_id + seq!['#'] + spec_decimal(index)
}

/// The ring position of the `index`-th virtual node of `node_id`.
pub open spec fn spec_virtual_position(node_id: Seq<char>, index: nat) -> u64 {
    spec_hash_key(spec_virtual_key(node_id, index))
}

fn digit_str(d: usize) -> (s: &'static str)
    requires
        d < 10,
    ensures
        s@ == seq![spec_digit(d as int)],
{
    proof {
        reveal_strlit("0");
        reveal_strlit("1");
        reveal_strlit("2");
        reveal_strlit("3");
        reveal_strlit("4");
        reveal_strlit("5");
        reveal_strlit("6");
        reveal_strlit("7");
        reveal_strlit("8");
        reveal_strlit("9");
    }
    let s = if d == 0 {
        "0"
    } else if d == 1 {
        "1"
    } else if d == 2 {
        "2"
    } else if d == 3 {
        "3"
    } else if d == 4 {
        "4"
    } else if d == 5 {
        "5"
    } else if d == 6 {
        "6"
    } else if d == 7 {
        "7"
    } else if d == 8 {
        "8"
    } else {
        "9"
    };
    assert(s@ =~= seq![spec_digit(d as int)]);
    s
}

fn push_decimal(out: &mut String, n: usize)
    ensures
        final(out)@ == old(out)@ + spec_decimal(n as nat),
    decreases n,
{
    if n >= 10 {
        push_decimal(out, n / 10);
    }
    out.append(digit_str(n % 10));
    assert(out@ =~= old(out)@ + spec_decimal(n as nat));
}

fn virtual_key(node_id: &str, index: usize) -> (key: String)
    ensures
        key@ == spec_virtual_key(node_id@, index as nat),
{
    let mut key = node_id.to_owned();
    proof {
        reveal_strlit("#");
    }
    key.append("#");
    push_decimal(&mut key, index);
    assert(key@ =~= spec_virtual_key(node_id@, index as nat));
    key
}

fn virtual_position(node_id: &str, index: usize) -> (position: u64)
    ensures
        position == spec_virtual_position(node_id@, index as nat),
{
    let key = virtual_key(node_id, index);
    hash_key(key.as_str())
}

/// One position on the ring and the node that holds it.
pub struct RingEntry {
    pub position: u64,
    pub node_id: String,
}

/// A node on the ring with the positions that were installed for it.
pub struct Member {
    pub node_id: String,
    pub positions: Vec<u64>,
}

/// The positions of a ring rise strictly from each entry to the next.
pub open spec fn strictly_rising(entries: Seq<(u64, Seq<char>)>) -> bool {
    forall|i: int, j: int| 0 <= i < j < entries.len() ==> entries[i].0 < entries[j].0
}

/// Some entry of the ring stands at `position`.
pub open spec fn has_position(entries: Seq<(u64, Seq<char>)>, position: u64) -> bool {
    exists|j: int| 0 <= j < entries.len() && (#[trigger] entries[j]).0 == position
}

/// The index of an entry that stands at `position`.
pub open spec fn index_of_position(entries: Seq<(u64, Seq<char>)>, position: u64) -> int {
    choose|j: int| 0 <= j < entries.len() && (#[trigger] entries[j]).0 == position
}

/// The ring as a map from each taken position to the node that holds it.
pub open spec fn ring_map(entries: Seq<(u64, Seq<char>)>) -> Map<u64, Seq<char>> {
    Map::new(
        |position: u64| has_position(entries, position),
        |position: u64| entries[index_of_position(entries, position)].1,
    )
}

/// The set of the ring positions of the first `count` virtual nodes of
/// `node_id`.
pub open spec fn virtual_positions(node_id: Seq<char>, count: nat) -> Set<u64> {
    Set::new(
        |position: u64|
            exists|i: nat| i < count && #[trigger] spec_virtual_position(node_id, i) == position,
    )
}

/// `ring` after the first `count` virtual nodes of `node_id` were installed,
/// each taking its position from whoever held it.
pub open spec fn installed(ring: Map<u64, Seq<char>>, node_id: Seq<char>, count: nat) -> Map<
    u64,
    Seq<char>,
>
    decreases count,
{
    if count == 0 {
        ring
    } else {
        installed(ring, node_id, (count - 1) as nat).insert(
            spec_virtual_position(node_id, (count - 1) as nat),
            node_id,
        )
    }
}

/// The two rings agree on `position`: it is taken in both or in neither,
/// and by the same node.
pub open spec fn same_at(a: Map<u64, Seq<char>>, b: Map<u64, Seq<char>>, position: u64) -> bool {
    a.contains_key(position) == b.contains_key(position) && (a.contains_key(position) ==> a[position]
        == b[position])
}

/// A node that was just installed is fully present: each of its first
/// `count` virtual positions is taken and belongs to it. Every other
/// position is as it was.
pub proof fn lemma_installed(ring: Map<u64, Seq<char>>, node_id: Seq<char>, count: nat)
    ensures
        forall|i: nat|
            i < count ==> installed(ring, node_id, count).contains_key(
                #[trigger] spec_virtual_position(node_id, i),
            ) && installed(ring, node_id, count)[spec_virtual_position(node_id, i)] == node_id,
        forall|position: u64|
            !virtual_positions(node_id, count).contains(position) ==> #[trigger] same_at(
                installed(ring, node_id, count),
                ring,
                position,
            ),
    decreases count,
{
    if count > 0 {
        let before = (count - 1) as nat;
        lemma_installed(ring, node_id, before);
        assert forall|i: nat| i < count implies installed(ring, node_id, count).contains_key(
            #[trigger] spec_virtual_position(node_id, i),
        ) && installed(ring, node_id, count)[spec_virtual_position(node_id, i)] == node_id by {
            if i < before {
                assert(installed(ring, node_id, before).contains_key(
                    spec_virtual_position(node_id, i),
                ));
            }
        }
        assert forall|position: u64|
            !virtual_positions(node_id, count).contains(position) implies #[trigger] same_at(
            installed(ring, node_id, count),
            ring,
            position,
        ) by {
            assert(position != spec_virtual_position(node_id, before)) by {
                if position == spec_virtual_position(node_id, before) {
                    assert(before < count);
                }
            }
            assert(!virtual_positions(node_id, before).contains(position)) by {
                if virtual_positions(node_id, before).contains(position) {
                    let i = choose|i: nat|
                        i < before && #[trigger] spec_virtual_position(node_id, i) == position;
                    assert(i < count);
                }
            }
            assert(same_at(installed(ring, node_id, before), ring, position));
        }
    }
}

/// A node that was just taken off is fully absent: none of its virtual
/// positions is taken. Every other position is as it was.
pub proof fn lemma_removed(ring: Map<u64, Seq<char>>, node_id: Seq<char>, count: nat)
    ensures
        forall|i: nat|
            i < count ==> !ring.remove_keys(virtual_positions(node_id, count)).contains_key(
                #[trigger] spec_virtual_position(node_id, i),
            ),
        forall|position: u64|
            !virtual_positions(node_id, count).contains(position) ==> #[trigger] same_at(
                ring.remove_keys(virtual_positions(node_id, count)),
                ring,
                position,
            ),
{
    assert forall|i: nat| i < count implies !ring.remove_keys(
        virtual_positions(node_id, count),
    ).contains_key(#[trigger] spec_virtual_position(node_id, i)) by {
        assert(virtual_positions(node_id, count).contains(spec_virtual_position(node_id, i)));
    }
}

/// `j` is where the clockwise walk for hash `h` begins: at the first entry
/// whose position is not below `h`, or at the first entry of all where every
/// position is below `h`.
pub open spec fn is_owner_index(entries: Seq<(u64, Seq<char>)>, h: u64, j: int) -> bool {
    &&& 0 <= j < entries.len()
    &&& {
        ||| entries[j].0 >= h && forall|i: int| 0 <= i < j ==> (#[trigger] entries[i]).0 < h
        ||| j == 0 && forall|i: int| 0 <= i < entries.len() ==> (#[trigger] entries[i]).0 < h
    }
}

/// The node ids met on one full turn round the ring that begins at `start`
/// and goes on from the last entry to the first.
pub open spec fn walk_from(entries: Seq<(u64, Seq<char>)>, start: int) -> Seq<Seq<char>> {
    Seq::new(
        entries.len(),
        |j: int|
            if start + j < entries.len() {
                entries[start + j].1
            } else {
                entries[start + j - entries.len()].1
            },
    )
}

/// The ids kept from the first `steps` steps of `walk`: each id that was not
/// kept before, until `limit` ids are kept.
pub open spec fn distinct_prefix(walk: Seq<Seq<char>>, steps: int, limit: nat) -> Seq<Seq<char>>
    decreases steps,
{
    if steps <= 0 {
        Seq::empty()
    } else {
        let kept = distinct_prefix(walk, steps - 1, limit);
        if kept.len() < limit && !kept.contains(walk[steps - 1]) {
            kept.push(walk[steps - 1])
        } else {
            kept
        }
    }
}

/// The views of a list of strings.
pub open spec fn ids_of(names: Seq<String>) -> Seq<Seq<char>> {
    Seq::new(names.len(), |j: int| names[j]@)
}

/// What `distinct_prefix` keeps: at most `limit` ids, no id twice, each one
/// met on the walk, and every id met on the walk unless `limit` was reached.
pub proof fn lemma_distinct_prefix(walk: Seq<Seq<char>>, steps: int, limit: nat)
    requires
        0 <= steps <= walk.len(),
    ensures
        distinct_prefix(walk, steps, limit).len() <= limit,
        distinct_prefix(walk, steps, limit).len() <= steps,
        distinct_prefix(walk, steps, limit).no_duplicates(),
        forall|id: Seq<char>| #[trigger]
            distinct_prefix(walk, steps, limit).contains(id) ==> exists|j: int|
                0 <= j < steps && walk[j] == id,
        distinct_prefix(walk, steps, limit).len() < limit ==> forall|j: int|
            0 <= j < steps ==> distinct_prefix(walk, steps, limit).contains(#[trigger] walk[j]),
    decreases steps,
{
    if steps > 0 {
        lemma_distinct_prefix(walk, steps - 1, limit);
        let kept = distinct_prefix(walk, steps - 1, limit);
        let now = distinct_prefix(walk, steps, limit);
        if kept.len() < limit && !kept.contains(walk[steps - 1]) {
            assert(now == kept.push(walk[steps - 1]));
            assert(now[now.len() - 1] == walk[steps - 1]);
            assert forall|id: Seq<char>| #[trigger] now.contains(id) implies exists|j: int|
                0 <= j < steps && walk[j] == id by {
                let at = choose|at: int| 0 <= at < now.len() && now[at] == id;
                if at < kept.len() {
                    assert(kept[at] == id);
                    assert(kept.contains(id));
                } else {
                    assert(walk[steps - 1] == id);
                }
            }
            assert forall|a: int, b: int| 0 <= a < now.len() && 0 <= b < now.len() && a
                != b implies now[a] != now[b] by {
                if a < kept.len() && b < kept.len() {
                    assert(kept[a] != kept[b]);
                } else if a < kept.len() {
                    assert(kept.contains(kept[a]));
                } else {
                    assert(kept.contains(kept[b]));
                }
            }
            if now.len() < limit {
                assert forall|j: int| 0 <= j < steps implies now.contains(#[trigger] walk[j]) by {
                    if j < steps - 1 {
                        assert(kept.contains(walk[j]));
                        let at = choose|at: int| 0 <= at < kept.len() && kept[at] == walk[j];
                        assert(now[at] == walk[j]);
                    } else {
                        assert(now[now.len() - 1] == walk[j]);
                    }
                }
            }
        } else {
            assert(now == kept);
            if now.len() < limit {
                assert(kept.contains(walk[steps - 1]));
            }
        }
    }
}

/// At most one index is where the walk for `h` begins.
pub proof fn lemma_owner_index_unique(entries: Seq<(u64, Seq<char>)>, h: u64, a: int, b: int)
    requires
        is_owner_index(entries, h, a),
        is_owner_index(entries, h, b),
    ensures
        a == b,
{
    if a < b {
        assert(entries[a].0 < h || a == 0);
    }
    if b < a {
        assert(entries[b].0 < h || b == 0);
    }
}

/// In a strictly rising ring the entry at a position is the only one there.
pub proof fn lemma_ring_map_at(entries: Seq<(u64, Seq<char>)>, j: int)
    requires
        strictly_rising(entries),
        0 <= j < entries.len(),
    ensures
        ring_map(entries).contains_key(entries[j].0),
        ring_map(entries)[entries[j].0] == entries[j].1,
{
    assert(has_position(entries, entries[j].0));
    let found = index_of_position(entries, entries[j].0);
    assert(found == j) by {
        if found < j {
            assert(entries[found].0 < entries[j].0);
        }
        if j < found {
            assert(entries[j].0 < entries[found].0);
        }
    }
}

/// There is one ring for a map of positions: two lists of entries that rise
/// strictly and give the same map are the same list.
pub proof fn lemma_ring_unique(a: Seq<(u64, Seq<char>)>, b: Seq<(u64, Seq<char>)>)
    requires
        strictly_rising(a),
        strictly_rising(b),
        ring_map(a) == ring_map(b),
    ensures
        a == b,
    decreases a.len(),
{
    if a.len() == 0 {
        if b.len() > 0 {
            lemma_ring_map_at(b, 0);
            assert(has_position(a, b[0].0));
        }
        assert(a =~= b);
    } else {
        let top = a.last();
        lemma_ring_map_at(a, a.len() - 1);
        assert(ring_map(b).contains_key(top.0));
        assert(has_position(b, top.0));
        let j = choose|j: int| 0 <= j < b.len() && (#[trigger] b[j]).0 == top.0;
        lemma_ring_map_at(b, j);
        if j < b.len() - 1 {
            let other = b.last();
            assert(b[j].0 < other.0);
            lemma_ring_map_at(b, b.len() - 1);
            assert(ring_map(a).contains_key(other.0));
            assert(has_position(a, other.0));
            let i = choose|i: int| 0 <= i < a.len() && (#[trigger] a[i]).0 == other.0;
            if i < a.len() - 1 {
                assert(a[i].0 < top.0);
            }
            assert(false);
        }
        assert(b.last() == top);
        let a0 = a.drop_last();
        let b0 = b.drop_last();
        assert(a0 =~= a.remove(a.len() - 1));
        assert(b0 =~= b.remove(b.len() - 1));
        lemma_ring_remove(a, a.len() - 1);
        lemma_ring_remove(b, b.len() - 1);
        lemma_ring_unique(a0, b0);
        assert(a =~= a0.push(top));
        assert(b =~= b0.push(top));
    }
}

proof fn lemma_ring_insert(entries: Seq<(u64, Seq<char>)>, at: int, entry: (u64, Seq<char>))
    requires
        strictly_rising(entries),
        0 <= at <= entries.len(),
        forall|i: int| 0 <= i < at ==> (#[trigger] entries[i]).0 < entry.0,
        forall|i: int| at <= i < entries.len() ==> entry.0 < (#[trigger] entries[i]).0,
    ensures
        strictly_rising(entries.insert(at, entry)),
        ring_map(entries.insert(at, entry)) == ring_map(entries).insert(entry.0, entry.1),
{
    let grown = entries.insert(at, entry);
    assert forall|i: int, j: int| 0 <= i < j < grown.len() implies grown[i].0 < grown[j].0 by {
        let a = if i < at { i } else { i - 1 };
        let b = if j < at { j } else { j - 1 };
        if i != at && j != at {
            assert(grown[i] == entries[a]);
            assert(grown[j] == entries[b]);
        } else if i == at {
            assert(grown[j] == entries[b]);
        } else {
            assert(grown[i] == entries[a]);
        }
    }
    assert forall|p: u64| #[trigger]
        ring_map(grown).contains_key(p) == ring_map(entries).insert(entry.0, entry.1).contains_key(
            p,
        ) by {
        if has_position(grown, p) {
            let j = choose|j: int| 0 <= j < grown.len() && (#[trigger] grown[j]).0 == p;
            if j < at {
                assert(entries[j].0 == p);
            } else if j > at {
                assert(entries[j - 1].0 == p);
            }
        }
        if has_position(entries, p) {
            let j = choose|j: int| 0 <= j < entries.len() && (#[trigger] entries[j]).0 == p;
            if j < at {
                assert(grown[j].0 == p);
            } else {
                assert(grown[j + 1].0 == p);
            }
        }
        if p == entry.0 {
            assert(grown[at].0 == p);
        }
    }
    assert forall|p: u64| #[trigger] ring_map(grown).contains_key(p) implies ring_map(grown)[p]
        == ring_map(entries).insert(entry.0, entry.1)[p] by {
        let j = choose|j: int| 0 <= j < grown.len() && (#[trigger] grown[j]).0 == p;
        lemma_ring_map_at(grown, j);
        if j < at {
            lemma_ring_map_at(entries, j);
        } else if j > at {
            lemma_ring_map_at(entries, j - 1);
        }
    }
    assert(ring_map(grown) =~= ring_map(entries).insert(entry.0, entry.1));
}

proof fn lemma_ring_update(entries: Seq<(u64, Seq<char>)>, at: int, entry: (u64, Seq<char>))
    requires
        strictly_rising(entries),
        0 <= at < entries.len(),
        entries[at].0 == entry.0,
    ensures
        strictly_rising(entries.update(at, entry)),
        ring_map(entries.update(at, entry)) == ring_map(entries).insert(entry.0, entry.1),
{
    let changed = entries.update(at, entry);
    assert forall|i: int, j: int| 0 <= i < j < changed.len() implies changed[i].0
        < changed[j].0 by {
        assert(changed[i].0 == entries[i].0);
        assert(changed[j].0 == entries[j].0);
    }
    assert forall|p: u64| #[trigger]
        ring_map(changed).contains_key(p) == ring_map(entries).insert(
            entry.0,
            entry.1,
        ).contains_key(p) by {
        if has_position(changed, p) {
            let j = choose|j: int| 0 <= j < changed.len() && (#[trigger] changed[j]).0 == p;
            assert(entries[j].0 == p);
        }
        if has_position(entries, p) {
            let j = choose|j: int| 0 <= j < entries.len() && (#[trigger] entries[j]).0 == p;
            assert(changed[j].0 == p);
        }
        if p == entry.0 {
            assert(changed[at].0 == p);
        }
    }
    assert forall|p: u64| #[trigger] ring_map(changed).contains_key(p) implies ring_map(
        changed,
    )[p] == ring_map(entries).insert(entry.0, entry.1)[p] by {
        let j = choose|j: int| 0 <= j < changed.len() && (#[trigger] changed[j]).0 == p;
        lemma_ring_map_at(changed, j);
        if j != at {
            lemma_ring_map_at(entries, j);
        }
    }
    assert(ring_map(changed) =~= ring_map(entries).insert(entry.0, entry.1));
}

proof fn lemma_ring_remove(entries: Seq<(u64, Seq<char>)>, at: int)
    requires
        strictly_rising(entries),
        0 <= at < entries.len(),
    ensures
        strictly_rising(entries.remove(at)),
        ring_map(entries.remove(at)) == ring_map(entries).remove(entries[at].0),
{
    let shrunk = entries.remove(at);
    assert forall|i: int, j: int| 0 <= i < j < shrunk.len() implies shrunk[i].0 < shrunk[j].0 by {
        let a = if i < at { i } else { i + 1 };
        let b = if j < at { j } else { j + 1 };
        assert(shrunk[i] == entries[a]);
        assert(shrunk[j] == entries[b]);
    }
    assert forall|p: u64| #[trigger]
        ring_map(shrunk).contains_key(p) == ring_map(entries).remove(entries[at].0).contains_key(
            p,
        ) by {
        if has_position(shrunk, p) {
            let j = choose|j: int| 0 <= j < shrunk.len() && (#[trigger] shrunk[j]).0 == p;
            let a = if j < at { j } else { j + 1 };
            assert(entries[a].0 == p);
            if a < at {
                assert(entries[a].0 < entries[at].0);
            } else {
                assert(entries[at].0 < entries[a].0);
            }
        }
        if has_position(entries, p) && p != entries[at].0 {
            let j = choose|j: int| 0 <= j < entries.len() && (#[trigger] entries[j]).0 == p;
            if j < at {
                assert(shrunk[j].0 == p);
            } else {
                assert(shrunk[j - 1].0 == p);
            }
        }
    }
    assert forall|p: u64| #[trigger] ring_map(shrunk).contains_key(p) implies ring_map(shrunk)[p]
        == ring_map(entries).remove(entries[at].0)[p] by {
        let j = choose|j: int| 0 <= j < shrunk.len() && (#[trigger] shrunk[j]).0 == p;
        lemma_ring_map_at(shrunk, j);
        let a = if j < at { j } else { j + 1 };
        lemma_ring_map_at(entries, a);
    }
    assert(ring_map(shrunk) =~= ring_map(entries).remove(entries[at].0));
}

/// `entry` is one of `entries`.
pub open spec fn is_entry_of(entries: Seq<(u64, Seq<char>)>, entry: (u64, Seq<char>)) -> bool {
    exists|i: int| 0 <= i < entries.len() && entries[i] == entry
}

/// The positions and node ids of a list of ring entries.
pub open spec fn entries_of(ring: Seq<RingEntry>) -> Seq<(u64, Seq<char>)> {
    Seq::new(ring.len(), |j: int| (ring[j].position, ring[j].node_id@))
}

/// The node ids of a list of members.
pub open spec fn member_ids(members: Seq<Member>) -> Set<Seq<char>> {
    Set::new(
        |id: Seq<char>| exists|m: int| 0 <= m < members.len() && (#[trigger] members[m]).node_id@ == id,
    )
}

/// Every entry is held by one of `nodes`, at one of that node's virtual
/// positions.
pub open spec fn entries_owned(entries: Seq<(u64, Seq<char>)>, nodes: Set<Seq<char>>) -> bool {
    forall|j: int|
        0 <= j < entries.len() ==> nodes.contains((#[trigger] entries[j]).1) && virtual_positions(
            entries[j].1,
            VIRTUAL_NODES as nat,
        ).contains(entries[j].0)
}

/// No two members have the same id, and each member's positions are those of
/// its virtual nodes, in order.
pub open spec fn members_sound(members: Seq<Member>) -> bool {
    &&& forall|a: int, b: int|
        0 <= a < b < members.len() ==> (#[trigger] members[a]).node_id@ != (
        #[trigger] members[b]).node_id@
    &&& forall|m: int|
        0 <= m < members.len() ==> (#[trigger] members[m]).positions@ == Seq::new(
            VIRTUAL_NODES as nat,
            |i: int| spec_virtual_position(members[m].node_id@, i as nat),
        )
}

proof fn lemma_virtual_positions_grow(node_id: Seq<char>, count: nat)
    ensures
        virtual_positions(node_id, count + 1) == virtual_positions(node_id, count).insert(
            spec_virtual_position(node_id, count),
        ),
{
    let more = virtual_positions(node_id, count + 1);
    let grown = virtual_positions(node_id, count).insert(spec_virtual_position(node_id, count));
    assert forall|p: u64| more.contains(p) == grown.contains(p) by {
        if more.contains(p) {
            let i = choose|i: nat| i < count + 1 && #[trigger] spec_virtual_position(node_id, i) == p;
            if i < count {
                assert(virtual_positions(node_id, count).contains(p));
            }
        }
        if virtual_positions(node_id, count).contains(p) {
            let i = choose|i: nat| i < count && #[trigger] spec_virtual_position(node_id, i) == p;
            assert(i < count + 1);
        }
        if p == spec_virtual_position(node_id, count) {
            assert(count < count + 1);
        }
    }
    assert(more =~= grown);
}

proof fn lemma_distinct_prefix_full(walk: Seq<Seq<char>>, from: int, to: int, limit: nat)
    requires
        0 <= from <= to,
        distinct_prefix(walk, from, limit).len() >= limit,
    ensures
        distinct_prefix(walk, to, limit) == distinct_prefix(walk, from, limit),
    decreases to - from,
{
    if from < to {
        lemma_distinct_prefix_full(walk, from, to - 1, limit);
    }
}

fn lower_bound(ring: &Vec<RingEntry>, h: u64) -> (at: usize)
    requires
        strictly_rising(entries_of(ring@)),
    ensures
        at <= ring@.len(),
        forall|i: int| 0 <= i < at ==> (#[trigger] ring@[i]).position < h,
        forall|i: int| at <= i < ring@.len() ==> (#[trigger] ring@[i]).position >= h,
{
    let mut lo: usize = 0;
    let mut hi: usize = ring.len();
    while lo < hi
        invariant
            lo <= hi <= ring@.len(),
            strictly_rising(entries_of(ring@)),
            forall|i: int| 0 <= i < lo ==> (#[trigger] ring@[i]).position < h,
            forall|i: int| hi <= i < ring@.len() ==> (#[trigger] ring@[i]).position >= h,
        decreases hi - lo,
    {
        let mid = lo + (hi - lo) / 2;
        if ring[mid].position < h {
            assert forall|i: int| 0 <= i < mid + 1 implies (#[trigger] ring@[i]).position < h by {
                if i < mid {
                    assert(entries_of(ring@)[i].0 < entries_of(ring@)[mid as int].0);
                }
            }
            lo = mid + 1;
        } else {
            assert forall|i: int| mid <= i < ring@.len() implies (#[trigger] ring@[i]).position
                >= h by {
                if mid < i {
                    assert(entries_of(ring@)[mid as int].0 < entries_of(ring@)[i].0);
                }
            }
            hi = mid;
        }
    }
    lo
}

fn owner_index(ring: &Vec<RingEntry>, h: u64) -> (at: usize)
    requires
        ring@.len() > 0,
        strictly_rising(entries_of(ring@)),
    ensures
        is_owner_index(entries_of(ring@), h, at as int),
{
    let found = lower_bound(ring, h);
    let at = if found == ring.len() {
        0
    } else {
        found
    };
    assert(is_owner_index(entries_of(ring@), h, at as int)) by {
        assert forall|i: int| 0 <= i < found implies (#[trigger] entries_of(ring@)[i]).0 < h by {
            assert(ring@[i].position < h);
        }
        if found < ring@.len() {
            assert(ring@[found as int].position >= h);
        }
    }
    at
}

fn ring_insert(ring: &mut Vec<RingEntry>, position: u64, node_id: &str)
    requires
        strictly_rising(entries_of(old(ring)@)),
    ensures
        strictly_rising(entries_of(final(ring)@)),
        ring_map(entries_of(final(ring)@)) == ring_map(entries_of(old(ring)@)).insert(
            position,
            node_id@,
        ),
        forall|j: int|
            0 <= j < final(ring)@.len() ==> (#[trigger] entries_of(final(ring)@)[j]) == (
                position,
                node_id@,
            ) || is_entry_of(entries_of(old(ring)@), entries_of(final(ring)@)[j]),
{
    let at = lower_bound(ring, position);
    let entry = RingEntry { position, node_id: node_id.to_owned() };
    let ghost before = entries_of(ring@);
    assert forall|i: int| 0 <= i < at implies (#[trigger] before[i]).0 < position by {
        assert(ring@[i].position < position);
    }
    if at < ring.len() && ring[at].position == position {
        ring.set(at, entry);
        proof {
            assert(entries_of(ring@) =~= before.update(at as int, (position, node_id@)));
            lemma_ring_update(before, at as int, (position, node_id@));
            assert forall|j: int| 0 <= j < ring@.len() implies (#[trigger] entries_of(ring@)[j])
                == (position, node_id@) || is_entry_of(before, entries_of(ring@)[j]) by {
                if j != at {
                    assert(before[j] == entries_of(ring@)[j]);
                }
            }
        }
    } else {
        assert forall|i: int| at <= i < before.len() implies position < (#[trigger] before[i]).0 by {
            assert(ring@[i].position >= position);
            if i > at {
                assert(before[at as int].0 < before[i].0);
            }
        }
        ring.insert(at, entry);
        proof {
            assert(entries_of(ring@) =~= before.insert(at as int, (position, node_id@)));
            lemma_ring_insert(before, at as int, (position, node_id@));
            assert forall|j: int| 0 <= j < ring@.len() implies (#[trigger] entries_of(ring@)[j])
                == (position, node_id@) || is_entry_of(before, entries_of(ring@)[j]) by {
                if j < at {
                    assert(before[j] == entries_of(ring@)[j]);
                } else if j > at {
                    assert(before[j - 1] == entries_of(ring@)[j]);
                }
            }
        }
    }
}

fn ring_remove(ring: &mut Vec<RingEntry>, position: u64)
    requires
        strictly_rising(entries_of(old(ring)@)),
    ensures
        strictly_rising(entries_of(final(ring)@)),
        ring_map(entries_of(final(ring)@)) == ring_map(entries_of(old(ring)@)).remove(position),
        forall|j: int|
            0 <= j < final(ring)@.len() ==> (#[trigger] entries_of(final(ring)@)[j]).0 != position
                && is_entry_of(entries_of(old(ring)@), entries_of(final(ring)@)[j]),
{
    let at = lower_bound(ring, position);
    let ghost before = entries_of(ring@);
    if at < ring.len() && ring[at].position == position {
        ring.remove(at);
        proof {
            assert(entries_of(ring@) =~= before.remove(at as int));
            lemma_ring_remove(before, at as int);
            assert forall|j: int| 0 <= j < ring@.len() implies (#[trigger] entries_of(ring@)[j]).0
                != position && is_entry_of(before, entries_of(ring@)[j]) by {
                if j < at {
                    assert(before[j] == entries_of(ring@)[j]);
                    assert(before[j].0 < before[at as int].0);
                } else {
                    assert(before[j + 1] == entries_of(ring@)[j]);
                    assert(before[at as int].0 < before[j + 1].0);
                }
            }
        }
    } else {
        proof {
            assert(!has_position(before, position)) by {
                if has_position(before, position) {
                    let j = choose|j: int| 0 <= j < before.len() && (#[trigger] before[j]).0 == position;
                    assert(ring@[j].position == position);
                    if j > at {
                        assert(before[at as int].0 < before[j].0);
                    }
                }
            }
            assert(ring_map(before).remove(position) =~= ring_map(before));
            assert forall|j: int| 0 <= j < ring@.len() implies (#[trigger] entries_of(ring@)[j]).0
                != position && is_entry_of(before, entries_of(ring@)[j]) by {
                assert(before[j] == entries_of(ring@)[j]);
                if entries_of(ring@)[j].0 == position {
                    assert(has_position(before, position));
                }
            }
        }
    }
}

fn find_member(members: &Vec<Member>, node_id: &String) -> (found: Option<usize>)
    ensures
        match found {
            Some(m) => m < members@.len() && members@[m as int].node_id@ == node_id@,
            None => !member_ids(members@).contains(node_id@),
        },
{
    let mut m: usize = 0;
    while m < members.len()
        invariant
            m <= members@.len(),
            forall|k: int| 0 <= k < m ==> (#[trigger] members@[k]).node_id@ != node_id@,
        decreases members@.len() - m,
    {
        if members[m].node_id == *node_id {
            return Some(m);
        }
        m = m + 1;
    }
    None
}

fn contains_id(names: &Vec<String>, id: &String) -> (found: bool)
    ensures
        found == ids_of(names@).contains(id@),
{
    let mut k: usize = 0;
    while k < names.len()
        invariant
            k <= names@.len(),
            forall|j: int| 0 <= j < k ==> (#[trigger] ids_of(names@)[j]) != id@,
        decreases names@.len() - k,
    {
        if names[k] == *id {
            assert(ids_of(names@)[k as int] == id@);
            return true;
        }
        k = k + 1;
    }
    false
}

/// A consistent-hash ring. Each node holds `VIRTUAL_NODES` positions on a
/// circle of 64-bit hashes; a key belongs to the node at the first position
/// at or after the key's hash, going round to the first position of all.
pub struct ConsistentHash {
    ring: Vec<RingEntry>,
    node_hashes: Vec<Member>,
}

impl Default for ConsistentHash {
    fn default() -> (r: Self)
        ensures
            r.wf(),
            r.spec_ring().len() == 0,
            r.nodes() == Set::<Seq<char>>::empty(),
    {
        Self::new()
    }
}

impl ConsistentHash {
    /// The taken positions with their nodes, in rising order of position.
    pub closed spec fn spec_ring(&self) -> Seq<(u64, Seq<char>)> {
        entries_of(self.ring@)
    }

    /// The ids of the nodes that are on the ring.
    pub closed spec fn nodes(&self) -> Set<Seq<char>> {
        member_ids(self.node_hashes@)
    }

    /// The ring is in rising order, every entry belongs to a node that is
    /// present, and the record of each node's positions is in order.
    pub closed spec fn wf(&self) -> bool {
        &&& strictly_rising(self.spec_ring())
        &&& entries_owned(self.spec_ring(), self.nodes())
        &&& members_sound(self.node_hashes@)
    }

    /// What a well-formed ring guarantees to its readers.
    pub proof fn lemma_wf(&self)
        requires
            self.wf(),
        ensures
            strictly_rising(self.spec_ring()),
            entries_owned(self.spec_ring(), self.nodes()),
    {
    }

    /// An empty ring.
    pub fn new() -> (r: Self)
        ensures
            r.wf(),
            r.spec_ring().len() == 0,
            r.nodes() == Set::<Seq<char>>::empty(),
    {
        let r = ConsistentHash { ring: Vec::new(), node_hashes: Vec::new() };
        assert(r.nodes() =~= Set::<Seq<char>>::empty());
        r
    }

    /// Puts `node_id` on the ring: each of its `VIRTUAL_NODES` positions now
    /// belongs to it, whoever held the position before.
    pub fn add_node(&mut self, node_id: &str)
        requires
            old(self).wf(),
        ensures
            final(self).wf(),
            final(self).nodes() == old(self).nodes().insert(node_id@),
            ring_map(final(self).spec_ring()) == installed(
                ring_map(old(self).spec_ring()),
                node_id@,
                VIRTUAL_NODES as nat,
            ),
    {
        let ghost ring_before = entries_of(self.ring@);
        let ghost nodes_before = member_ids(self.node_hashes@);
        let mut positions: Vec<u64> = Vec::new();
        let mut i: usize = 0;
        while i < VIRTUAL_NODES
            invariant
                i <= VIRTUAL_NODES,
                self.node_hashes@ == old(self).node_hashes@,
                strictly_rising(entries_of(self.ring@)),
                ring_map(entries_of(self.ring@)) == installed(
                    ring_map(ring_before),
                    node_id@,
                    i as nat,
                ),
                positions@ == Seq::new(i as nat, |k: int| spec_virtual_position(node_id@, k as nat)),
                entries_owned(ring_before, nodes_before),
                forall|j: int|
                    0 <= j < self.ring@.len() ==> {
                        ||| (#[trigger] entries_of(self.ring@)[j]).1 == node_id@
                            && virtual_positions(node_id@, i as nat).contains(
                            entries_of(self.ring@)[j].0,
                        )
                        ||| is_entry_of(ring_before, entries_of(self.ring@)[j])
                    },
            decreases VIRTUAL_NODES - i,
        {
            let position = virtual_position(node_id, i);
            let ghost ring_mid = entries_of(self.ring@);
            ring_insert(&mut self.ring, position, node_id);
            positions.push(position);
            proof {
                lemma_virtual_positions_grow(node_id@, i as nat);
                assert(positions@ =~= Seq::new(
                    (i + 1) as nat,
                    |k: int| spec_virtual_position(node_id@, k as nat),
                ));
                assert forall|j: int| 0 <= j < self.ring@.len() implies {
                    ||| (#[trigger] entries_of(self.ring@)[j]).1 == node_id@ && virtual_positions(
                        node_id@,
                        (i + 1) as nat,
                    ).contains(entries_of(self.ring@)[j].0)
                    ||| is_entry_of(ring_before, entries_of(self.ring@)[j])
                } by {
                    let entry = entries_of(self.ring@)[j];
                    if entry != (position, node_id@) {
                        assert(is_entry_of(ring_mid, entry));
                        let k = choose|k: int| 0 <= k < ring_mid.len() && ring_mid[k] == entry;
                        assert(ring_mid[k] == entry);
                    }
                }
            }
            i = i + 1;
        }
        let owned = node_id.to_owned();
        let found = find_member(&self.node_hashes, &owned);
        let ghost members_before = self.node_hashes@;
        if found.is_none() {
            self.node_hashes.push(Member { node_id: owned, positions });
        }
        proof {
            let members = self.node_hashes@;
            assert(member_ids(members) =~= nodes_before.insert(node_id@)) by {
                assert forall|id: Seq<char>| member_ids(members).contains(id)
                    == nodes_before.insert(node_id@).contains(id) by {
                    if member_ids(members).contains(id) {
                        let m = choose|m: int| 0 <= m < members.len() && (#[trigger] members[m]).node_id@ == id;
                        if m < members_before.len() {
                            assert(members_before[m].node_id@ == id);
                        }
                    }
                    if nodes_before.contains(id) {
                        let m = choose|m: int| 0 <= m < members_before.len() && (#[trigger] members_before[m]).node_id@ == id;
                        assert(members[m].node_id@ == id);
                    }
                    if id == node_id@ {
                        match found {
                            Some(m) => {
                                assert(members[m as int].node_id@ == id);
                            },
                            None => {
                                assert(members[members.len() - 1].node_id@ == id);
                            },
                        }
                    }
                }
            }
            assert(members_sound(members)) by {
                if found.is_none() {
                    assert forall|a: int, b: int| 0 <= a < b < members.len() implies (
                    #[trigger] members[a]).node_id@ != (#[trigger] members[b]).node_id@ by {
                        if b == members.len() - 1 {
                            assert(members_before[a].node_id@ != node_id@);
                        } else {
                            assert(members_before[a].node_id@ != members_before[b].node_id@);
                        }
                    }
                    assert forall|m: int| 0 <= m < members.len() implies (
                    #[trigger] members[m]).positions@ == Seq::new(
                        VIRTUAL_NODES as nat,
                        |i: int| spec_virtual_position(members[m].node_id@, i as nat),
                    ) by {
                        if m < members_before.len() {
                            assert(members[m] == members_before[m]);
                        }
                    }
                }
            }
            assert(entries_owned(entries_of(self.ring@), member_ids(members))) by {
                assert forall|j: int| 0 <= j < entries_of(self.ring@).len() implies member_ids(
                    members,
                ).contains((#[trigger] entries_of(self.ring@)[j]).1) && virtual_positions(
                    entries_of(self.ring@)[j].1,
                    VIRTUAL_NODES as nat,
                ).contains(entries_of(self.ring@)[j].0) by {
                    let entry = entries_of(self.ring@)[j];
                    if is_entry_of(ring_before, entry) {
                        let k = choose|k: int| 0 <= k < ring_before.len() && ring_before[k] == entry;
                        assert(nodes_before.contains(ring_before[k].1));
                    }
                }
            }
        }
    }

    /// Takes `node_id` off the ring and tells whether it was on it. Every
    /// position that was installed for it is given up, also one that another
    /// node had taken since.
    pub fn remove_node(&mut self, node_id: &str) -> (present: bool)
        requires
            old(self).wf(),
        ensures
            final(self).wf(),
            present == old(self).nodes().contains(node_id@),
            present ==> final(self).nodes() == old(self).nodes().remove(node_id@),
            present ==> ring_map(final(self).spec_ring()) == ring_map(
                old(self).spec_ring(),
            ).remove_keys(virtual_positions(node_id@, VIRTUAL_NODES as nat)),
            !present ==> final(self).nodes() == old(self).nodes(),
            !present ==> final(self).spec_ring() == old(self).spec_ring(),
    {
        let owned = node_id.to_owned();
        let found = find_member(&self.node_hashes, &owned);
        let ghost ring_before = entries_of(self.ring@);
        let ghost nodes_before = member_ids(self.node_hashes@);
        let ghost members_before = self.node_hashes@;
        match found {
            None => false,
            Some(m) => {
                let member = self.node_hashes.remove(m);
                let count = member.positions.len();
                let mut i: usize = 0;
                assert(virtual_positions(node_id@, 0) =~= Set::<u64>::empty());
                assert(ring_map(ring_before).remove_keys(Set::<u64>::empty()) =~= ring_map(
                    ring_before,
                ));
                while i < count
                    invariant
                        i <= count == VIRTUAL_NODES,
                        m < members_before.len(),
                        self.node_hashes@ == members_before.remove(m as int),
                        member.positions@ == Seq::new(
                            VIRTUAL_NODES as nat,
                            |k: int| spec_virtual_position(node_id@, k as nat),
                        ),
                        strictly_rising(entries_of(self.ring@)),
                        ring_map(entries_of(self.ring@)) == ring_map(ring_before).remove_keys(
                            virtual_positions(node_id@, i as nat),
                        ),
                        forall|j: int|
                            0 <= j < self.ring@.len() ==> !virtual_positions(
                                node_id@,
                                i as nat,
                            ).contains((#[trigger] entries_of(self.ring@)[j]).0) && is_entry_of(
                                ring_before,
                                entries_of(self.ring@)[j],
                            ),
                    decreases count - i,
                {
                    let position = member.positions[i];
                    let ghost ring_mid = entries_of(self.ring@);
                    ring_remove(&mut self.ring, position);
                    proof {
                        lemma_virtual_positions_grow(node_id@, i as nat);
                        assert(ring_map(ring_before).remove_keys(
                            virtual_positions(node_id@, i as nat),
                        ).remove(position) =~= ring_map(ring_before).remove_keys(
                            virtual_positions(node_id@, (i + 1) as nat),
                        ));
                        assert forall|j: int| 0 <= j < self.ring@.len() implies !virtual_positions(
                            node_id@,
                            (i + 1) as nat,
                        ).contains((#[trigger] entries_of(self.ring@)[j]).0) && is_entry_of(
                            ring_before,
                            entries_of(self.ring@)[j],
                        ) by {
                            let entry = entries_of(self.ring@)[j];
                            assert(is_entry_of(ring_mid, entry));
                            let k = choose|k: int| 0 <= k < ring_mid.len() && ring_mid[k] == entry;
                            assert(ring_mid[k] == entry);
                        }
                    }
                    i = i + 1;
                }
                proof {
                    let members = self.node_hashes@;
                    assert(member_ids(members) =~= nodes_before.remove(node_id@)) by {
                        assert forall|id: Seq<char>| member_ids(members).contains(id)
                            == nodes_before.remove(node_id@).contains(id) by {
                            if member_ids(members).contains(id) {
                                let k = choose|k: int| 0 <= k < members.len() && (#[trigger] members[k]).node_id@ == id;
                                let b = if k < m { k } else { k + 1 };
                                assert(members_before[b].node_id@ == id);
                                if b < m {
                                    assert(members_before[b].node_id@ != members_before[m as int].node_id@);
                                } else {
                                    assert(members_before[m as int].node_id@ != members_before[b].node_id@);
                                }
                            }
                            if nodes_before.contains(id) && id != node_id@ {
                                let b = choose|b: int| 0 <= b < members_before.len() && (#[trigger] members_before[b]).node_id@ == id;
                                if b < m {
                                    assert(members[b].node_id@ == id);
                                } else {
                                    assert(members[b - 1].node_id@ == id);
                                }
                            }
                        }
                    }
                    assert(members_sound(members)) by {
                        assert forall|a: int, b: int| 0 <= a < b < members.len() implies (
                        #[trigger] members[a]).node_id@ != (#[trigger] members[b]).node_id@ by {
                            let a0 = if a < m { a } else { a + 1 };
                            let b0 = if b < m { b } else { b + 1 };
                            assert(members_before[a0].node_id@ != members_before[b0].node_id@);
                        }
                        assert forall|k: int| 0 <= k < members.len() implies (
                        #[trigger] members[k]).positions@ == Seq::new(
                            VIRTUAL_NODES as nat,
                            |i: int| spec_virtual_position(members[k].node_id@, i as nat),
                        ) by {
                            let k0 = if k < m { k } else { k + 1 };
                            assert(members[k] == members_before[k0]);
                        }
                    }
                    assert(entries_owned(entries_of(self.ring@), member_ids(members))) by {
                        assert forall|j: int|
                            0 <= j < entries_of(self.ring@).len() implies member_ids(
                            members,
                        ).contains((#[trigger] entries_of(self.ring@)[j]).1) && virtual_positions(
                            entries_of(self.ring@)[j].1,
                            VIRTUAL_NODES as nat,
                        ).contains(entries_of(self.ring@)[j].0) by {
                            let entry = entries_of(self.ring@)[j];
                            assert(is_entry_of(ring_before, entry));
                            let k = choose|k: int| 0 <= k < ring_before.len() && ring_before[k] == entry;
                            assert(nodes_before.contains(ring_before[k].1));
                        }
                    }
                }
                true
            },
        }
    }

    /// The node that owns `key`: the one at the first position at or after
    /// the key's hash, or at the first position of all where the hash lies
    /// beyond the last. `None` exactly on an empty ring.
    pub fn get_node(&self, key: &str) -> (r: Option<String>)
        requires
            self.wf(),
        ensures
            match r {
                None => self.spec_ring().len() == 0,
                Some(id) => exists|j: int|
                    is_owner_index(self.spec_ring(), spec_hash_key(key@), j) && id@
                        == self.spec_ring()[j].1,
            },
            r matches Some(id) ==> self.nodes().contains(id@),
    {
        if self.ring.len() == 0 {
            return None;
        }
        let h = hash_key(key);
        let at = owner_index(&self.ring, h);
        let id = self.ring[at].node_id.clone();
        assert(self.spec_ring()[at as int].1 == id@);
        Some(id)
    }

    /// The first `n` distinct nodes met on one turn round the ring that
    /// begins at the owner of `key`; fewer where the ring has fewer nodes.
    pub fn get_replicas(&self, key: &str, n: usize) -> (r: Vec<String>)
        requires
            self.wf(),
        ensures
            self.spec_ring().len() == 0 ==> r@.len() == 0,
            self.spec_ring().len() > 0 ==> exists|start: int|
                is_owner_index(self.spec_ring(), spec_hash_key(key@), start) && ids_of(r@)
                    == distinct_prefix(
                    walk_from(self.spec_ring(), start),
                    self.spec_ring().len() as int,
                    n as nat,
                ),
            r@.len() <= n,
            ids_of(r@).no_duplicates(),
            forall|j: int| 0 <= j < r@.len() ==> self.nodes().contains(#[trigger] r@[j]@),
    {
        let mut replicas: Vec<String> = Vec::new();
        let len = self.ring.len();
        if len == 0 {
            assert(ids_of(replicas@) =~= Seq::<Seq<char>>::empty());
            return replicas;
        }
        let h = hash_key(key);
        let start = owner_index(&self.ring, h);
        let ghost walk = walk_from(self.spec_ring(), start as int);
        assert(ids_of(replicas@) =~= distinct_prefix(walk, 0, n as nat));
        let mut step: usize = 0;
        while step < len && replicas.len() < n
            invariant
                len == self.ring@.len(),
                start < len,
                step <= len,
                walk == walk_from(self.spec_ring(), start as int),
                ids_of(replicas@) == distinct_prefix(walk, step as int, n as nat),
            decreases len - step,
        {
            let at = if step < len - start {
                start + step
            } else {
                step - (len - start)
            };
            assert(walk[step as int] == self.ring@[at as int].node_id@);
            if !contains_id(&replicas, &self.ring[at].node_id) {
                replicas.push(self.ring[at].node_id.clone());
                assert(ids_of(replicas@) =~= distinct_prefix(walk, step as int, n as nat).push(
                    walk[step as int],
                ));
            }
            step = step + 1;
        }
        proof {
            lemma_distinct_prefix(walk, step as int, n as nat);
            if step < len {
                lemma_distinct_prefix_full(walk, step as int, len as int, n as nat);
            }
            lemma_distinct_prefix(walk, len as int, n as nat);
            assert forall|j: int| 0 <= j < replicas@.len() implies self.nodes().contains(
                #[trigger] replicas@[j]@,
            ) by {
                let id = ids_of(replicas@)[j];
                assert(ids_of(replicas@).contains(id));
                let w = choose|w: int| 0 <= w < len && walk[w] == id;
                let e = if start + w < len { start + w } else { start + w - len };
                assert(self.nodes().contains(self.spec_ring()[e].1));
            }
        }
        replicas
    }
}

} // verus!
