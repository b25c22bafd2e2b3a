//! Neighbor maps derived from the cluster membership.
//!
//! A topology is a pure function from the ordered list of node ids to a map
//! that gives each node the peers it gossips to.

use vstd::hash_map::StringHashMap;
use vstd::prelude::*;

verus! {

/// The strategies a node can derive its gossip fan-out with.
#[derive(Debug, Clone, Copy, PartialEq, Eq, Structural)]
pub enum Topology {
    /// The first id is the hub: it talks to all the others, and every other
    /// node talks to the hub alone.
    StarTopology,
    /// Every node talks to every node whose id differs from its own.
    FullMeshTopology,
    /// Every node talks to its successor in the membership order; the last
    /// one wraps around to the first.
    RingTopology,
}

/// A neighbor map in its mathematical form: node id to the ordered list of
/// neighbor ids.
pub type NeighborMap = Map<Seq<char>, Seq<Seq<char>>>;

/// The position of the last occurrence of `id` in `ids`, or `-1` when `id`
/// does not occur.
pub open spec fn last_index_of(ids: Seq<Seq<char>>, id: Seq<char>) -> int
    decreases ids.len(),
{
    if ids.len() == 0 {
        -1
    } else if ids.last() == id {
        ids.len() - 1
    } else {
        last_index_of(ids.drop_last(), id)
    }
}

/// Neighbors of `id` in the star over `ids`.
pub open spec fn star_neighbors(ids: Seq<Seq<char>>, id: Seq<char>) -> Seq<Seq<char>> {
    if id == ids[0] {
        ids.subrange(1, ids.len() as int)
    } else {
        seq![ids[0]]
    }
}

/// The test that holds of every id but `id`.
pub open spec fn differs_from(id: Seq<char>) -> spec_fn(Seq<char>) -> bool {
    |other: Seq<char>| other != id
}

/// Neighbors of `id` in the full mesh over `ids`: the membership without `id`,
/// in membership order.
pub open spec fn full_mesh_neighbors(ids: Seq<Seq<char>>, id: Seq<char>) -> Seq<Seq<char>> {
    ids.filter(differs_from(id))
}

/// The position that follows `index` in a ring of `len` positions.
pub open spec fn ring_successor(len: int, index: int) -> int {
    if index + 1 < len {
        index + 1
    } else {
        0
    }
}

/// Neighbors of `id` in the ring over `ids`: the entry that follows the last
/// occurrence of `id`, wrapping at the end.
pub open spec fn ring_neighbors(ids: Seq<Seq<char>>, id: Seq<char>) -> Seq<Seq<char>> {
    seq![ids[ring_successor(ids.len() as int, last_index_of(ids, id))]]
}

impl Topology {
    /// Neighbors that this strategy gives to `id`, a member of `ids`.
    pub open spec fn neighbors_of(self, ids: Seq<Seq<char>>, id: Seq<char>) -> Seq<Seq<char>> {
        match self {
            Topology::StarTopology => star_neighbors(ids, id),
            Topology::FullMeshTopology => full_mesh_neighbors(ids, id),
            Topology::RingTopology => ring_neighbors(ids, id),
        }
    }

    /// The neighbor map of this strategy over `ids`: one entry for each id
    /// that occurs in `ids`.
    pub open spec fn neighbor_map(self, ids: Seq<Seq<char>>) -> NeighborMap {
        Map::new(|id: Seq<char>| ids.contains(id), |id: Seq<char>| self.neighbors_of(ids, id))
    }
}

/// Where `id` occurs in `ids`, `last_index_of` is a position of `ids` that
/// holds it.
pub proof fn lemma_last_index_of(ids: Seq<Seq<char>>, id: Seq<char>)
    requires
        ids.contains(id),
    ensures
        0 <= last_index_of(ids, id) < ids.len(),
        ids[last_index_of(ids, id)] == id,
    decreases ids.len(),
{
    if ids.last() != id {
        let k = choose|k: int| 0 <= k < ids.len() && ids[k] == id;
        assert(ids.drop_last()[k] == id);
        lemma_last_index_of(ids.drop_last(), id);
    }
}

/// Every strategy picks a member's neighbors from the membership.
pub proof fn lemma_neighbors_are_members(topology: Topology, ids: Seq<Seq<char>>, id: Seq<char>)
    requires
        ids.contains(id),
    ensures
        forall|i: int|
            0 <= i < topology.neighbors_of(ids, id).len() ==> ids.contains(
                #[trigger] topology.neighbors_of(ids, id)[i],
            ),
{
    let neighbors = topology.neighbors_of(ids, id);
    assert forall|i: int| 0 <= i < neighbors.len() implies ids.contains(
        #[trigger] neighbors[i],
    ) by {
        match topology {
            Topology::StarTopology => {
                if id == ids[0] {
                    assert(neighbors[i] == ids[i + 1]);
                } else {
                    assert(neighbors[i] == ids[0]);
                }
            },
            Topology::FullMeshTopology => {
                ids.lemma_filter_contains_rev(differs_from(id), neighbors[i]);
            },
            Topology::RingTopology => {
                lemma_last_index_of(ids, id);
            },
        }
    }
}

/// The mathematical form of an executable neighbor map.
pub open spec fn neighbor_map_view(m: Map<Seq<char>, Vec<String>>) -> NeighborMap {
    m.map_values(|v: Vec<String>| v.deep_view())
}

/// A copy of `ids` from position `from` on.
pub fn copy_from(ids: &Vec<String>, from: usize) -> (out: Vec<String>)
    requires
        from <= ids.len(),
    ensures
        out.deep_view() == ids.deep_view().subrange(from as int, ids.len() as int),
{
    let mut out: Vec<String> = Vec::new();
    let mut i: usize = from;
    while i < ids.len()
        invariant
            from <= i <= ids.len(),
            out.len() == i - from,
            forall|j: int| 0 <= j < out.len() ==> out[j]@ == ids[from + j]@,
        decreases ids.len() - i,
    {
        out.push(ids[i].clone());
        i += 1;
    }
    out
}

/// The neighbor list of one node: a single id.
fn single(id: &String) -> (out: Vec<String>)
    ensures
        out.deep_view() == seq![id@],
{
    let mut out: Vec<String> = Vec::new();
    out.push(id.clone());
    out
}

/// A copy of `ids` without the entries equal to `id`.
fn clone_without(ids: &Vec<String>, id: &String) -> (out: Vec<String>)
    ensures
        out.deep_view() == full_mesh_neighbors(ids.deep_view(), id@),
{
    let ghost pred = differs_from(id@);
    let mut out: Vec<String> = Vec::new();
    let mut i: usize = 0;
    while i < ids.len()
        invariant
            i <= ids.len(),
            pred == differs_from(id@),
            out.deep_view() == ids.deep_view().take(i as int).filter(pred),
        decreases ids.len() - i,
    {
        let ghost next = ids.deep_view().take(i + 1);
        let same = ids[i] == *id;
        if !same {
            out.push(ids[i].clone());
        }
        proof {
            assert(next.drop_last() =~= ids.deep_view().take(i as int));
            reveal(Seq::filter);
            assert(next.filter(pred) == if pred(next.last()) {
                next.drop_last().filter(pred).push(next.last())
            } else {
                next.drop_last().filter(pred)
            });
        }
        i += 1;
    }
    assert(ids.deep_view().take(ids.len() as int) =~= ids.deep_view());
    out
}

impl Topology {
    /// The neighbors that this strategy gives to `node_id` in the cluster
    /// `node_ids`, or `None` where `node_id` is no member of it.
    pub fn neighbors(self, node_ids: &Vec<String>, node_id: &str) -> (found: Option<Vec<String>>)
        ensures
            found.deep_view() == (if node_ids.deep_view().contains(node_id@) {
                Some(self.neighbors_of(node_ids.deep_view(), node_id@))
            } else {
                None
            }),
    {
        let topology = self.get_topology(node_ids);
        assert(neighbor_map_view(topology@).contains_key(node_id@) == topology@.contains_key(
            node_id@,
        ));
        match topology.get(node_id) {
            Some(list) => {
                assert(neighbor_map_view(topology@)[node_id@] == list.deep_view());
                Some(copy_from(list, 0))
            },
            None => None,
        }
    }

    /// Derives the neighbor map of this strategy from the cluster membership.
    ///
    /// The map has one entry for each id that occurs in `node_ids`; an empty
    /// membership gives an empty map.
    pub fn get_topology(self, node_ids: &Vec<String>) -> (topology: StringHashMap<Vec<String>>)
        ensures
            neighbor_map_view(topology@) == self.neighbor_map(node_ids.deep_view()),
    {
        let ghost ids = node_ids.deep_view();
        let n = node_ids.len();
        let mut topology: StringHashMap<Vec<String>> = StringHashMap::new();
        let mut index: usize = 0;
        while index < n
            invariant
                index <= n,
                n == node_ids.len(),
                ids == node_ids.deep_view(),
                forall|id: Seq<char>|
                    topology@.contains_key(id) <==> #[trigger] ids.take(index as int).contains(id),
                forall|id: Seq<char>| #[trigger]
                    topology@.contains_key(id) ==> topology@[id].deep_view() == (match self {
                        Topology::RingTopology => seq![ids[ring_successor(
                            n as int,
                            last_index_of(ids.take(index as int), id),
                        )]],
                        _ => self.neighbors_of(ids, id),
                    }),
            decreases n - index,
        {
            let node_id = &node_ids[index];
            let neighbors = match self {
                Topology::StarTopology => {
                    if *node_id == node_ids[0] {
                        copy_from(node_ids, 1)
                    } else {
                        single(&node_ids[0])
                    }
                },
                Topology::FullMeshTopology => clone_without(node_ids, node_id),
                Topology::RingTopology => {
                    if index + 1 < n {
                        single(&node_ids[index + 1])
                    } else {
                        single(&node_ids[0])
                    }
                },
            };
            proof {
                let next = ids.take(index + 1);
                assert(next.drop_last() =~= ids.take(index as int));
                assert forall|id: Seq<char>| #[trigger]
                    next.contains(id) <==> (id == node_id@ || ids.take(index as int).contains(
                        id,
                    )) by {
                    if next.contains(id) {
                        let k = choose|k: int| 0 <= k < next.len() && next[k] == id;
                        if k < index {
                            assert(ids.take(index as int)[k] == id);
                        }
                    }
                    if ids.take(index as int).contains(id) {
                        let k = choose|k: int|
                            0 <= k < ids.take(index as int).len() && ids.take(index as int)[k]
                                == id;
                        assert(next[k] == id);
                    }
                    if id == node_id@ {
                        assert(next[index as int] == id);
                    }
                }
            }
            topology.insert(node_id.clone(), neighbors);
            proof {
                let next = ids.take(index + 1);
                assert forall|id: Seq<char>| #[trigger]
                    topology@.contains_key(id) implies topology@[id].deep_view() == (match self {
                    Topology::RingTopology => seq![ids[ring_successor(
                        n as int,
                        last_index_of(next, id),
                    )]],
                    _ => self.neighbors_of(ids, id),
                }) by {
                    if id != node_id@ {
                        assert(last_index_of(next, id) == last_index_of(
                            ids.take(index as int),
                            id,
                        ));
                    }
                }
            }
            index += 1;
        }
        proof {
            assert(ids.take(n as int) =~= ids);
        }
        topology
    }
}

} // verus!
