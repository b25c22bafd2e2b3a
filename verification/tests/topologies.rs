use gossip_glomers::topologies::{copy_from, Topology};

fn ids(names: &[&str]) -> Vec<String> {
    names.iter().map(|name| name.to_string()).collect()
}

#[test]
fn star_hub_talks_to_all_others() {
    let topology = Topology::StarTopology.get_topology(&ids(&["n1", "n2", "n3"]));
    assert_eq!(topology.len(), 3);
    assert_eq!(topology.get("n1"), Some(&ids(&["n2", "n3"])));
    assert_eq!(topology.get("n2"), Some(&ids(&["n1"])));
    assert_eq!(topology.get("n3"), Some(&ids(&["n1"])));
    assert_eq!(topology.get("n4"), None);
}

#[test]
fn star_of_one_node_has_no_neighbors() {
    let topology = Topology::StarTopology.get_topology(&ids(&["n1"]));
    assert_eq!(topology.len(), 1);
    assert_eq!(topology.get("n1"), Some(&ids(&[])));
}

#[test]
fn full_mesh_leaves_out_the_node_itself() {
    let topology = Topology::FullMeshTopology.get_topology(&ids(&["n1", "n2", "n3"]));
    assert_eq!(topology.len(), 3);
    assert_eq!(topology.get("n1"), Some(&ids(&["n2", "n3"])));
    assert_eq!(topology.get("n2"), Some(&ids(&["n1", "n3"])));
    assert_eq!(topology.get("n3"), Some(&ids(&["n1", "n2"])));
}

#[test]
fn ring_gives_the_successor_and_wraps() {
    let topology = Topology::RingTopology.get_topology(&ids(&["n1", "n2", "n3"]));
    assert_eq!(topology.len(), 3);
    assert_eq!(topology.get("n1"), Some(&ids(&["n2"])));
    assert_eq!(topology.get("n2"), Some(&ids(&["n3"])));
    assert_eq!(topology.get("n3"), Some(&ids(&["n1"])));
}

#[test]
fn ring_of_one_node_points_at_itself() {
    let topology = Topology::RingTopology.get_topology(&ids(&["n1"]));
    assert_eq!(topology.get("n1"), Some(&ids(&["n1"])));
}

#[test]
fn empty_membership_gives_empty_maps() {
    assert_eq!(Topology::StarTopology.get_topology(&ids(&[])).len(), 0);
    assert_eq!(Topology::FullMeshTopology.get_topology(&ids(&[])).len(), 0);
    assert_eq!(Topology::RingTopology.get_topology(&ids(&[])).len(), 0);
}

#[test]
fn repeated_id_keeps_its_last_ring_entry() {
    let topology = Topology::RingTopology.get_topology(&ids(&["a", "b", "a", "c"]));
    assert_eq!(topology.len(), 3);
    assert_eq!(topology.get("a"), Some(&ids(&["c"])));
    assert_eq!(topology.get("b"), Some(&ids(&["a"])));
    assert_eq!(topology.get("c"), Some(&ids(&["a"])));
}

#[test]
fn neighbors_of_a_member_and_of_a_stranger() {
    let members = ids(&["n1", "n2", "n3"]);
    assert_eq!(Topology::StarTopology.neighbors(&members, "n2"), Some(ids(&["n1"])));
    assert_eq!(Topology::RingTopology.neighbors(&members, "n3"), Some(ids(&["n1"])));
    assert_eq!(Topology::FullMeshTopology.neighbors(&members, "n1"), Some(ids(&["n2", "n3"])));
    assert_eq!(Topology::StarTopology.neighbors(&members, "n9"), None);
}

#[test]
fn neighbors_are_members_of_the_cluster() {
    let members = ids(&["n1", "n2", "n3", "n4"]);
    for strategy in [Topology::StarTopology, Topology::FullMeshTopology, Topology::RingTopology] {
        for member in &members {
            let neighbors = strategy.neighbors(&members, member).unwrap();
            for neighbor in &neighbors {
                assert!(members.contains(neighbor));
            }
        }
    }
}

#[test]
fn clone_from_copies_the_tail() {
    let members = ids(&["n1", "n2", "n3"]);
    assert_eq!(copy_from(&members, 0), members);
    assert_eq!(copy_from(&members, 1), ids(&["n2", "n3"]));
    assert_eq!(copy_from(&members, 3), ids(&[]));
}
