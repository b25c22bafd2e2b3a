use gossip_glomers::broadcast;
use gossip_glomers::g_counter;
use std::collections::HashSet;

fn list(names: &[&str]) -> Vec<String> {
    names.iter().map(|name| name.to_string()).collect()
}

fn integers(values: &[i32]) -> HashSet<i32> {
    values.iter().copied().collect()
}

fn broadcast_cluster(names: &[&str]) -> Vec<broadcast::Node> {
    names
        .iter()
        .map(|name| {
            let init = broadcast::Message {
                src: "c1".to_string(),
                dest: name.to_string(),
                body: broadcast::MessageBody::Init {
                    msg_id: 1,
                    node_id: name.to_string(),
                    node_ids: list(names),
                },
            };
            broadcast::Node::init(init).unwrap().0
        })
        .collect()
}

fn client_broadcast(node: &mut broadcast::Node, value: i32) {
    let request = broadcast::Message {
        src: "c1".to_string(),
        dest: node.node_id.clone(),
        body: broadcast::MessageBody::Broadcast { msg_id: 1, message: value },
    };
    let reply = node.handle(request).unwrap().unwrap();
    assert!(matches!(reply.body, broadcast::MessageBody::BroadcastOk { in_reply_to: 1 }));
}

fn client_read(node: &mut broadcast::Node) -> HashSet<i32> {
    let request = broadcast::Message {
        src: "c1".to_string(),
        dest: node.node_id.clone(),
        body: broadcast::MessageBody::Read { msg_id: 2 },
    };
    match node.handle(request).unwrap().unwrap().body {
        broadcast::MessageBody::ReadOk { messages, .. } => messages,
        other => panic!("not a read_ok: {:?}", other),
    }
}

/// One gossip period: every node ticks, the network delivers each gossip
/// unless `drops` says otherwise, and every answer travels back.
fn broadcast_period(
    nodes: &mut Vec<broadcast::Node>,
    drops: &mut dyn FnMut(&broadcast::Message) -> bool,
) {
    let mut in_flight = Vec::new();
    for node in nodes.iter_mut() {
        in_flight.extend(node.gossip().unwrap());
    }
    let mut answers = Vec::new();
    for gossip in in_flight {
        assert!(matches!(gossip.body, broadcast::MessageBody::Gossip { .. }));
        if drops(&gossip) {
            continue;
        }
        let receiver = nodes.iter_mut().find(|node| node.node_id == gossip.dest).unwrap();
        let sender = gossip.src.clone();
        let answer = receiver.handle(gossip).unwrap().unwrap();
        assert_eq!(answer.dest, sender);
        answers.push(answer);
    }
    for answer in answers {
        let receiver = nodes.iter_mut().find(|node| node.node_id == answer.dest).unwrap();
        assert!(receiver.handle(answer).unwrap().is_none());
    }
}

#[test]
fn two_nodes_converge_within_two_periods() {
    let mut nodes = broadcast_cluster(&["n1", "n2"]);
    client_broadcast(&mut nodes[0], 7);
    client_broadcast(&mut nodes[1], 9);
    for _ in 0..2 {
        broadcast_period(&mut nodes, &mut |_| false);
    }
    assert_eq!(client_read(&mut nodes[0]), integers(&[7, 9]));
    assert_eq!(client_read(&mut nodes[1]), integers(&[7, 9]));
}

#[test]
fn three_nodes_converge_on_the_union_of_all_broadcasts() {
    let mut nodes = broadcast_cluster(&["n1", "n2", "n3"]);
    client_broadcast(&mut nodes[0], 1);
    client_broadcast(&mut nodes[1], 2);
    client_broadcast(&mut nodes[2], 3);
    client_broadcast(&mut nodes[2], 4);
    for _ in 0..4 {
        broadcast_period(&mut nodes, &mut |_| false);
    }
    for node in nodes.iter_mut() {
        assert_eq!(client_read(node), integers(&[1, 2, 3, 4]));
    }
    // Once all agree, nothing is owed and the ticks fall silent.
    for node in nodes.iter_mut() {
        assert!(node.gossip().unwrap().is_empty());
    }
}

#[test]
fn three_nodes_converge_though_every_other_gossip_from_n1_to_n2_is_lost() {
    let mut nodes = broadcast_cluster(&["n1", "n2", "n3"]);
    client_broadcast(&mut nodes[0], 1);
    client_broadcast(&mut nodes[1], 2);
    client_broadcast(&mut nodes[2], 3);
    let mut sent = 0;
    let mut lost = 0;
    let mut lossy = |gossip: &broadcast::Message| {
        if gossip.src == "n1" && gossip.dest == "n2" {
            sent += 1;
            if sent % 2 == 1 {
                lost += 1;
                return true;
            }
        }
        false
    };
    for _ in 0..10 {
        broadcast_period(&mut nodes, &mut lossy);
    }
    assert!(lost >= 1);
    for node in nodes.iter_mut() {
        assert_eq!(client_read(node), integers(&[1, 2, 3]));
    }
}

fn counter_cluster(names: &[&str]) -> Vec<g_counter::Node> {
    names
        .iter()
        .map(|name| {
            let init = g_counter::Message {
                src: "c1".to_string(),
                dest: name.to_string(),
                body: g_counter::MessageBody::Init {
                    msg_id: 1,
                    node_id: name.to_string(),
                    node_ids: list(names),
                },
            };
            g_counter::Node::init(init).unwrap().0
        })
        .collect()
}

fn client_add(node: &mut g_counter::Node, delta: i32) {
    let request = g_counter::Message {
        src: "c1".to_string(),
        dest: node.node_id.clone(),
        body: g_counter::MessageBody::Add { msg_id: 1, delta },
    };
    let reply = node.handle(request).unwrap().unwrap();
    assert!(matches!(reply.body, g_counter::MessageBody::AddOk { in_reply_to: 1 }));
}

fn client_value(node: &mut g_counter::Node) -> i32 {
    let request = g_counter::Message {
        src: "c1".to_string(),
        dest: node.node_id.clone(),
        body: g_counter::MessageBody::Read { msg_id: 2 },
    };
    match node.handle(request).unwrap().unwrap().body {
        g_counter::MessageBody::ReadOk { value, .. } => value,
        other => panic!("not a read_ok: {:?}", other),
    }
}

fn counter_period(nodes: &mut Vec<g_counter::Node>) {
    let mut in_flight = Vec::new();
    for node in nodes.iter_mut() {
        in_flight.extend(node.gossip().unwrap());
    }
    let mut answers = Vec::new();
    for gossip in in_flight {
        let receiver = nodes.iter_mut().find(|node| node.node_id == gossip.dest).unwrap();
        answers.push(receiver.handle(gossip).unwrap().unwrap());
    }
    for answer in answers {
        let receiver = nodes.iter_mut().find(|node| node.node_id == answer.dest).unwrap();
        assert!(receiver.handle(answer).unwrap().is_none());
    }
}

#[test]
fn counter_ring_of_three_reads_the_sum_of_all_deltas() {
    let mut nodes = counter_cluster(&["n1", "n2", "n3"]);
    client_add(&mut nodes[0], 3);
    client_add(&mut nodes[1], 5);
    client_add(&mut nodes[2], 2);
    for _ in 0..3 {
        counter_period(&mut nodes);
    }
    for node in nodes.iter_mut() {
        assert_eq!(client_value(node), 10);
    }
}

#[test]
fn counter_reads_converge_for_interleaved_adds() {
    let mut nodes = counter_cluster(&["n1", "n2", "n3", "n4"]);
    let mut total = 0;
    for round in 0..6 {
        for (index, node) in nodes.iter_mut().enumerate() {
            let delta = (round * 4 + index as i32) % 7;
            client_add(node, delta);
            total += delta;
        }
        counter_period(&mut nodes);
    }
    for _ in 0..4 {
        counter_period(&mut nodes);
    }
    for node in nodes.iter_mut() {
        assert_eq!(client_value(node), total);
    }
}

#[test]
fn every_gossip_goes_from_the_node_to_a_member() {
    let names = ["n1", "n2", "n3"];
    let mut nodes = broadcast_cluster(&names);
    for node in nodes.iter_mut() {
        client_broadcast(node, 5);
        let own = node.node_id.clone();
        for gossip in node.gossip().unwrap() {
            assert_eq!(gossip.src, own);
            assert!(names.contains(&gossip.dest.as_str()));
        }
    }
    let mut counters = counter_cluster(&names);
    for node in counters.iter_mut() {
        let own = node.node_id.clone();
        for gossip in node.gossip().unwrap() {
            assert_eq!(gossip.src, own);
            assert!(names.contains(&gossip.dest.as_str()));
        }
    }
}
