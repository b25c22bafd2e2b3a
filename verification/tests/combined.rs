use gossip_glomers::combined::{Message, MessageBody, Node, StarTopology};
use gossip_glomers::error::NodeError;
use gossip_glomers::event::{Action, Event};
use std::collections::HashSet;
use uuid::Uuid;

fn cluster(list: &[&str]) -> Vec<String> {
    list.iter().map(|name| name.to_string()).collect()
}

fn values(list: &[i32]) -> HashSet<i32> {
    list.iter().copied().collect()
}

fn envelope(src: &str, dest: &str, body: MessageBody) -> Message {
    Message { src: src.to_string(), dest: dest.to_string(), body }
}

fn started(name: &str, members: &[&str]) -> Node {
    let init = envelope(
        "c1",
        name,
        MessageBody::Init { msg_id: 1, node_id: name.to_string(), node_ids: cluster(members) },
    );
    Node::init(init).unwrap().0
}

fn drawn(node: &mut Node, msg_id: u32) -> Uuid {
    match node.handle(envelope("c1", "n1", MessageBody::Generate { msg_id })) {
        Ok(Some(Message { body: MessageBody::GenerateOk { in_reply_to, id }, .. })) => {
            assert_eq!(in_reply_to, msg_id);
            id
        }
        other => panic!("no id: {:?}", other),
    }
}

#[test]
fn star_topology_of_the_members() {
    let members = cluster(&["n1", "n2", "n3"]);
    let topology = StarTopology::new(&members).get_topology();
    assert_eq!(topology.len(), 3);
    assert_eq!(topology.get("n1"), Some(&cluster(&["n2", "n3"])));
    assert_eq!(topology.get("n2"), Some(&cluster(&["n1"])));
    assert_eq!(topology.get("n3"), Some(&cluster(&["n1"])));
    let nobody = cluster(&[]);
    assert_eq!(StarTopology::new(&nobody).get_topology().len(), 0);
}

#[test]
fn init_line_is_answered_with_init_ok() {
    let init = envelope(
        "c1",
        "n1",
        MessageBody::Init { msg_id: 1, node_id: "n1".to_string(), node_ids: cluster(&["n1"]) },
    );
    let (node, reply) = Node::init(init).unwrap();
    assert_eq!(node.node_id, "n1");
    assert_eq!(reply.src, "n1");
    assert_eq!(reply.dest, "c1");
    assert!(matches!(reply.body, MessageBody::InitOk { in_reply_to: 1 }));
    let first = envelope("c1", "n1", MessageBody::Generate { msg_id: 1 });
    assert_eq!(Node::init(first).err(), Some(NodeError::InitExpected));
    let stranger = envelope(
        "c1",
        "n9",
        MessageBody::Init { msg_id: 1, node_id: "n9".to_string(), node_ids: cluster(&["n1"]) },
    );
    assert_eq!(Node::init(stranger).err(), Some(NodeError::NoNeighbors));
}

#[test]
fn echo_after_init_comes_back() {
    let mut node = started("n1", &["n1"]);
    let reply = node
        .handle(envelope("c1", "n1", MessageBody::Echo { msg_id: 2, echo: "hi".to_string() }))
        .unwrap()
        .unwrap();
    assert_eq!(reply.src, "n1");
    assert_eq!(reply.dest, "c1");
    match reply.body {
        MessageBody::EchoOk { in_reply_to, echo } => {
            assert_eq!(in_reply_to, 2);
            assert_eq!(echo, "hi");
        }
        other => panic!("not an echo_ok: {:?}", other),
    }
}

#[test]
fn generate_draws_distinct_random_ids() {
    let mut node = started("n1", &["n1"]);
    let mut seen = HashSet::new();
    for msg_id in 0..64 {
        let id = drawn(&mut node, msg_id);
        assert_eq!(id.get_version_num(), 4);
        assert!(seen.insert(id));
    }
    assert_eq!(seen.len(), 64);
    assert_eq!(node.state.last_message_id, 0);
}

#[test]
fn handle_with_answers_generate_with_the_given_id() {
    let mut node = started("n1", &["n1"]);
    let given = Uuid::from_u128(0x1234_5678_9abc_4def_8123_4567_89ab_cdef);
    let reply = node
        .handle_with(envelope("c3", "n1", MessageBody::Generate { msg_id: 5 }), given)
        .unwrap()
        .unwrap();
    assert_eq!(reply.dest, "c3");
    match reply.body {
        MessageBody::GenerateOk { in_reply_to, id } => {
            assert_eq!(in_reply_to, 5);
            assert_eq!(id, given);
        }
        other => panic!("not a generate_ok: {:?}", other),
    }
    let echoed = node
        .handle_with(envelope("c3", "n1", MessageBody::Echo { msg_id: 6, echo: "x".to_string() }), given)
        .unwrap()
        .unwrap();
    assert!(matches!(echoed.body, MessageBody::EchoOk { in_reply_to: 6, .. }));
}

#[test]
fn broadcast_read_and_gossip_work_as_in_the_broadcast_workload() {
    let mut node = started("n1", &["n1", "n2"]);
    let reply = node
        .handle(envelope("c1", "n1", MessageBody::Broadcast { msg_id: 3, message: 42 }))
        .unwrap()
        .unwrap();
    assert!(matches!(reply.body, MessageBody::BroadcastOk { in_reply_to: 3 }));
    let reply = node.handle(envelope("c1", "n1", MessageBody::Read { msg_id: 4 })).unwrap().unwrap();
    match reply.body {
        MessageBody::ReadOk { messages, in_reply_to } => {
            assert_eq!(in_reply_to, 4);
            assert_eq!(messages, values(&[42]));
        }
        other => panic!("not a read_ok: {:?}", other),
    }
    let reply = node
        .handle(envelope("n2", "n1", MessageBody::Gossip { msg_id: 5, messages: values(&[1, 42]) }))
        .unwrap()
        .unwrap();
    match reply.body {
        MessageBody::GossipOk { messages, in_reply_to } => {
            assert_eq!(in_reply_to, 5);
            assert_eq!(messages, values(&[1, 42]));
        }
        other => panic!("not a gossip_ok: {:?}", other),
    }
    assert_eq!(node.state.pending_to_send, values(&[1, 42]));
    let verdict = node
        .handle(envelope("n2", "n1", MessageBody::GossipOk { in_reply_to: 1, messages: values(&[1]) }))
        .unwrap();
    assert!(verdict.is_none());
    assert_eq!(node.state.messages, values(&[1, 42]));
    let reply = node
        .handle(envelope("c1", "n1", MessageBody::Topology { msg_id: 6, topology: vec![] }))
        .unwrap()
        .unwrap();
    assert!(matches!(reply.body, MessageBody::TopologyOk { in_reply_to: 6 }));
    assert_eq!(node.state.neighbors, cluster(&["n2"]));
}

#[test]
fn combined_node_refuses_a_second_init_and_drops_replies() {
    let mut node = started("n1", &["n1"]);
    let again = envelope(
        "c1",
        "n1",
        MessageBody::Init { msg_id: 2, node_id: "n1".to_string(), node_ids: cluster(&["n1"]) },
    );
    assert_eq!(node.handle(again).err(), Some(NodeError::InitRepeated));
    for stray in [
        MessageBody::InitOk { in_reply_to: 1 },
        MessageBody::EchoOk { in_reply_to: 1, echo: "x".to_string() },
        MessageBody::GenerateOk { in_reply_to: 1, id: Uuid::nil() },
        MessageBody::BroadcastOk { in_reply_to: 1 },
        MessageBody::ReadOk { messages: values(&[1]), in_reply_to: 1 },
        MessageBody::TopologyOk { in_reply_to: 1 },
    ] {
        assert_eq!(node.handle(envelope("c1", "n1", stray)).err(), Some(NodeError::Unrecognized));
    }
}

#[test]
fn combined_tick_sends_what_is_owed() {
    let mut node = started("n1", &["n1", "n2", "n3"]);
    assert!(node.gossip().unwrap().is_empty());
    node.handle(envelope("c1", "n1", MessageBody::Broadcast { msg_id: 1, message: 4 })).unwrap();
    let round = node.gossip().unwrap();
    assert_eq!(round.len(), 2);
    assert_eq!(round[0].dest, "n2");
    assert_eq!(round[1].dest, "n3");
    for (sent, id) in round.iter().zip([1, 2]) {
        assert_eq!(sent.src, "n1");
        match &sent.body {
            MessageBody::Gossip { msg_id, messages } => {
                assert_eq!(*msg_id, id);
                assert_eq!(*messages, values(&[4]));
            }
            other => panic!("not a gossip: {:?}", other),
        }
    }
    assert_eq!(node.state.last_message_id, 2);
    assert!(node.state.pending_to_send.is_empty());
    node.handle(envelope("c1", "n1", MessageBody::Broadcast { msg_id: 1, message: 5 })).unwrap();
    node.state.last_message_id = u32::MAX - 1;
    assert_eq!(node.gossip().err(), Some(NodeError::Overflow));
}

#[test]
fn combined_react_handles_replies_writes_pushes_and_stops() {
    let mut node = started("n1", &["n1", "n2"]);
    let request = envelope("c1", "n1", MessageBody::Echo { msg_id: 3, echo: "yo".to_string() });
    match node.react(Event::Reply(request)) {
        Ok(Action::Write(reply)) => {
            assert!(matches!(reply.body, MessageBody::EchoOk { in_reply_to: 3, .. }))
        }
        other => panic!("no reply to write: {:?}", other),
    }
    let stray = envelope("c1", "n1", MessageBody::InitOk { in_reply_to: 1 });
    assert!(matches!(
        node.react(Event::Reply(stray)),
        Ok(Action::Drop(NodeError::Unrecognized))
    ));
    let pushed = envelope("n1", "n2", MessageBody::Gossip { msg_id: 1, messages: values(&[5]) });
    match node.react(Event::Push(pushed)) {
        Ok(Action::Write(sent)) => assert_eq!(sent.dest, "n2"),
        other => panic!("push not written: {:?}", other),
    }
    assert!(node.state.messages.is_empty());
    assert!(matches!(node.react(Event::Shutdown), Ok(Action::Stop)));
}
