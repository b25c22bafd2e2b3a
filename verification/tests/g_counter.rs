use gossip_glomers::error::NodeError;
use gossip_glomers::event::{Action, Event};
use gossip_glomers::g_counter::{
    Counter, CounterValue, Message, MessageBody, Node, NodeState,
};

fn members(list: &[&str]) -> Vec<String> {
    list.iter().map(|name| name.to_string()).collect()
}

fn counter_message(src: &str, dest: &str, body: MessageBody) -> Message {
    Message { src: src.to_string(), dest: dest.to_string(), body }
}

fn counter_node(name: &str, cluster: &[&str]) -> Node {
    let init = counter_message(
        "c1",
        name,
        MessageBody::Init { msg_id: 1, node_id: name.to_string(), node_ids: members(cluster) },
    );
    Node::init(init).unwrap().0
}

fn add(node: &mut Node, msg_id: u32, delta: i32) {
    let reply = node
        .handle(counter_message("c1", "n1", MessageBody::Add { msg_id, delta }))
        .unwrap()
        .unwrap();
    match reply.body {
        MessageBody::AddOk { in_reply_to } => assert_eq!(in_reply_to, msg_id),
        other => panic!("not an add_ok: {:?}", other),
    }
}

fn value_read(node: &mut Node, msg_id: u32) -> i32 {
    match node.handle(counter_message("c1", "n1", MessageBody::Read { msg_id })) {
        Ok(Some(Message { body: MessageBody::ReadOk { value, in_reply_to }, .. })) => {
            assert_eq!(in_reply_to, msg_id);
            value
        }
        other => panic!("no read_ok: {:?}", other),
    }
}

fn entry(msg_id: u32, value: i32) -> CounterValue {
    CounterValue { msg_id, value }
}

#[test]
fn counter_init_is_answered_with_init_ok() {
    let init = counter_message(
        "c1",
        "n1",
        MessageBody::Init { msg_id: 1, node_id: "n1".to_string(), node_ids: members(&["n1"]) },
    );
    let (node, reply) = Node::init(init).unwrap();
    assert_eq!(node.node_id, "n1");
    assert_eq!(node.node_ids, members(&["n1"]));
    assert_eq!(node.state.last_message_id, 0);
    assert_eq!(node.state.counter.sum(), 0);
    assert_eq!(reply.src, "n1");
    assert_eq!(reply.dest, "c1");
    assert!(matches!(reply.body, MessageBody::InitOk { in_reply_to: 1 }));
}

#[test]
fn counter_init_refuses_other_first_messages_and_strangers() {
    let first = counter_message("c1", "n1", MessageBody::Add { msg_id: 1, delta: 1 });
    assert_eq!(Node::init(first).err(), Some(NodeError::InitExpected));
    let stranger = counter_message(
        "c1",
        "n9",
        MessageBody::Init { msg_id: 1, node_id: "n9".to_string(), node_ids: members(&["n1"]) },
    );
    assert_eq!(Node::init(stranger).err(), Some(NodeError::NoNeighbors));
}

#[test]
fn counter_default_state_is_empty() {
    let state = NodeState::default();
    assert_eq!(state.last_message_id, 0);
    assert_eq!(state.counter.entries().len(), 0);
}

#[test]
fn neighbors_follow_the_ring() {
    assert_eq!(counter_node("n1", &["n1", "n2", "n3"]).get_neighbors(), Ok(members(&["n2"])));
    assert_eq!(counter_node("n2", &["n1", "n2", "n3"]).get_neighbors(), Ok(members(&["n3"])));
    assert_eq!(counter_node("n3", &["n1", "n2", "n3"]).get_neighbors(), Ok(members(&["n1"])));
}

#[test]
fn a_node_outside_the_ring_has_no_neighbors() {
    let mut node = counter_node("n1", &["n1", "n2"]);
    node.node_id = "n9".to_string();
    assert_eq!(node.get_neighbors(), Err(NodeError::NoNeighbors));
}

#[test]
fn add_stamps_the_own_entry_with_the_next_message_id() {
    let mut node = counter_node("n1", &["n1", "n2"]);
    add(&mut node, 7, 3);
    assert_eq!(node.state.last_message_id, 1);
    assert_eq!(node.state.counter.get("n1"), Some(entry(1, 3)));
    add(&mut node, 8, 4);
    assert_eq!(node.state.last_message_id, 2);
    assert_eq!(node.state.counter.get("n1"), Some(entry(2, 7)));
    assert_eq!(value_read(&mut node, 9), 7);
}

#[test]
fn read_never_goes_down_while_deltas_are_not_negative() {
    let mut node = counter_node("n1", &["n1", "n2"]);
    let mut last = value_read(&mut node, 1);
    for delta in [0, 5, 0, 17, 1] {
        add(&mut node, 2, delta);
        let now = value_read(&mut node, 3);
        assert!(now >= last);
        last = now;
    }
    assert_eq!(last, 23);
}

#[test]
fn add_reports_a_value_out_of_range() {
    let mut node = counter_node("n1", &["n1"]);
    add(&mut node, 1, i32::MAX);
    let verdict = node.handle(counter_message("c1", "n1", MessageBody::Add { msg_id: 2, delta: 1 }));
    assert_eq!(verdict.err(), Some(NodeError::Overflow));
    assert_eq!(node.state.last_message_id, 1);
    assert_eq!(node.state.counter.get("n1"), Some(entry(1, i32::MAX)));
}

#[test]
fn add_reports_used_up_message_ids() {
    let mut node = counter_node("n1", &["n1"]);
    node.state.last_message_id = u32::MAX;
    let verdict = node.handle(counter_message("c1", "n1", MessageBody::Add { msg_id: 2, delta: 1 }));
    assert_eq!(verdict.err(), Some(NodeError::Overflow));
    assert_eq!(node.state.counter.get("n1"), None);
}

#[test]
fn read_reports_a_sum_out_of_range() {
    let mut node = counter_node("n1", &["n1", "n2"]);
    add(&mut node, 1, i32::MAX);
    let mut remote = Counter::new();
    remote.merge("n2", entry(1, 1));
    node.handle(counter_message("n2", "n1", MessageBody::GossipOk { counter: remote, in_reply_to: 1 }))
        .unwrap();
    let verdict = node.handle(counter_message("c1", "n1", MessageBody::Read { msg_id: 2 }));
    assert_eq!(verdict.err(), Some(NodeError::Overflow));
}

#[test]
fn gossip_merges_the_others_and_answers_with_the_merged_counter() {
    let mut node = counter_node("n1", &["n1", "n2", "n3"]);
    add(&mut node, 1, 3);
    let mut remote = Counter::new();
    remote.merge("n1", entry(50, 1000));
    remote.merge("n2", entry(4, 5));
    let reply = node
        .handle(counter_message("n2", "n1", MessageBody::Gossip { msg_id: 6, counter: remote }))
        .unwrap()
        .unwrap();
    assert_eq!(reply.src, "n1");
    assert_eq!(reply.dest, "n2");
    match reply.body {
        MessageBody::GossipOk { counter, in_reply_to } => {
            assert_eq!(in_reply_to, 6);
            assert_eq!(counter.get("n1"), Some(entry(1, 3)));
            assert_eq!(counter.get("n2"), Some(entry(4, 5)));
            assert_eq!(counter.get("n3"), None);
        }
        other => panic!("not a gossip_ok: {:?}", other),
    }
    assert_eq!(node.state.counter.get("n1"), Some(entry(1, 3)));
    assert_eq!(node.state.counter.get("n2"), Some(entry(4, 5)));
    assert_eq!(value_read(&mut node, 7), 8);
}

#[test]
fn gossip_ok_merges_and_gives_no_reply() {
    let mut node = counter_node("n1", &["n1", "n2"]);
    let mut remote = Counter::new();
    remote.merge("n2", entry(4, 5));
    let verdict = node
        .handle(counter_message("n2", "n1", MessageBody::GossipOk { counter: remote, in_reply_to: 1 }))
        .unwrap();
    assert!(verdict.is_none());
    assert_eq!(node.state.counter.get("n2"), Some(entry(4, 5)));
    let mut stale = Counter::new();
    stale.merge("n2", entry(3, 1));
    node.handle(counter_message("n2", "n1", MessageBody::GossipOk { counter: stale, in_reply_to: 2 }))
        .unwrap();
    assert_eq!(node.state.counter.get("n2"), Some(entry(4, 5)));
}

#[test]
fn counter_topology_is_answered_and_ignored() {
    let mut node = counter_node("n1", &["n1", "n2", "n3"]);
    let suggestion = vec![("n1".to_string(), members(&["n3"]))];
    let reply = node
        .handle(counter_message("c1", "n1", MessageBody::Topology { msg_id: 8, topology: suggestion }))
        .unwrap()
        .unwrap();
    assert!(matches!(reply.body, MessageBody::TopologyOk { in_reply_to: 8 }));
    assert_eq!(node.get_neighbors(), Ok(members(&["n2"])));
}

#[test]
fn counter_node_refuses_a_second_init_and_drops_replies() {
    let mut node = counter_node("n1", &["n1"]);
    let again = counter_message(
        "c1",
        "n1",
        MessageBody::Init { msg_id: 2, node_id: "n1".to_string(), node_ids: members(&["n1"]) },
    );
    assert_eq!(node.handle(again).err(), Some(NodeError::InitRepeated));
    for stray in [
        MessageBody::InitOk { in_reply_to: 1 },
        MessageBody::ReadOk { value: 3, in_reply_to: 1 },
        MessageBody::TopologyOk { in_reply_to: 1 },
        MessageBody::AddOk { in_reply_to: 1 },
    ] {
        assert_eq!(
            node.handle(counter_message("c1", "n1", stray)).err(),
            Some(NodeError::Unrecognized)
        );
    }
}

#[test]
fn counter_tick_sends_the_whole_counter_to_every_neighbor() {
    let mut node = counter_node("n1", &["n1", "n2", "n3"]);
    add(&mut node, 1, 3);
    let round = node.gossip().unwrap();
    assert_eq!(round.len(), 1);
    assert_eq!(round[0].src, "n1");
    assert_eq!(round[0].dest, "n2");
    match &round[0].body {
        MessageBody::Gossip { msg_id, counter } => {
            assert_eq!(*msg_id, 2);
            assert_eq!(counter.get("n1"), Some(entry(1, 3)));
            assert_eq!(counter.entries().len(), 1);
        }
        other => panic!("not a gossip: {:?}", other),
    }
    assert_eq!(node.state.last_message_id, 2);
    assert_eq!(node.state.counter.get("n1"), Some(entry(1, 3)));
    let again = node.gossip().unwrap();
    assert!(matches!(again[0].body, MessageBody::Gossip { msg_id: 3, .. }));
}

#[test]
fn counter_tick_reports_used_up_message_ids() {
    let mut node = counter_node("n1", &["n1", "n2"]);
    node.state.last_message_id = u32::MAX;
    assert_eq!(node.gossip().err(), Some(NodeError::Overflow));
    assert_eq!(node.state.last_message_id, u32::MAX);
}

#[test]
fn counter_react_handles_replies_writes_pushes_and_stops() {
    let mut node = counter_node("n1", &["n1", "n2"]);
    let request = counter_message("c1", "n1", MessageBody::Add { msg_id: 3, delta: 2 });
    match node.react(Event::Reply(request)) {
        Ok(Action::Write(reply)) => assert!(matches!(reply.body, MessageBody::AddOk { in_reply_to: 3 })),
        other => panic!("no reply to write: {:?}", other),
    }
    let stray = counter_message("c1", "n1", MessageBody::AddOk { in_reply_to: 1 });
    assert!(matches!(
        node.react(Event::Reply(stray)),
        Ok(Action::Drop(NodeError::Unrecognized))
    ));
    let pushed = counter_message(
        "n1",
        "n2",
        MessageBody::Gossip { msg_id: 9, counter: node.state.counter.clone() },
    );
    match node.react(Event::Push(pushed)) {
        Ok(Action::Write(sent)) => assert_eq!(sent.dest, "n2"),
        other => panic!("push not written: {:?}", other),
    }
    assert_eq!(node.state.last_message_id, 1);
    assert!(matches!(node.react(Event::Shutdown), Ok(Action::Stop)));
}

#[test]
fn counter_message_ids_increase_across_adds_and_ticks() {
    let mut node = counter_node("n1", &["n1", "n2", "n3"]);
    let mut last_seen = 0;
    for round in 0..5 {
        add(&mut node, round, 1);
        for sent in node.gossip().unwrap() {
            match sent.body {
                MessageBody::Gossip { msg_id, .. } => {
                    assert!(msg_id > last_seen);
                    last_seen = msg_id;
                }
                other => panic!("not a gossip: {:?}", other),
            }
        }
    }
    assert_eq!(last_seen, 10);
    assert_eq!(node.state.last_message_id, 10);
    assert_eq!(node.state.counter.get("n1"), Some(entry(9, 5)));
}
