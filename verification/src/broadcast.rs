//! The fault-tolerant broadcast workload.
//!
//! A node keeps the set of all integers it has observed and the subset that
//! it still owes its neighbors. A tick of the gossip timer sends what is
//! owed to every neighbor and forgets the debt; the neighbor answers with
//! all it knows, and whatever the answer lacks is owed again. So the nodes
//! reconcile their sets without a queue of unacknowledged messages.

use crate::error::NodeError;
use crate::event::{settle, settled, Action, Event};
use crate::topologies::{lemma_neighbors_are_members, Topology};
use std::collections::HashSet;
use vstd::prelude::*;
use vstd::std_specs::hash::spec_hash_keys_iter;
use vstd::std_specs::iter::IteratorSpec;

verus! {

broadcast use vstd::std_specs::hash::group_hash_axioms;

/// A copy of a set of integers.
pub fn clone_set(set: &HashSet<i32>) -> (copy: HashSet<i32>)
    ensures
        copy@ == set@,
{
    let mut copy: HashSet<i32> = HashSet::new();
    add_all(&mut copy, set);
    copy
}

/// Adds every element of `from` to `into`.
pub fn add_all(into: &mut HashSet<i32>, from: &HashSet<i32>)
    ensures
        final(into)@ == old(into)@.union(from@),
{
    let ghost all: Seq<i32> = spec_hash_keys_iter(from).remaining().unref();
    for value in iter: from.iter()
        invariant
            iter.seq().unref() == all,
            all.to_set() == from@,
            into@ == old(into)@.union(all.take(iter.index()).to_set()),
    {
        proof {
            all.lemma_take_succ_push(iter.index());
            all.take(iter.index()).lemma_push_to_set_commute(*value);
        }
        into.insert(*value);
    }
    proof {
        all.lemma_take_len();
    }
}

/// Adds to `into` every element of `from` that `known` does not hold.
pub fn add_missing(into: &mut HashSet<i32>, from: &HashSet<i32>, known: &HashSet<i32>)
    ensures
        final(into)@ == old(into)@.union(from@.difference(known@)),
{
    let ghost all: Seq<i32> = spec_hash_keys_iter(from).remaining().unref();
    for value in iter: from.iter()
        invariant
            iter.seq().unref() == all,
            all.to_set() == from@,
            into@ == old(into)@.union(all.take(iter.index()).to_set().difference(known@)),
    {
        proof {
            all.lemma_take_succ_push(iter.index());
            all.take(iter.index()).lemma_push_to_set_commute(*value);
        }
        if !known.contains(value) {
            into.insert(*value);
        }
        assert(into@ =~= old(into)@.union(
            all.take(iter.index() + 1).to_set().difference(known@),
        ));
    }
    proof {
        all.lemma_take_len();
    }
}

/// A message between a client or a node and a node.
#[derive(Debug)]
pub struct Message {
    pub src: String,
    pub dest: String,
    pub body: MessageBody,
}

/// The bodies of the broadcast workload, by their `type` on the wire.
#[derive(Debug)]
pub enum MessageBody {
    Init { msg_id: u32, node_id: String, node_ids: Vec<String> },
    InitOk { in_reply_to: u32 },
    Broadcast { msg_id: u32, message: i32 },
    BroadcastOk { in_reply_to: u32 },
    Read { msg_id: u32 },
    ReadOk { messages: HashSet<i32>, in_reply_to: u32 },
    /// The neighbor map that the network suggests, as its entries.
    Topology { msg_id: u32, topology: Vec<(String, Vec<String>)> },
    TopologyOk { in_reply_to: u32 },
    Gossip { msg_id: u32, messages: HashSet<i32> },
    GossipOk { in_reply_to: u32, messages: HashSet<i32> },
}

/// A body in its mathematical form.
pub enum BodyView {
    Init { msg_id: u32, node_id: Seq<char>, node_ids: Seq<Seq<char>> },
    InitOk { in_reply_to: u32 },
    Broadcast { msg_id: u32, message: i32 },
    BroadcastOk { in_reply_to: u32 },
    Read { msg_id: u32 },
    ReadOk { messages: Set<i32>, in_reply_to: u32 },
    Topology { msg_id: u32, topology: Seq<(Seq<char>, Seq<Seq<char>>)> },
    TopologyOk { in_reply_to: u32 },
    Gossip { msg_id: u32, messages: Set<i32> },
    GossipOk { in_reply_to: u32, messages: Set<i32> },
}

/// A message in its mathematical form.
pub struct MessageView {
    pub src: Seq<char>,
    pub dest: Seq<char>,
    pub body: BodyView,
}

impl BodyView {
    /// The request id of a body that carries one.
    pub open spec fn msg_id(self) -> Option<u32> {
        match self {
            BodyView::Init { msg_id, .. } => Some(msg_id),
            BodyView::Broadcast { msg_id, .. } => Some(msg_id),
            BodyView::Read { msg_id } => Some(msg_id),
            BodyView::Topology { msg_id, .. } => Some(msg_id),
            BodyView::Gossip { msg_id, .. } => Some(msg_id),
            _ => None,
        }
    }

    /// The id of the request that a reply answers.
    pub open spec fn in_reply_to(self) -> Option<u32> {
        match self {
            BodyView::InitOk { in_reply_to } => Some(in_reply_to),
            BodyView::BroadcastOk { in_reply_to } => Some(in_reply_to),
            BodyView::ReadOk { in_reply_to, .. } => Some(in_reply_to),
            BodyView::TopologyOk { in_reply_to } => Some(in_reply_to),
            BodyView::GossipOk { in_reply_to, .. } => Some(in_reply_to),
            _ => None,
        }
    }
}

impl View for MessageBody {
    type V = BodyView;

    open spec fn view(&self) -> BodyView {
        match self {
            MessageBody::Init { msg_id, node_id, node_ids } => BodyView::Init {
                msg_id: *msg_id,
                node_id: node_id@,
                node_ids: node_ids.deep_view(),
            },
            MessageBody::InitOk { in_reply_to } => BodyView::InitOk { in_reply_to: *in_reply_to },
            MessageBody::Broadcast { msg_id, message } => BodyView::Broadcast {
                msg_id: *msg_id,
                message: *message,
            },
            MessageBody::BroadcastOk { in_reply_to } => BodyView::BroadcastOk {
                in_reply_to: *in_reply_to,
            },
            MessageBody::Read { msg_id } => BodyView::Read { msg_id: *msg_id },
            MessageBody::ReadOk { messages, in_reply_to } => BodyView::ReadOk {
                messages: messages@,
                in_reply_to: *in_reply_to,
            },
            MessageBody::Topology { msg_id, topology } => BodyView::Topology {
                msg_id: *msg_id,
                topology: topology@.map_values(
                    |entry: (String, Vec<String>)| (entry.0@, entry.1.deep_view()),
                ),
            },
            MessageBody::TopologyOk { in_reply_to } => BodyView::TopologyOk {
                in_reply_to: *in_reply_to,
            },
            MessageBody::Gossip { msg_id, messages } => BodyView::Gossip {
                msg_id: *msg_id,
                messages: messages@,
            },
            MessageBody::GossipOk { in_reply_to, messages } => BodyView::GossipOk {
                in_reply_to: *in_reply_to,
                messages: messages@,
            },
        }
    }
}

impl View for Message {
    type V = MessageView;

    open spec fn view(&self) -> MessageView {
        MessageView { src: self.src@, dest: self.dest@, body: self.body@ }
    }
}

/// The mathematical form of a handler's verdict.
pub open spec fn verdict_view(verdict: Result<Option<Message>, NodeError>) -> Result<
    Option<MessageView>,
    NodeError,
> {
    match verdict {
        Ok(Some(reply)) => Ok(Some(reply@)),
        Ok(None) => Ok(None),
        Err(error) => Err(error),
    }
}

/// The mathematical form of a list of messages.
pub open spec fn messages_view(messages: Seq<Message>) -> Seq<MessageView> {
    messages.map_values(|m: Message| m@)
}

/// The mathematical form of the consumer's next action.
pub open spec fn action_view(action: Result<Action<Message>, NodeError>) -> Result<
    Action<MessageView>,
    NodeError,
> {
    match action {
        Ok(Action::Write(message)) => Ok(Action::Write(message@)),
        Ok(Action::Continue) => Ok(Action::Continue),
        Ok(Action::Drop(error)) => Ok(Action::Drop(error)),
        Ok(Action::Stop) => Ok(Action::Stop),
        Err(error) => Err(error),
    }
}

/// The replicated state of a broadcast node.
#[derive(Debug)]
pub struct NodeState {
    /// Every integer that the node has observed.
    pub messages: HashSet<i32>,
    /// The ids of the nodes that this node gossips to.
    pub neighbors: Vec<String>,
    /// The last message id that the node has stamped a gossip with.
    pub last_message_id: u32,
    /// The integers that the node has accepted and not gossiped out yet.
    pub pending_to_send: HashSet<i32>,
}

/// A node's state in its mathematical form.
pub struct StateView {
    pub messages: Set<i32>,
    pub neighbors: Seq<Seq<char>>,
    pub last_message_id: u32,
    pub pending: Set<i32>,
}

impl View for NodeState {
    type V = StateView;

    open spec fn view(&self) -> StateView {
        StateView {
            messages: self.messages@,
            neighbors: self.neighbors.deep_view(),
            last_message_id: self.last_message_id,
            pending: self.pending_to_send@,
        }
    }
}

impl StateView {
    /// The state that a node starts from.
    pub open spec fn initial() -> StateView {
        StateView {
            messages: Set::empty(),
            neighbors: Seq::empty(),
            last_message_id: 0,
            pending: Set::empty(),
        }
    }

    /// The invariant of the state: the node has observed what it owes, and
    /// its neighbors are members of the cluster `ids`.
    pub open spec fn wf(self, ids: Seq<Seq<char>>) -> bool {
        &&& self.pending.subset_of(self.messages)
        &&& forall|i: int| 0 <= i < self.neighbors.len() ==> ids.contains(#[trigger] self.neighbors[i])
    }

    /// The state after a client has broadcast `message`: the node has
    /// observed it and owes it to its neighbors.
    pub open spec fn accepted(self, message: i32) -> StateView {
        StateView {
            messages: self.messages.insert(message),
            pending: self.pending.insert(message),
            ..self
        }
    }

    /// The state after a gossip with the integers `incoming`: the node has
    /// observed them all, and owes onward those that it had not observed
    /// before.
    pub open spec fn absorbed(self, incoming: Set<i32>) -> StateView {
        StateView {
            messages: self.messages.union(incoming),
            pending: self.pending.union(incoming.difference(self.messages)),
            ..self
        }
    }

    /// The state after the answer to a gossip, which holds all that the
    /// other node knows (`remote`): the node has observed it all, and owes
    /// again what the other node lacks.
    pub open spec fn reconciled(self, remote: Set<i32>) -> StateView {
        StateView {
            messages: self.messages.union(remote),
            pending: self.pending.union(self.messages.difference(remote)),
            ..self
        }
    }

    /// Whether a tick has anything to send: somebody to gossip to and
    /// something owed.
    pub open spec fn round_due(self) -> bool {
        self.neighbors.len() > 0 && !self.pending.is_empty()
    }

    /// Whether the message ids of a round stay within their range.
    pub open spec fn round_fits(self) -> bool {
        self.last_message_id + self.neighbors.len() <= u32::MAX
    }

    /// The state after a round has been sent: one message id is used for
    /// each neighbor, and nothing is owed.
    pub open spec fn after_round(self) -> StateView {
        StateView {
            last_message_id: (self.last_message_id + self.neighbors.len()) as u32,
            pending: Set::empty(),
            ..self
        }
    }
}

impl Default for NodeState {
    fn default() -> (state: NodeState)
        ensures
            state@ == StateView::initial(),
    {
        let state = NodeState {
            messages: HashSet::new(),
            neighbors: Vec::new(),
            last_message_id: 0,
            pending_to_send: HashSet::new(),
        };
        assert(state.neighbors.deep_view() =~= Seq::<Seq<char>>::empty());
        state
    }
}

impl NodeState {
    /// Takes in an integer that a client has broadcast.
    pub fn accept(&mut self, message: i32)
        ensures
            final(self)@ == old(self)@.accepted(message),
    {
        self.messages.insert(message);
        self.pending_to_send.insert(message);
    }

    /// Takes in the integers of a gossip. Only what the node learns from
    /// them is owed onward.
    pub fn absorb(&mut self, incoming: &HashSet<i32>)
        ensures
            final(self)@ == old(self)@.absorbed(incoming@),
    {
        add_missing(&mut self.pending_to_send, incoming, &self.messages);
        add_all(&mut self.messages, incoming);
    }

    /// Takes in the answer to a gossip, which holds all that the other node
    /// knows. What the answer lacks has not reached the other node and is
    /// owed again.
    pub fn reconcile(&mut self, remote: &HashSet<i32>)
        ensures
            final(self)@ == old(self)@.reconciled(remote@),
    {
        add_missing(&mut self.pending_to_send, &self.messages, remote);
        add_all(&mut self.messages, remote);
    }
}

/// Taking messages in keeps the state's invariant.
pub proof fn lemma_state_invariant(state: StateView, ids: Seq<Seq<char>>, message: i32, set: Set<i32>)
    requires
        state.wf(ids),
    ensures
        state.accepted(message).wf(ids),
        state.absorbed(set).wf(ids),
        state.reconciled(set).wf(ids),
        state.after_round().wf(ids),
{
}

/// Nothing is observed without a source: what a node has observed after a
/// step, it had observed before or was given in that step by a client or by
/// another node. A tick adds nothing.
pub proof fn lemma_observed_has_a_source(state: StateView, message: i32, set: Set<i32>)
    ensures
        state.accepted(message).messages == state.messages.insert(message),
        state.absorbed(set).messages == state.messages.union(set),
        state.reconciled(set).messages == state.messages.union(set),
        state.after_round().messages == state.messages,
{
}

/// Taking the same broadcast or the same gossip in twice leaves the state
/// that taking it in once leaves.
pub proof fn lemma_idempotent(state: StateView, message: i32, incoming: Set<i32>)
    ensures
        state.accepted(message).accepted(message) == state.accepted(message),
        state.absorbed(incoming).absorbed(incoming) == state.absorbed(incoming),
{
    let once = state.accepted(message);
    assert(once.accepted(message).messages =~= once.messages);
    assert(once.accepted(message).pending =~= once.pending);
    let taken = state.absorbed(incoming);
    assert(taken.absorbed(incoming).messages =~= taken.messages);
    assert(taken.absorbed(incoming).pending =~= taken.pending);
}

/// One exchange reconciles two nodes: when the sender gossips what it owes
/// and owes nothing more, the receiver takes the gossip in and the sender
/// takes in the answer, which holds all that the receiver then knows, the
/// receiver knows all that it was sent, the sender knows all that the
/// receiver knows, and the sender owes exactly what the receiver still
/// lacks.
pub proof fn lemma_exchange_reconciles(sending: StateView, receiving: StateView)
    requires
        sending.pending.subset_of(sending.messages),
    ensures
        ({
            let received = receiving.absorbed(sending.pending);
            let reconciled = sending.after_round().reconciled(received.messages);
            &&& received.messages == receiving.messages.union(sending.pending)
            &&& reconciled.messages == sending.messages.union(receiving.messages)
            &&& reconciled.pending == sending.messages.difference(received.messages)
        }),
{
}

/// The states of a sender and a receiver after the sender's tick has
/// reached the receiver and the receiver's answer the sender. A sender that
/// owes nothing sends nothing, and both stay as they are.
pub open spec fn exchange(sending: StateView, receiving: StateView) -> (StateView, StateView) {
    if sending.pending.is_empty() {
        (sending, receiving)
    } else {
        let received = receiving.absorbed(sending.pending);
        (sending.after_round().reconciled(received.messages), received)
    }
}

/// Two nodes converge: where the sender owes something, two exchanges leave
/// both with all that either had observed, and the sender owes nothing.
pub proof fn lemma_pair_converges(sending: StateView, receiving: StateView)
    requires
        sending.pending.subset_of(sending.messages),
        !sending.pending.is_empty(),
    ensures
        ({
            let (sent, received) = exchange(sending, receiving);
            let (sender, receiver) = exchange(sent, received);
            &&& sender.messages == sending.messages.union(receiving.messages)
            &&& receiver.messages == sending.messages.union(receiving.messages)
            &&& sender.pending == Set::<i32>::empty()
        }),
{
    let (sent, received) = exchange(sending, receiving);
    if sent.pending.is_empty() {
        assert forall|value: i32| sending.messages.contains(value) implies received.messages.contains(
            value,
        ) by {
            if !received.messages.contains(value) {
                assert(sent.pending.contains(value));
            }
        }
    }
}

/// The neighbors that a node with id `own` derives from the membership
/// `ids`: those of the star.
pub open spec fn derived_neighbors(ids: Seq<Seq<char>>, own: Seq<char>) -> Seq<Seq<char>> {
    Topology::StarTopology.neighbors_of(ids, own)
}

/// The state in which a node with id `own` in the cluster `ids` leaves a
/// request, and its verdict on it: the reply if it gives one, or the reason
/// why it refuses.
pub open spec fn transition(
    own: Seq<char>,
    ids: Seq<Seq<char>>,
    state: StateView,
    req: MessageView,
) -> (StateView, Result<Option<MessageView>, NodeError>) {
    let reply = |body: BodyView| Ok(Some(MessageView { src: own, dest: req.src, body }));
    match req.body {
        BodyView::Broadcast { msg_id, message } => (
            state.accepted(message),
            reply(BodyView::BroadcastOk { in_reply_to: msg_id }),
        ),
        BodyView::Read { msg_id } => (
            state,
            reply(BodyView::ReadOk { messages: state.messages, in_reply_to: msg_id }),
        ),
        BodyView::Topology { msg_id, .. } => (
            StateView { neighbors: derived_neighbors(ids, own), ..state },
            reply(BodyView::TopologyOk { in_reply_to: msg_id }),
        ),
        BodyView::Gossip { msg_id, messages } => (
            state.absorbed(messages),
            reply(
                BodyView::GossipOk {
                    in_reply_to: msg_id,
                    messages: state.absorbed(messages).messages,
                },
            ),
        ),
        BodyView::GossipOk { messages, .. } => (state.reconciled(messages), Ok(None)),
        BodyView::Init { .. } => (state, Err(NodeError::InitRepeated)),
        _ => (state, Err(NodeError::Unrecognized)),
    }
}

/// The gossips of one round: one for each neighbor, in the neighbors' order,
/// each with the next message id after `last` and the integers that are
/// owed.
pub open spec fn gossip_round(
    own: Seq<char>,
    neighbors: Seq<Seq<char>>,
    last: u32,
    pending: Set<i32>,
) -> Seq<MessageView> {
    Seq::new(
        neighbors.len(),
        |i: int|
            MessageView {
                src: own,
                dest: neighbors[i],
                body: BodyView::Gossip { msg_id: (last + 1 + i) as u32, messages: pending },
            },
    )
}

/// One tick of the gossip timer on the state of the node `own`: the state
/// after it and the gossips to send, or the reason why there are none.
///
/// With nobody to gossip to or nothing owed the tick does nothing. Else it
/// sends what is owed to every neighbor and owes nothing afterwards.
pub open spec fn tick(own: Seq<char>, state: StateView) -> (
    StateView,
    Result<Seq<MessageView>, NodeError>,
) {
    if !state.round_due() {
        (state, Ok(Seq::empty()))
    } else if !state.round_fits() {
        (state, Err(NodeError::Overflow))
    } else {
        (
            state.after_round(),
            Ok(gossip_round(own, state.neighbors, state.last_message_id, state.pending)),
        )
    }
}

/// A reply answers the request it was given for: it carries the request's
/// id, comes from the node and goes to the request's sender.
pub proof fn lemma_reply_answers_request(
    own: Seq<char>,
    ids: Seq<Seq<char>>,
    state: StateView,
    req: MessageView,
)
    ensures
        transition(own, ids, state, req).1 matches Ok(Some(reply)) ==> {
            &&& reply.src == own
            &&& reply.dest == req.src
            &&& req.body.msg_id() is Some
            &&& reply.body.in_reply_to() == req.body.msg_id()
        },
{
}

/// What happens to a node: a message arrives, or the gossip timer ticks.
pub enum Input {
    Message(MessageView),
    Tick,
}

/// The state after one input and the messages that the node sends for it:
/// the reply to a message, if there is one, or the gossips of a tick. An
/// input that is refused sends nothing.
pub open spec fn step(own: Seq<char>, ids: Seq<Seq<char>>, state: StateView, input: Input) -> (
    StateView,
    Seq<MessageView>,
) {
    match input {
        Input::Message(req) => {
            let (next, verdict) = transition(own, ids, state, req);
            (
                next,
                match verdict {
                    Ok(Some(reply)) => seq![reply],
                    _ => Seq::empty(),
                },
            )
        },
        Input::Tick => {
            let (next, round) = tick(own, state);
            (
                next,
                match round {
                    Ok(gossips) => gossips,
                    Err(_) => Seq::empty(),
                },
            )
        },
    }
}

/// The state after a run of inputs and all that the node has sent in it, in
/// the order of sending.
pub open spec fn run(own: Seq<char>, ids: Seq<Seq<char>>, state: StateView, inputs: Seq<Input>)
    -> (StateView, Seq<MessageView>)
    decreases inputs.len(),
{
    if inputs.len() == 0 {
        (state, Seq::empty())
    } else {
        let (before, sent) = run(own, ids, state, inputs.drop_last());
        let (after, sending) = step(own, ids, before, inputs.last());
        (after, sent + sending)
    }
}

impl Input {
    /// Whether the input is a message from `id`.
    pub open spec fn written_by(self, id: Seq<char>) -> bool {
        match self {
            Input::Message(req) => req.src == id,
            Input::Tick => false,
        }
    }
}

/// Whether `id` is the sender of one of the messages among `inputs`.
pub open spec fn has_written(inputs: Seq<Input>, id: Seq<char>) -> bool {
    exists|j: int| 0 <= j < inputs.len() && #[trigger] inputs[j].written_by(id)
}

/// Over any run of a node that starts well formed: the state stays well
/// formed and its last message id never goes back; every message that the
/// node sends comes from the node and goes to a member of the cluster or to
/// somebody who has written to the node; and the message ids that the node
/// stamps are strictly increasing in the order of sending.
pub proof fn lemma_run(own: Seq<char>, ids: Seq<Seq<char>>, state: StateView, inputs: Seq<Input>)
    requires
        ids.contains(own),
        state.wf(ids),
    ensures
        ({
            let (after, sent) = run(own, ids, state, inputs);
            &&& after.wf(ids)
            &&& state.last_message_id <= after.last_message_id
            &&& forall|k: int|
                0 <= k < sent.len() ==> (#[trigger] sent[k]).src == own && (ids.contains(
                    sent[k].dest,
                ) || has_written(inputs, sent[k].dest))
            &&& forall|k: int|
                0 <= k < sent.len() && (#[trigger] sent[k]).body is Gossip
                    ==> state.last_message_id < sent[k].body->Gossip_msg_id
                    <= after.last_message_id
            &&& forall|k: int, l: int|
                0 <= k < l < sent.len() && (#[trigger] sent[k]).body is Gossip && (
                #[trigger] sent[l]).body is Gossip ==> sent[k].body->Gossip_msg_id
                    < sent[l].body->Gossip_msg_id
        }),
    decreases inputs.len(),
{
    if inputs.len() > 0 {
        let earlier = inputs.drop_last();
        let (before, sent) = run(own, ids, state, earlier);
        let (after, sending) = step(own, ids, before, inputs.last());
        let all = sent + sending;
        lemma_run(own, ids, state, earlier);
        lemma_neighbors_are_members(Topology::StarTopology, ids, own);
        assert forall|k: int| 0 <= k < all.len() implies (#[trigger] all[k]).src == own && (
        ids.contains(all[k].dest) || has_written(inputs, all[k].dest)) by {
            if k < sent.len() {
                if has_written(earlier, sent[k].dest) {
                    let j = choose|j: int|
                        0 <= j < earlier.len() && #[trigger] earlier[j].written_by(sent[k].dest);
                    assert(inputs[j].written_by(sent[k].dest));
                }
            } else {
                match inputs.last() {
                    Input::Message(req) => {
                        assert(inputs[inputs.len() - 1].written_by(req.src));
                    },
                    Input::Tick => {
                        assert(ids.contains(before.neighbors[k - sent.len()]));
                    },
                }
            }
        }
    }
}

/// The mathematical form of a tick's result.
pub open spec fn round_view(round: Result<Vec<Message>, NodeError>) -> Result<
    Seq<MessageView>,
    NodeError,
> {
    match round {
        Ok(messages) => Ok(messages_view(messages@)),
        Err(error) => Err(error),
    }
}

/// A node of the broadcast workload.
#[derive(Debug)]
pub struct Node {
    pub node_id: String,
    pub node_ids: Vec<String>,
    pub state: NodeState,
}

impl Node {
    /// Whether the node's parts fit together: the node is a member of its
    /// cluster, and its state is well formed for that cluster.
    pub open spec fn wf(&self) -> bool {
        &&& self.node_ids.deep_view().contains(self.node_id@)
        &&& self.state@.wf(self.node_ids.deep_view())
    }

    /// Builds the node from the first message it receives, which must be an
    /// `init` that names the node among the members of the cluster. Gives
    /// the node back together with the `init_ok` reply that is to be
    /// written. The node starts with nothing observed and the neighbors that
    /// it derives from the membership.
    pub fn init(msg: Message) -> (made: Result<(Node, Message), NodeError>)
        ensures
            match made {
                Ok((node, reply)) => {
                    &&& msg.body@ matches BodyView::Init { msg_id, node_id, node_ids }
                    &&& node_ids.contains(node_id)
                    &&& node.wf()
                    &&& node.node_id@ == node_id
                    &&& node.node_ids.deep_view() == node_ids
                    &&& node.state@ == (StateView {
                        neighbors: derived_neighbors(node_ids, node_id),
                        ..StateView::initial()
                    })
                    &&& reply@ == (MessageView {
                        src: node_id,
                        dest: msg.src@,
                        body: BodyView::InitOk { in_reply_to: msg_id },
                    })
                },
                Err(error) => match msg.body@ {
                    BodyView::Init { node_id, node_ids, .. } => error == NodeError::NoNeighbors
                        && !node_ids.contains(node_id),
                    _ => error == NodeError::InitExpected,
                },
            },
    {
        match msg.body {
            MessageBody::Init { msg_id, node_id, node_ids } => {
                let neighbors = match Topology::StarTopology.neighbors(
                    &node_ids,
                    node_id.as_str(),
                ) {
                    Some(list) => list,
                    None => {
                        return Err(NodeError::NoNeighbors);
                    },
                };
                proof {
                    lemma_neighbors_are_members(
                        Topology::StarTopology,
                        node_ids.deep_view(),
                        node_id@,
                    );
                }
                let reply = Message {
                    src: node_id.clone(),
                    dest: msg.src,
                    body: MessageBody::InitOk { in_reply_to: msg_id },
                };
                let state = NodeState {
                    messages: HashSet::new(),
                    neighbors,
                    last_message_id: 0,
                    pending_to_send: HashSet::new(),
                };
                Ok((Node { node_id, node_ids, state }, reply))
            },
            _ => Err(NodeError::InitExpected),
        }
    }

    /// Handles one inbound message: updates the state and gives the reply,
    /// if the message calls for one.
    ///
    /// An `init` is refused, for the node is initialized; a body that is
    /// itself a reply to a client is not understood. A refused message
    /// leaves the state as it was.
    pub fn handle(&mut self, req: Message) -> (verdict: Result<Option<Message>, NodeError>)
        requires
            old(self).wf(),
        ensures
            final(self).wf(),
            final(self).node_id@ == old(self).node_id@,
            final(self).node_ids.deep_view() == old(self).node_ids.deep_view(),
            (final(self).state@, verdict_view(verdict)) == transition(
                old(self).node_id@,
                old(self).node_ids.deep_view(),
                old(self).state@,
                req@,
            ),
            verdict matches Ok(Some(reply)) ==> {
                &&& reply.src@ == old(self).node_id@
                &&& reply.dest@ == req.src@
                &&& req.body@.msg_id() is Some
                &&& reply.body@.in_reply_to() == req.body@.msg_id()
            },
    {
        let body = match req.body {
            MessageBody::Broadcast { msg_id, message } => {
                self.state.accept(message);
                MessageBody::BroadcastOk { in_reply_to: msg_id }
            },
            MessageBody::Read { msg_id } => MessageBody::ReadOk {
                messages: clone_set(&self.state.messages),
                in_reply_to: msg_id,
            },
            MessageBody::Topology { msg_id, topology: _ } => {
                // The suggestion is not taken: the node keeps to the star.
                self.state.neighbors = Topology::StarTopology.neighbors(
                    &self.node_ids,
                    self.node_id.as_str(),
                ).unwrap();
                proof {
                    lemma_neighbors_are_members(
                        Topology::StarTopology,
                        self.node_ids.deep_view(),
                        self.node_id@,
                    );
                }
                MessageBody::TopologyOk { in_reply_to: msg_id }
            },
            MessageBody::Gossip { msg_id, messages: external_messages } => {
                self.state.absorb(&external_messages);
                // All that the node knows goes back, so that the sender can
                // tell what did not arrive.
                MessageBody::GossipOk {
                    messages: clone_set(&self.state.messages),
                    in_reply_to: msg_id,
                }
            },
            MessageBody::GossipOk { in_reply_to: _, messages: external_messages } => {
                self.state.reconcile(&external_messages);
                return Ok(None);
            },
            MessageBody::Init { .. } => {
                return Err(NodeError::InitRepeated);
            },
            _ => {
                return Err(NodeError::Unrecognized);
            },
        };
        Ok(Some(Message { src: self.node_id.clone(), dest: req.src, body }))
    }

    /// One tick of the gossip timer: builds a gossip with what is owed for
    /// each neighbor, in the neighbors' order, each under a fresh message id,
    /// remembers the last id used and owes nothing afterwards.
    ///
    /// With nobody to gossip to or nothing owed there is nothing to send and
    /// nothing changes. Ids that would pass the largest one are an overflow,
    /// which leaves the state as it was.
    pub fn gossip(&mut self) -> (round: Result<Vec<Message>, NodeError>)
        requires
            old(self).wf(),
        ensures
            final(self).wf(),
            final(self).node_id@ == old(self).node_id@,
            final(self).node_ids.deep_view() == old(self).node_ids.deep_view(),
            (final(self).state@, round_view(round)) == tick(old(self).node_id@, old(self).state@),
            round matches Ok(messages) ==> forall|i: int|
                0 <= i < messages.len() ==> (#[trigger] messages[i]).src@ == old(self).node_id@
                    && old(self).node_ids.deep_view().contains(messages[i].dest@),
    {
        let n = self.state.neighbors.len();
        if n == 0 || self.state.pending_to_send.is_empty() {
            let nothing: Vec<Message> = Vec::new();
            assert(messages_view(nothing@) =~= Seq::<MessageView>::empty());
            return Ok(nothing);
        }
        let last = self.state.last_message_id;
        if n > (u32::MAX - last) as usize {
            return Err(NodeError::Overflow);
        }
        let mut messages: Vec<Message> = Vec::new();
        let mut msg_id = last;
        let mut i: usize = 0;
        while i < n
            invariant
                i <= n,
                n == self.state.neighbors.len(),
                last + n <= u32::MAX,
                msg_id == last + i,
                messages.len() == i,
                forall|j: int|
                    0 <= j < i ==> (#[trigger] messages[j])@ == (MessageView {
                        src: self.node_id@,
                        dest: self.state.neighbors[j]@,
                        body: BodyView::Gossip {
                            msg_id: (last + 1 + j) as u32,
                            messages: self.state.pending_to_send@,
                        },
                    }),
            decreases n - i,
        {
            msg_id = msg_id + 1;
            messages.push(
                Message {
                    src: self.node_id.clone(),
                    dest: self.state.neighbors[i].clone(),
                    body: MessageBody::Gossip {
                        msg_id,
                        messages: clone_set(&self.state.pending_to_send),
                    },
                },
            );
            i += 1;
        }
        proof {
            assert(messages_view(messages@) =~= gossip_round(
                self.node_id@,
                self.state.neighbors.deep_view(),
                last,
                self.state.pending_to_send@,
            ));
            assert forall|i: int| 0 <= i < messages.len() implies self.node_ids.deep_view().contains(
                (#[trigger] messages[i]).dest@,
            ) by {
                assert(messages[i].dest@ == self.state@.neighbors[i]);
            }
        }
        self.state.last_message_id = msg_id;
        self.state.pending_to_send.clear();
        assert(self.state@.neighbors == old(self).state@.neighbors);
        Ok(messages)
    }

    /// Takes one event off the bus and says what the consumer does next.
    ///
    /// An inbound message is handled, and its reply, if any, is to be
    /// written; a message that was not understood is dropped, and a fatal
    /// error ends the node. A pushed message is to be written as it is: the
    /// tick that built it has updated the state already, so it is not
    /// handled again. A shutdown ends the loop.
    pub fn react(&mut self, event: Event<Message>) -> (action: Result<Action<Message>, NodeError>)
        requires
            old(self).wf(),
        ensures
            final(self).wf(),
            final(self).node_id@ == old(self).node_id@,
            final(self).node_ids.deep_view() == old(self).node_ids.deep_view(),
            match event {
                Event::Reply(req) => (final(self).state@, action_view(action)) == ({
                    let (state, verdict) = transition(
                        old(self).node_id@,
                        old(self).node_ids.deep_view(),
                        old(self).state@,
                        req@,
                    );
                    (state, settled(verdict))
                }),
                Event::Push(message) => final(self).state@ == old(self).state@ && action_view(
                    action,
                ) == Ok::<Action<MessageView>, NodeError>(Action::Write(message@)),
                Event::Shutdown => final(self).state@ == old(self).state@ && action_view(action)
                    == Ok::<Action<MessageView>, NodeError>(Action::Stop),
            },
    {
        match event {
            Event::Reply(req) => {
                let verdict = self.handle(req);
                settle(verdict)
            },
            Event::Push(message) => Ok(Action::Write(message)),
            Event::Shutdown => Ok(Action::Stop),
        }
    }
}

} // verus!
