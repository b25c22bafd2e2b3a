//! The unique id workload: a node that hands out ids which no node of the
//! cluster hands out twice.
//!
//! An id is the node's own id, a colon and the number of the request among
//! those that the node has answered, in decimal. Ids of one node differ in
//! the number, ids of two nodes in what stands before the last colon.

use crate::error::NodeError;
use vstd::prelude::*;
use vstd::string::StringExecFns;

verus! {

/// The character of a decimal digit.
pub open spec fn digit_char(digit: nat) -> char {
    if digit == 0 {
        '0'
    } else if digit == 1 {
        '1'
    } else if digit == 2 {
        '2'
    } else if digit == 3 {
        '3'
    } else if digit == 4 {
        '4'
    } else if digit == 5 {
        '5'
    } else if digit == 6 {
        '6'
    } else if digit == 7 {
        '7'
    } else if digit == 8 {
        '8'
    } else {
        '9'
    }
}

/// The decimal form of a number, without leading zeros.
pub open spec fn decimal_text(n: nat) -> Seq<char>
    decreases n,
{
    if n < 10 {
        seq![digit_char(n)]
    } else {
        decimal_text(n / 10).push(digit_char(n % 10))
    }
}

/// The id that the node `own` hands out with its request number `n`.
pub open spec fn generated_id(own: Seq<char>, n: nat) -> Seq<char> {
    own + seq![':'] + decimal_text(n)
}

/// A decimal form is not empty and holds no colon.
pub proof fn lemma_decimal_text_shape(n: nat)
    ensures
        decimal_text(n).len() >= 1,
        n >= 10 ==> decimal_text(n).len() >= 2,
        forall|i: int| 0 <= i < decimal_text(n).len() ==> decimal_text(n)[i] != ':',
    decreases n,
{
    if n >= 10 {
        lemma_decimal_text_shape(n / 10);
    }
}

/// Two numbers with the same decimal form are the same number.
pub proof fn lemma_decimal_text_injective(n: nat, m: nat)
    requires
        decimal_text(n) == decimal_text(m),
    ensures
        n == m,
    decreases n,
{
    lemma_decimal_text_shape(n);
    lemma_decimal_text_shape(m);
    if n >= 10 && m >= 10 {
        let a = decimal_text(n / 10);
        let b = decimal_text(m / 10);
        assert(a.push(digit_char(n % 10)).drop_last() =~= a);
        assert(b.push(digit_char(m % 10)).drop_last() =~= b);
        assert(a.push(digit_char(n % 10)).last() == digit_char(n % 10));
        assert(b.push(digit_char(m % 10)).last() == digit_char(m % 10));
        assert(a == b);
        lemma_decimal_text_injective(n / 10, m / 10);
        assert(digit_char(n % 10) == digit_char(m % 10));
        assert(n % 10 == m % 10);
    } else if n < 10 && m < 10 {
        assert(decimal_text(n)[0] == digit_char(n));
        assert(decimal_text(m)[0] == digit_char(m));
    }
}

/// No id is handed out twice: two ids are equal only where both the node
/// and the request number are.
pub proof fn lemma_generated_ids_distinct(a: Seq<char>, n: nat, b: Seq<char>, m: nat)
    requires
        generated_id(a, n) == generated_id(b, m),
    ensures
        a == b,
        n == m,
{
    let x = generated_id(a, n);
    let y = generated_id(b, m);
    let dn = decimal_text(n);
    let dm = decimal_text(m);
    lemma_decimal_text_shape(n);
    lemma_decimal_text_shape(m);
    assert(x.len() == a.len() + 1 + dn.len());
    assert(y.len() == b.len() + 1 + dm.len());
    assert(x[a.len() as int] == ':');
    assert(y[b.len() as int] == ':');
    if a.len() < b.len() {
        // The colon of the second id falls into the digits of the first.
        assert(x[b.len() as int] == dn[b.len() - a.len() - 1]);
        assert(false);
    }
    if b.len() < a.len() {
        assert(y[a.len() as int] == dm[a.len() - b.len() - 1]);
        assert(false);
    }
    assert(a =~= b) by {
        assert forall|i: int| 0 <= i < a.len() implies a[i] == b[i] by {
            assert(x[i] == a[i]);
            assert(y[i] == b[i]);
        }
    }
    assert(dn =~= dm) by {
        assert forall|i: int| 0 <= i < dn.len() implies dn[i] == dm[i] by {
            assert(x[a.len() + 1 + i] == dn[i]);
            assert(y[b.len() + 1 + i] == dm[i]);
        }
    }
    lemma_decimal_text_injective(n, m);
}

/// The text of one decimal digit.
fn digit_text(digit: u32) -> (text: &'static str)
    requires
        digit < 10,
    ensures
        text@ == seq![digit_char(digit as nat)],
{
    proof {
        reveal_strlit("0");
        reveal_strlit("1");
        reveal_strlit("2");
        reveal_strlit("3");
        reveal_strlit("4");
        reveal_strlit("5");
        reveal_strlit("6");
        reveal_strlit("7");
        reveal_strlit("8");
        reveal_strlit("9");
    }
    let text = if digit == 0 {
        "0"
    } else if digit == 1 {
        "1"
    } else if digit == 2 {
        "2"
    } else if digit == 3 {
        "3"
    } else if digit == 4 {
        "4"
    } else if digit == 5 {
        "5"
    } else if digit == 6 {
        "6"
    } else if digit == 7 {
        "7"
    } else if digit == 8 {
        "8"
    } else {
        "9"
    };
    text
}

/// The decimal form of `n`.
pub fn decimal(n: u32) -> (text: String)
    ensures
        text@ == decimal_text(n as nat),
{
    let mut text = String::from_str(digit_text(n % 10));
    let mut rest = n / 10;
    while rest > 0
        invariant
            decimal_text(n as nat) == (if rest == 0 {
                text@
            } else {
                decimal_text(rest as nat) + text@
            }),
        decreases rest,
    {
        let ghost before = text@;
        let digit = String::from_str(digit_text(rest % 10));
        text = digit.concat(text.as_str());
        proof {
            let head = if rest < 10 {
                Seq::<char>::empty()
            } else {
                decimal_text((rest / 10) as nat)
            };
            assert(decimal_text(rest as nat) =~= head + seq![digit_char((rest % 10) as nat)]);
            assert(decimal_text(rest as nat) + before =~= head + text@);
        }
        rest = rest / 10;
    }
    text
}

/// A message between a client and a node.
#[derive(Debug)]
pub struct Message {
    pub src: String,
    pub dest: String,
    pub body: MessageBody,
}

/// The bodies of the unique id workload, by their `type` on the wire.
#[derive(Debug)]
pub enum MessageBody {
    Init { msg_id: u32, node_id: String, node_ids: Vec<String> },
    InitOk { in_reply_to: u32 },
    Generate { msg_id: u32 },
    GenerateOk { in_reply_to: u32, id: String },
}

/// A body in its mathematical form.
pub enum BodyView {
    Init { msg_id: u32, node_id: Seq<char>, node_ids: Seq<Seq<char>> },
    InitOk { in_reply_to: u32 },
    Generate { msg_id: u32 },
    GenerateOk { in_reply_to: u32, id: Seq<char> },
}

/// A message in its mathematical form.
pub struct MessageView {
    pub src: Seq<char>,
    pub dest: Seq<char>,
    pub body: BodyView,
}

impl BodyView {
    /// The request id of a body that carries one.
    pub open spec fn msg_id(self) -> Option<u32> {
        match self {
            BodyView::Init { msg_id, .. } => Some(msg_id),
            BodyView::Generate { msg_id } => Some(msg_id),
            _ => None,
        }
    }

    /// The id of the request that a reply answers.
    pub open spec fn in_reply_to(self) -> Option<u32> {
        match self {
            BodyView::InitOk { in_reply_to } => Some(in_reply_to),
            BodyView::GenerateOk { in_reply_to, .. } => Some(in_reply_to),
            _ => None,
        }
    }
}

impl View for MessageBody {
    type V = BodyView;

    open spec fn view(&self) -> BodyView {
        match self {
            MessageBody::Init { msg_id, node_id, node_ids } => BodyView::Init {
                msg_id: *msg_id,
                node_id: node_id@,
                node_ids: node_ids.deep_view(),
            },
            MessageBody::InitOk { in_reply_to } => BodyView::InitOk { in_reply_to: *in_reply_to },
            MessageBody::Generate { msg_id } => BodyView::Generate { msg_id: *msg_id },
            MessageBody::GenerateOk { in_reply_to, id } => BodyView::GenerateOk {
                in_reply_to: *in_reply_to,
                id: id@,
            },
        }
    }
}

impl View for Message {
    type V = MessageView;

    open spec fn view(&self) -> MessageView {
        MessageView { src: self.src@, dest: self.dest@, body: self.body@ }
    }
}

/// The mathematical form of a handler's verdict.
pub open spec fn verdict_view(verdict: Result<Option<Message>, NodeError>) -> Result<
    Option<MessageView>,
    NodeError,
> {
    match verdict {
        Ok(Some(reply)) => Ok(Some(reply@)),
        Ok(None) => Ok(None),
        Err(error) => Err(error),
    }
}

/// The state of a unique id node: the number of ids it has handed out.
#[derive(Debug, Clone, Copy, PartialEq, Eq, Structural)]
pub struct NodeState {
    pub last_message_id: u32,
}

impl Default for NodeState {
    fn default() -> (state: NodeState)
        ensures
            state.last_message_id == 0,
    {
        NodeState { last_message_id: 0 }
    }
}

/// The state in which the node `own` leaves a request, and its verdict on
/// it: a `generate` is answered with the id of the next request number,
/// unless the numbers are used up; an `init` is refused, and nothing else is
/// understood.
pub open spec fn transition(own: Seq<char>, state: NodeState, req: MessageView) -> (
    NodeState,
    Result<Option<MessageView>, NodeError>,
) {
    match req.body {
        BodyView::Generate { msg_id } => if state.last_message_id < u32::MAX {
            let next = (state.last_message_id + 1) as u32;
            (
                NodeState { last_message_id: next },
                Ok(
                    Some(
                        MessageView {
                            src: own,
                            dest: req.src,
                            body: BodyView::GenerateOk {
                                in_reply_to: msg_id,
                                id: generated_id(own, next as nat),
                            },
                        },
                    ),
                ),
            )
        } else {
            (state, Err(NodeError::Overflow))
        },
        BodyView::Init { .. } => (state, Err(NodeError::InitRepeated)),
        _ => (state, Err(NodeError::Unrecognized)),
    }
}

/// A reply answers the request it was given for: it carries the request's
/// id, comes from the node and goes to the request's sender.
pub proof fn lemma_reply_answers_request(own: Seq<char>, state: NodeState, req: MessageView)
    ensures
        transition(own, state, req).1 matches Ok(Some(reply)) ==> {
            &&& reply.src == own
            &&& reply.dest == req.src
            &&& req.body.msg_id() is Some
            &&& reply.body.in_reply_to() == req.body.msg_id()
        },
{
}

/// The ids that nodes hand out are pairwise distinct: two answers carry the
/// same id only where the same node gave them from the same state.
pub proof fn lemma_answers_distinct(
    a: Seq<char>,
    before_a: NodeState,
    req_a: MessageView,
    b: Seq<char>,
    before_b: NodeState,
    req_b: MessageView,
)
    requires
        transition(a, before_a, req_a).1 matches Ok(Some(first)) && transition(
            b,
            before_b,
            req_b,
        ).1 matches Ok(Some(second)) && first.body->GenerateOk_id == second.body->GenerateOk_id,
    ensures
        a == b,
        before_a == before_b,
{
    lemma_generated_ids_distinct(
        a,
        (before_a.last_message_id + 1) as nat,
        b,
        (before_b.last_message_id + 1) as nat,
    );
}

/// A node of the unique id workload.
#[derive(Debug)]
pub struct Node {
    pub node_id: String,
    pub state: NodeState,
}

impl Node {
    /// Builds the node from the first message it receives, which must be an
    /// `init`. Gives the node back together with the `init_ok` reply that is
    /// to be written. The node has handed out no id yet.
    pub fn init(msg: Message) -> (made: Result<(Node, Message), NodeError>)
        ensures
            match made {
                Ok((node, reply)) => {
                    &&& msg.body@ matches BodyView::Init { msg_id, node_id, .. }
                    &&& node.node_id@ == node_id
                    &&& node.state.last_message_id == 0
                    &&& reply@ == (MessageView {
                        src: node_id,
                        dest: msg.src@,
                        body: BodyView::InitOk { in_reply_to: msg_id },
                    })
                },
                Err(error) => error == NodeError::InitExpected && !(msg.body@ is Init),
            },
    {
        match msg.body {
            MessageBody::Init { msg_id, node_id, node_ids: _ } => {
                let reply = Message {
                    src: node_id.clone(),
                    dest: msg.src,
                    body: MessageBody::InitOk { in_reply_to: msg_id },
                };
                Ok((Node { node_id, state: NodeState { last_message_id: 0 } }, reply))
            },
            _ => Err(NodeError::InitExpected),
        }
    }

    /// Handles one inbound message: updates the state and gives the reply,
    /// if the message calls for one. A refused message leaves the state as
    /// it was.
    pub fn handle(&mut self, req: Message) -> (verdict: Result<Option<Message>, NodeError>)
        ensures
            final(self).node_id@ == old(self).node_id@,
            (final(self).state, verdict_view(verdict)) == transition(
                old(self).node_id@,
                old(self).state,
                req@,
            ),
            verdict matches Ok(Some(reply)) ==> {
                &&& reply.src@ == old(self).node_id@
                &&& reply.dest@ == req.src@
                &&& req.body@.msg_id() is Some
                &&& reply.body@.in_reply_to() == req.body@.msg_id()
            },
    {
        match req.body {
            MessageBody::Generate { msg_id } => {
                if self.state.last_message_id == u32::MAX {
                    return Err(NodeError::Overflow);
                }
                self.state.last_message_id = self.state.last_message_id + 1;
                let id = self.node_id.clone().concat(":").concat(
                    decimal(self.state.last_message_id).as_str(),
                );
                proof {
                    reveal_strlit(":");
                    assert(":"@ =~= seq![':']);
                }
                Ok(
                    Some(
                        Message {
                            src: self.node_id.clone(),
                            dest: req.src,
                            body: MessageBody::GenerateOk { in_reply_to: msg_id, id },
                        },
                    ),
                )
            },
            MessageBody::Init { .. } => Err(NodeError::InitRepeated),
            _ => Err(NodeError::Unrecognized),
        }
    }
}

} // verus!
