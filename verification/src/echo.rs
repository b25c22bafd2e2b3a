//! The echo workload: a node that sends every payload back.

use crate::error::NodeError;
use vstd::prelude::*;

verus! {

/// A message between a client and a node.
#[derive(Debug)]
pub struct Message {
    pub src: String,
    pub dest: String,
    pub body: MessageBody,
}

/// The bodies of the echo workload, by their `type` on the wire.
#[derive(Debug)]
pub enum MessageBody {
    Echo { msg_id: u32, echo: String },
    EchoOk { in_reply_to: u32, echo: String },
    Init { msg_id: u32, node_id: String, node_ids: Vec<String> },
    InitOk { in_reply_to: u32 },
}

/// A body in its mathematical form.
pub enum BodyView {
    Echo { msg_id: u32, echo: Seq<char> },
    EchoOk { in_reply_to: u32, echo: Seq<char> },
    Init { msg_id: u32, node_id: Seq<char>, node_ids: Seq<Seq<char>> },
    InitOk { in_reply_to: u32 },
}

/// A message in its mathematical form.
pub struct MessageView {
    pub src: Seq<char>,
    pub dest: Seq<char>,
    pub body: BodyView,
}

impl BodyView {
    /// The request id of a body that carries one.
    pub open spec fn msg_id(self) -> Option<u32> {
        match self {
            BodyView::Echo { msg_id, .. } => Some(msg_id),
            BodyView::Init { msg_id, .. } => Some(msg_id),
            _ => None,
        }
    }

    /// The id of the request that a reply answers.
    pub open spec fn in_reply_to(self) -> Option<u32> {
        match self {
            BodyView::EchoOk { in_reply_to, .. } => Some(in_reply_to),
            BodyView::InitOk { in_reply_to } => Some(in_reply_to),
            _ => None,
        }
    }
}

impl View for MessageBody {
    type V = BodyView;

    open spec fn view(&self) -> BodyView {
        match self {
            MessageBody::Echo { msg_id, echo } => BodyView::Echo { msg_id: *msg_id, echo: echo@ },
            MessageBody::EchoOk { in_reply_to, echo } => BodyView::EchoOk {
                in_reply_to: *in_reply_to,
                echo: echo@,
            },
            MessageBody::Init { msg_id, node_id, node_ids } => BodyView::Init {
                msg_id: *msg_id,
                node_id: node_id@,
                node_ids: node_ids.deep_view(),
            },
            MessageBody::InitOk { in_reply_to } => BodyView::InitOk { in_reply_to: *in_reply_to },
        }
    }
}

impl View for Message {
    type V = MessageView;

    open spec fn view(&self) -> MessageView {
        MessageView { src: self.src@, dest: self.dest@, body: self.body@ }
    }
}

/// The mathematical form of a handler's verdict.
pub open spec fn verdict_view(verdict: Result<Option<Message>, NodeError>) -> Result<
    Option<MessageView>,
    NodeError,
> {
    match verdict {
        Ok(Some(reply)) => Ok(Some(reply@)),
        Ok(None) => Ok(None),
        Err(error) => Err(error),
    }
}

/// The verdict of the node `own` on a request: an `echo` is answered with
/// its own payload, an `init` is refused, and nothing else is understood.
pub open spec fn verdict(own: Seq<char>, req: MessageView) -> Result<
    Option<MessageView>,
    NodeError,
> {
    match req.body {
        BodyView::Echo { msg_id, echo } => Ok(
            Some(
                MessageView {
                    src: own,
                    dest: req.src,
                    body: BodyView::EchoOk { in_reply_to: msg_id, echo },
                },
            ),
        ),
        BodyView::Init { .. } => Err(NodeError::InitRepeated),
        _ => Err(NodeError::Unrecognized),
    }
}

/// A reply answers the request it was given for: it carries the request's
/// id, comes from the node and goes to the request's sender.
pub proof fn lemma_reply_answers_request(own: Seq<char>, req: MessageView)
    ensures
        verdict(own, req) matches Ok(Some(reply)) ==> {
            &&& reply.src == own
            &&& reply.dest == req.src
            &&& req.body.msg_id() is Some
            &&& reply.body.in_reply_to() == req.body.msg_id()
        },
{
}

/// A node of the echo workload.
#[derive(Debug)]
pub struct Node {
    pub node_id: String,
}

impl Node {
    /// Builds the node from the first message it receives, which must be an
    /// `init`. Gives the node back together with the `init_ok` reply that is
    /// to be written.
    pub fn init(msg: Message) -> (made: Result<(Node, Message), NodeError>)
        ensures
            match made {
                Ok((node, reply)) => {
                    &&& msg.body@ matches BodyView::Init { msg_id, node_id, .. }
                    &&& node.node_id@ == node_id
                    &&& reply@ == (MessageView {
                        src: node_id,
                        dest: msg.src@,
                        body: BodyView::InitOk { in_reply_to: msg_id },
                    })
                },
                Err(error) => error == NodeError::InitExpected && !(msg.body@ is Init),
            },
    {
        match msg.body {
            MessageBody::Init { msg_id, node_id, node_ids: _ } => {
                let reply = Message {
                    src: node_id.clone(),
                    dest: msg.src,
                    body: MessageBody::InitOk { in_reply_to: msg_id },
                };
                Ok((Node { node_id }, reply))
            },
            _ => Err(NodeError::InitExpected),
        }
    }

    /// Handles one inbound message and gives the reply, if the message calls
    /// for one. The node keeps no state beyond its id.
    pub fn handle(&mut self, req: Message) -> (reply: Result<Option<Message>, NodeError>)
        ensures
            final(self).node_id@ == old(self).node_id@,
            verdict_view(reply) == verdict(old(self).node_id@, req@),
            reply matches Ok(Some(answer)) ==> {
                &&& answer.src@ == old(self).node_id@
                &&& answer.dest@ == req.src@
                &&& req.body@.msg_id() is Some
                &&& answer.body@.in_reply_to() == req.body@.msg_id()
            },
    {
        match req.body {
            MessageBody::Echo { msg_id, echo } => Ok(
                Some(
                    Message {
                        src: self.node_id.clone(),
                        dest: req.src,
                        body: MessageBody::EchoOk { in_reply_to: msg_id, echo },
                    },
                ),
            ),
            MessageBody::Init { .. } => Err(NodeError::InitRepeated),
            _ => Err(NodeError::Unrecognized),
        }
    }
}

} // verus!
