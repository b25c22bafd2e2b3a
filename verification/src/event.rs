//! The events that a node's single consumer takes in arrival order, and what
//! it does about each.

use crate::error::NodeError;
use vstd::prelude::*;

verus! {

/// An event on the node's bus. `M` is the workload's message type.
#[derive(Debug)]
pub enum Event<M> {
    /// An inbound message, to be handled and possibly replied to.
    Reply(M),
    /// A message that the node sends of its own accord, such as a gossip to
    /// a neighbor: it is ready to be written.
    Push(M),
    /// The input has ended: the node should shut down.
    Shutdown,
}

/// What the consumer does after an event.
#[derive(Debug)]
pub enum Action<M> {
    /// Write this message to the output, then take the next event.
    Write(M),
    /// Write nothing and take the next event.
    Continue,
    /// The message was not understood: report it, drop it and take the next
    /// event.
    Drop(NodeError),
    /// Leave the loop.
    Stop,
}

/// The action that follows a handler's verdict on an inbound message: a
/// reply is written, a fatal error ends the node, any other error has the
/// message dropped.
pub open spec fn settled<M>(handled: Result<Option<M>, NodeError>) -> Result<Action<M>, NodeError> {
    match handled {
        Ok(Some(reply)) => Ok(Action::Write(reply)),
        Ok(None) => Ok(Action::Continue),
        Err(error) => if error.fatal() {
            Err(error)
        } else {
            Ok(Action::Drop(error))
        },
    }
}

/// Turns a handler's verdict on an inbound message into the consumer's next
/// action.
pub fn settle<M>(handled: Result<Option<M>, NodeError>) -> (action: Result<Action<M>, NodeError>)
    ensures
        action == settled(handled),
{
    match handled {
        Ok(Some(reply)) => Ok(Action::Write(reply)),
        Ok(None) => Ok(Action::Continue),
        Err(error) => if error.is_fatal() {
            Err(error)
        } else {
            Ok(Action::Drop(error))
        },
    }
}

} // verus!
