//! The ways in which a node refuses a message.

use vstd::prelude::*;

verus! {

/// Why a node did not handle a message or could not take a step.
#[derive(Debug, Clone, Copy, PartialEq, Eq, Structural)]
pub enum NodeError {
    /// The first message a node received was not an `init`.
    InitExpected,
    /// An `init` arrived at a node that is initialized already.
    InitRepeated,
    /// The body is of a kind that this workload does not handle.
    Unrecognized,
    /// The node's own id has no entry in the neighbor map.
    NoNeighbors,
    /// A message id or a counter value would leave its integer range.
    Overflow,
}

impl NodeError {
    /// Whether the error ends the node. An unrecognized body is reported and
    /// dropped; every other error is a breach the node cannot recover from.
    pub open spec fn fatal(self) -> bool {
        self != NodeError::Unrecognized
    }

    /// Whether the error ends the node.
    pub fn is_fatal(&self) -> (fatal: bool)
        ensures
            fatal == self.fatal(),
    {
        match self {
            NodeError::Unrecognized => false,
            _ => true,
        }
    }

    /// The text of the diagnostic for this error.
    pub open spec fn text(self) -> Seq<char> {
        match self {
            NodeError::InitExpected => "Init message is not the first message received"@,
            NodeError::InitRepeated => "Init message received after initialization"@,
            NodeError::Unrecognized => "Message not implemented"@,
            NodeError::NoNeighbors => "Node does not have neighbors"@,
            NodeError::Overflow => "Integer out of range"@,
        }
    }

    /// The diagnostic for this error.
    pub fn message(&self) -> (text: String)
        ensures
            text@ == self.text(),
    {
        match self {
            NodeError::InitExpected => "Init message is not the first message received".to_owned(),
            NodeError::InitRepeated => "Init message received after initialization".to_owned(),
            NodeError::Unrecognized => "Message not implemented".to_owned(),
            NodeError::NoNeighbors => "Node does not have neighbors".to_owned(),
            NodeError::Overflow => "Integer out of range".to_owned(),
        }
    }
}

} // verus!
