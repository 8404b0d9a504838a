//! Errors returned by the graph's mutating calls.
use vstd::prelude::*;

verus! {

/// The kind of an error; each structural or configuration rule that a call
/// would break has its own kind.
#[derive(PartialEq, Eq, Structural, Clone, Copy, Debug)]
pub enum ErrorCodes {
    NodeIDNonExistent,
    NodeInputPortInvalid,
    NodeNoMoreInputs,
    NodeParentAlreadyExists,
    NodeConnectingToItself,
    CannotAddOutputTypeNode,
    ConnectionAlreadyExists,
    /// A connection that would close a loop: its source is the sink, which
    /// ends every chain, or its consumer already feeds the source, directly
    /// or through other nodes.
    ConnectionCreatesCycle,
    InvalidBufferSize,
    InvalidSamplingFrequency,
}

/// An error: its kind and a message for people.
pub struct Error {
    pub code: ErrorCodes,
    pub message: String,
}

/// The message that goes with each kind of error.
pub open spec fn message_of(code: ErrorCodes) -> Seq<char> {
    match code {
        ErrorCodes::NodeIDNonExistent => "Node ID does not exist in graph"@,
        ErrorCodes::NodeInputPortInvalid => "Node input port not valid"@,
        ErrorCodes::NodeNoMoreInputs => "Input node has no more available inputs"@,
        ErrorCodes::NodeParentAlreadyExists => "node_out already has a parent"@,
        ErrorCodes::NodeConnectingToItself => "Cannot connect a node to itself"@,
        ErrorCodes::CannotAddOutputTypeNode => "Cannot add output type node to graph"@,
        ErrorCodes::ConnectionAlreadyExists => "The node connection already exists"@,
        ErrorCodes::ConnectionCreatesCycle => "The node connection would close a loop"@,
        ErrorCodes::InvalidBufferSize => "Invalid buffer size"@,
        ErrorCodes::InvalidSamplingFrequency => "Invalid sampling frequency entered"@,
    }
}

impl Error {
    /// The error of the given kind, with its message.
    pub fn new(code: ErrorCodes) -> (r: Error)
        ensures
            r.code == code,
            r.message@ == message_of(code),
    {
        let text: &str = match code {
            ErrorCodes::NodeIDNonExistent => "Node ID does not exist in graph",
            ErrorCodes::NodeInputPortInvalid => "Node input port not valid",
            ErrorCodes::NodeNoMoreInputs => "Input node has no more available inputs",
            ErrorCodes::NodeParentAlreadyExists => "node_out already has a parent",
            ErrorCodes::NodeConnectingToItself => "Cannot connect a node to itself",
            ErrorCodes::CannotAddOutputTypeNode => "Cannot add output type node to graph",
            ErrorCodes::ConnectionAlreadyExists => "The node connection already exists",
            ErrorCodes::ConnectionCreatesCycle => "The node connection would close a loop",
            ErrorCodes::InvalidBufferSize => "Invalid buffer size",
            ErrorCodes::InvalidSamplingFrequency => "Invalid sampling frequency entered",
        };
        Error { code, message: text.to_owned() }
    }

    /// The kind of this error.
    pub fn code(&self) -> (r: ErrorCodes)
        ensures
            r == self.code,
    {
        self.code
    }
}

} // verus!
