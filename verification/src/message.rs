//! The control-plane message schema: inbound edit commands and outbound
//! replies. The wire encoding lives outside the library; these are the
//! plain values the engine works on.

use vstd::prelude::*;

verus! {

/// A request to add a node whose behavior is looked up in the recipe
/// book by this type name.
pub struct AddNodeMessage {
    pub node_type: String,
}

/// A request to remove the node with this id.
pub struct RemoveNodeMessage {
    pub node_id: usize,
}

/// A request to connect output `output_idx` of `from_id` into input
/// `input_idx` of `to_id`.
pub struct ConnectNodesMessage {
    pub from_id: usize,
    pub to_id: usize,
    pub output_idx: usize,
    pub input_idx: usize,
}

/// A request to remove exactly that edge again.
pub struct DisconnectNodesMessage {
    pub from_id: usize,
    pub to_id: usize,
    pub output_idx: usize,
    pub input_idx: usize,
}

/// An inbound edit command from a client.
pub enum ClientMessage {
    AddNode(AddNodeMessage),
    RemoveNode(RemoveNodeMessage),
    ConnectNodes(ConnectNodesMessage),
    DisconnectNodes(DisconnectNodesMessage),
}

/// The reply to a command that was applied.
pub struct AlrightMessage {
    pub message: String,
}

/// The reply to a command that was rejected: the error's kind and a short
/// human-readable detail.
pub struct FailureMessage {
    pub kind: String,
    pub detail: String,
}

/// An outbound reply: exactly one per command.
pub enum ServerMessage {
    Alright(AlrightMessage),
    Failure(FailureMessage),
}

} // verus!
