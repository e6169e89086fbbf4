//! The messages that travel between clients and the server.

use vstd::prelude::*;

verus! {

/// A message on the wire. Each frame of a connection carries one.
#[derive(Debug, Clone, PartialEq, Eq)]
pub enum Message {
    /// A remote procedure call (`call` on the wire).
    RpcRequest { sequence_id: u32, method: String, args: Vec<String> },
    /// The answer to the call with the same sequence number (`ret`).
    RpcResponse { sequence_id: u32, result: String },
    /// A value published on a topic (`pub`).
    Publish { topic: String, value: String },
    /// The sender is about to close the connection (`bye`).
    Bye,
    /// An event.
    Event,
}

/// The message format of the first protocol version.
#[derive(Debug, Clone, PartialEq, Eq)]
pub struct OldMessage {
    pub id: i64,
    pub text: String,
}

} // verus!
