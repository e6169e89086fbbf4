//! The wire types of the first protocol version.

use vstd::prelude::*;

verus! {

/// A message of the first protocol version.
#[derive(Debug, Clone, PartialEq, Eq)]
pub struct Message {
    pub id: i64,
    pub text: String,
}

/// A remote procedure call of the first protocol version.
#[derive(Debug, Clone, PartialEq, Eq)]
pub struct RpcRequest {
    pub sequence_id: i64,
    pub method: String,
}

/// The answer to a call of the first protocol version.
#[derive(Debug, Clone, PartialEq, Eq)]
pub struct RpcResponse {
    pub sequence_id: i64,
}

/// A wire message of the first protocol version.
#[derive(Debug, Clone, PartialEq, Eq)]
pub enum Message2 {
    RpcRequest(RpcRequest),
    RpcResponse(RpcResponse),
    Event,
}

} // verus!
