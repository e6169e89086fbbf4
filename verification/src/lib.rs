//! Bogobarf: a small publish/subscribe and remote-call protocol for robots.
//!
//! The library holds the protocol logic: the length-delimited framing of the
//! byte stream, the wire messages, the client's bookkeeping of calls and
//! subscriptions, and the server's answers. Sockets, tasks and the CBOR
//! encoding of messages are driven by the program around it.

pub mod client;
pub mod error;
pub mod frame;
pub mod keyed;
pub mod legacy;
pub mod message;
pub mod server;
pub mod topic_list;
