//! Client-side engine for the control protocol of a cluster-membership agent.
//!
//! One connection carries many requests and subscriptions at once, told apart
//! by a sequence number. This crate holds the rules of that multiplexing: the
//! MessagePack framing of commands, the sequence-keyed dispatch table, the
//! state machine of a single awaited response and the queue of a subscription.
//! Sockets, threads and wakers stay with the caller, which feeds events in and
//! performs what the engine hands back.

pub mod addr;
pub mod args;
pub mod codec;
pub mod decode;
pub mod dispatch;
pub mod exchange;
pub mod protocol;
pub mod reader;
pub mod request;
pub mod stream;
pub mod wire;
