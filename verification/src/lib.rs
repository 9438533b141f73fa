//! A minimal single-connection RPC core: length-prefixed framing, a
//! deterministic binary codec for request/response envelopes, per-call
//! context metadata, and a dispatch state machine that correlates each
//! response to its originating call.
//!
//! The crate holds the wire contract and the call lifecycle; sockets,
//! task scheduling and business logic live with the caller, which hands
//! the library plain byte chunks and receives byte frames and dispatch
//! actions back.

pub mod codec;
pub mod dispatch;
pub mod envelope;
pub mod framing;
pub mod lifecycle;
pub mod wire;
