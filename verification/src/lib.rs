//! A rendezvous hub: remote agents hold long-lived duplex connections to the
//! hub, and short-lived callers dispatch commands to a named agent and wait
//! for that agent's asynchronous reply.
//!
//! The crate holds the hub's core logic: the wire codec for the three
//! envelope kinds, the registry mapping identifiers to live sessions, the
//! liveness (heartbeat/timeout) decisions, and the request/reply correlation
//! that pairs one outbound command with one inbound reply. The transport
//! itself (websocket frames, HTTP ingress) lives outside the library and
//! hands it plain values: frames as bytes, time as a tick count, connections
//! and waiting callers as integer tokens.

pub mod codec;
pub mod encoder;
pub mod server;
pub mod messages;
