//! A message relay: clients connect over a byte stream, send tagged text
//! messages, and the relay fans each message out to every other client.
//!
//! This crate holds the relay's logic as functions on plain values: the wire
//! framing, the payload format, the client registry with its outbound queues,
//! the fan-out step and the per-connection state machine. Sockets, tasks and
//! logging live with the caller.

pub mod broadcast;
pub mod config;
pub mod connection;
pub mod frame;
pub mod message;
pub mod registry;
pub mod text;
