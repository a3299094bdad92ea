//! A small key-value server core: a decoder for length-prefixed request
//! frames, a command model, a reply encoder, an in-memory store and the
//! per-connection request state machine. Transport and locking live with
//! the caller.
pub mod wire;
pub mod frame;
pub mod command;
pub mod store;
pub mod session;
pub mod laws;
