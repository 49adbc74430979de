//! Core of an extension bridge server: a process that sits between a fleet of
//! remote game-server clients (framed TCP, per-client AES-256-GCM) and a
//! control-plane bot (a queue-based IPC channel).
//!
//! This crate holds the verified logic: the message model, the framed
//! message codec, the client connection state machine, the client manager
//! with its liveness sweep, the router, and the heartbeat controllers.
//! The surrounding I/O (sockets, queues, the credential store) is ordinary
//! unverified code that calls into this library with plain values.

pub mod message;
pub mod client_message;
pub mod serial;
pub mod aead;
pub mod codec;
pub mod frame;
pub mod client;
pub mod client_manager;
pub mod request;
pub mod router;
pub mod heartbeat;
