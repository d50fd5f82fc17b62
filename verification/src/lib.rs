//! The state machines of an inter-process communication daemon: a channel
//! scheme (listeners, connections and byte streams between clients), a
//! shared-memory scheme (named, reference-counted regions) and the queue of
//! parked requests that turns the channel scheme's "would block" answers into
//! blocking calls.
//!
//! Nothing here talks to the kernel. Every operation is a function from the
//! state and a request to the next state and an answer, and readiness events
//! that an operation raises are collected for the caller to send.

pub mod bytes;
pub mod chan;
pub mod deferred;
pub mod error;
pub mod flags;
pub mod scheme;
pub mod shm;
