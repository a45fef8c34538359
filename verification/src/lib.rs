//! A verified implementation of a small game-state synchronisation protocol:
//! a text-based command codec, a framing layer with per-direction sequence
//! counters, a server-side broadcast coordinator with read-tracking and
//! eviction, and the client session state that feeds the wire loop.
//!
//! All I/O stays outside this crate: every function here is a pure state
//! transformer over byte buffers and in-memory queues, with a contract that
//! pins down exactly what it produces.

pub mod scan;
pub mod numeral;
pub mod codec;
pub mod framing;
pub mod broadcast;
pub mod session;
pub mod util;
pub mod object;
