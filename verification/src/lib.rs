//! Confirmation tracking and heartbeat timing for an AMQP 0.9.1 client core.
//!
//! Two independent components share one idiom: all state lives in a plain
//! `Inner` struct whose methods are short, synchronous critical sections.
//! An embedding program wraps each `Inner` in a lock and performs the
//! outside work (waking waiters, sending frames, reading the clock) that
//! the verified core only decides about.

pub mod acknowledgement;
pub mod confirmation;
pub mod heartbeat;
