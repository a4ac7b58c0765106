//! A bounded connection pool core with lease/release semantics.
//!
//! The pool itself is a pure state machine: every decision (grant a lease,
//! establish a new connection, enqueue a waiter, wake a waiter, close) is a
//! verified function from the current pool state to the next state plus an
//! action for the surrounding runtime to perform. The runtime adapter owns
//! the actual sessions and the scheduler; this crate owns the bookkeeping
//! and its invariants.

pub mod config;
pub mod model;
pub mod pool;
pub mod laws;
