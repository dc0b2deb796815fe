//! A deterministic replay and inspection engine for traces of a
//! viewstamped-replication-style consensus protocol.
//!
//! A recorded schedule of inter-replica messages is loaded once and never
//! mutated; a cursor is then moved forward and backward over it, step by
//! step or frame by frame, while each participant's protocol state is
//! reconstructed exactly.  A diff baseline can be taken and compared
//! against later states, and is invalidated by any backward move that
//! reaches it.

pub mod command;
pub mod debugger;
pub mod laws;
pub mod loader;
pub mod protocol;
pub mod replica;
pub mod schedule;
