//! A Raft consensus core: leader election, log replication, commit
//! advancement, membership changes, and the startup/bootstrap/join
//! sequencing that gives a node a durable identity.
//!
//! The consensus state machine is pure: every handler maps a state and an
//! incoming event to a new state and a response. I/O (transport, timers,
//! durable files) lives outside the library and drives these handlers.
pub mod consensus;
pub mod log;
pub mod routing;
pub mod safety;
pub mod startup;
pub mod types;
